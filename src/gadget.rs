//! Power-of-two gadget matrices and the decomposition that inverts them.
use crate::error::ProtocolError;
use crate::field::{fe_add, random_bit, inv_of, lemma_fe_range, lemma_pow2_nonzero, modulus, pow2, pow2_mod, Fe};
use crate::linalg::{
    diag_invertible, lemma_join_index, lemma_split_index, mat_diag_inverse, mat_vec, resize_to, resized,
    row_dot, vmul, MatF, RingMat, VecF,
};
use vstd::arithmetic::div_mod::{lemma_mul_mod_noop_left, lemma_mul_mod_noop_right, lemma_small_mod};
use vstd::prelude::*;

verus! {

/// The `m × m` diagonal matrix with `2^0, 2^1, …, 2^(m-1)` on its diagonal.
pub open spec fn mat_gadget(m: nat) -> RingMat {
    RingMat {
        rows: m,
        cols: m,
        entries: Seq::new(m * m, |k: int| if k / m as int == k % m as int { pow2_mod((k / m as int) as nat) } else { 0int }),
    }
}

/// Coordinate `i` of a gadget-encoded vector `a` carries a binary digit: it is
/// `0·2^i` or `1·2^i`.
pub open spec fn is_binary_coord(a: Seq<int>, i: int) -> bool {
    a[i] == 0 || a[i] == pow2_mod(i as nat)
}

/// The binary decomposition of `v` at width `w`: `None` when some coordinate of
/// the resized vector carries no binary digit, else the digits.
pub open spec fn spec_gadget_decompose(v: Seq<int>, w: nat) -> Option<Seq<int>> {
    let a = resized(v, w);
    if forall|i: int| 0 <= i < w ==> #[trigger] is_binary_coord(a, i) {
        Some(Seq::new(w, |i: int| if a[i] == 0 { 0int } else { 1int }))
    } else {
        None
    }
}

/// The unconstrained decomposition of `v` at width `w`: coordinate `i` of the
/// resized vector divided by `2^i` in the field.
pub open spec fn spec_gadget_digits(v: Seq<int>, w: nat) -> Seq<int> {
    let a = resized(v, w);
    Seq::new(w, |i: int| (inv_of(pow2_mod(i as nat)) * a[i]) % modulus())
}

/// A matrix-vector product with a diagonal matrix multiplies entry by entry.
pub proof fn lemma_mat_vec_diagonal(m: RingMat, v: Seq<int>, d: Seq<int>)
    requires
        m.wf(),
        m.rows == m.cols,
        v.len() == m.cols,
        d.len() == m.rows,
        forall|i: int, j: int|
            0 <= i < m.rows && 0 <= j < m.cols ==> #[trigger] m.at(i, j) == if i == j { d[i] } else { 0 },
    ensures
        mat_vec(m, v) == vmul(d, v),
{
    assert forall|r: int| 0 <= r < m.rows implies #[trigger] row_dot(m, r, v, m.cols) == d[r] * v[r] by {
        lemma_row_dot_diagonal(m, r, v, d, m.cols);
    }
    assert(mat_vec(m, v) =~= vmul(d, v));
}

proof fn lemma_row_dot_diagonal(m: RingMat, r: int, v: Seq<int>, d: Seq<int>, k: nat)
    requires
        0 <= r < m.rows,
        k <= m.cols,
        m.rows == m.cols,
        forall|i: int, j: int|
            0 <= i < m.rows && 0 <= j < m.cols ==> #[trigger] m.at(i, j) == if i == j { d[i] } else { 0 },
    ensures
        row_dot(m, r, v, k) == if r < k { d[r] * v[r] } else { 0 },
    decreases k,
{
    if k > 0 {
        lemma_row_dot_diagonal(m, r, v, d, (k - 1) as nat);
        assert(m.at(r, k - 1) == if r == k - 1 { d[r] } else { 0 });
    }
}

/// The gadget matrix is diagonal with `2^i` at position `i`.
pub proof fn lemma_gadget_entries(m: nat)
    ensures
        mat_gadget(m).wf(),
        forall|i: int, j: int|
            0 <= i < m && 0 <= j < m ==> #[trigger] mat_gadget(m).at(i, j) == if i == j {
                pow2_mod(i as nat)
            } else {
                0
            },
{
    assert forall|i: int, j: int| 0 <= i < m && 0 <= j < m implies #[trigger] mat_gadget(m).at(i, j) == if i == j {
        pow2_mod(i as nat)
    } else {
        0
    } by {
        lemma_join_index(i, j, m as int, m as int);
    }
}

/// The diagonal inverse of a diagonal matrix is diagonal with the inverses.
proof fn lemma_diag_inverse_entries(g: RingMat)
    requires
        g.rows == g.cols,
    ensures
        mat_diag_inverse(g).wf(),
        forall|i: int, j: int|
            0 <= i < g.rows && 0 <= j < g.rows ==> #[trigger] mat_diag_inverse(g).at(i, j) == if i == j {
                inv_of(g.at(i, i))
            } else {
                0
            },
{
    let n = g.rows as int;
    assert forall|i: int, j: int| 0 <= i < n && 0 <= j < n implies #[trigger] mat_diag_inverse(g).at(i, j) == if i
        == j {
        inv_of(g.at(i, i))
    } else {
        0
    } by {
        lemma_join_index(i, j, n, n);
    }
}

/// Builds the `m × m` gadget matrix `diag(2^0, …, 2^(m-1))`.
pub fn gadget_matrix(m: usize) -> (r: MatF)
    requires
        m * m <= usize::MAX,
    ensures
        r.wf(),
        r@ == mat_gadget(m as nat),
{
    let mut pows: Vec<Fe> = Vec::new();
    let mut p = Fe::one();
    proof {
        lemma_small_mod(1, modulus() as nat);
    }
    while pows.len() < m
        invariant
            pows@.len() <= m,
            p@ == pow2_mod(pows@.len()),
            forall|k: int| 0 <= k < pows@.len() ==> (#[trigger] pows@[k])@ == pow2_mod(k as nat),
        decreases m - pows@.len(),
    {
        let ghost i = pows@.len();
        pows.push(p);
        p = fe_add(&p, &p);
        proof {
            lemma_mul_mod_noop_right(2, pow2(i), modulus());
            assert(pow2(i + 1) == 2 * pow2(i));
        }
    }
    let total = m * m;
    let mut data: Vec<Fe> = Vec::new();
    let mut k: usize = 0;
    let ghost g = mat_gadget(m as nat);
    while k < total
        invariant
            total == m * m,
            g == mat_gadget(m as nat),
            pows@.len() == m,
            forall|x: int| 0 <= x < m ==> (#[trigger] pows@[x])@ == pow2_mod(x as nat),
            k <= total,
            data@.len() == k,
            forall|x: int| 0 <= x < k ==> (#[trigger] data@[x])@ == g.entries[x],
        decreases total - k,
    {
        proof {
            assert(m > 0) by (nonlinear_arith)
                requires
                    k < total,
                    total == m * m,
            ;
            lemma_split_index(k as int, m as int, m as int);
        }
        if k / m == k % m {
            data.push(pows[k / m]);
        } else {
            data.push(Fe::zero());
        }
        k = k + 1;
    }
    let r = MatF::new(m, m, data);
    assert(r@.entries =~= g.entries);
    r
}

/// Decomposes `v` into binary digits at width `width`: `v` is cut or padded
/// to `width` entries and multiplied by the inverse of `gadget_matrix(width)`.
/// Fails with `NonBinaryDigit` when a decoded coordinate is neither zero nor one.
pub fn gadget_decompose(v: &VecF, width: usize) -> (r: Result<VecF, ProtocolError>)
    requires
        width * width <= usize::MAX,
    ensures
        match r {
            Ok(d) => spec_gadget_decompose(v@, width as nat) == Some(d@),
            Err(e) => e == ProtocolError::NonBinaryDigit && spec_gadget_decompose(v@, width as nat) is None,
        },
{
    let decoded = gadget_apply_inverse(v, width);
    let ghost a = resized(v@, width as nat);
    let zero = Fe::zero();
    let one = Fe::one();
    assert(decoded.data@.len() == decoded@.len());
    let mut i: usize = 0;
    while i < width
        invariant
            decoded@ == spec_gadget_digits(v@, width as nat),
            decoded.data@.len() == width,
            a == resized(v@, width as nat),
            zero@ == 0,
            one@ == 1,
            i <= width,
            forall|k: int| 0 <= k < i ==> #[trigger] is_binary_coord(a, k),
            forall|k: int| 0 <= k < i ==> decoded@[k] == if a[k] == 0 { 0int } else { 1int },
        decreases width - i,
    {
        proof {
            if i < v@.len() {
                lemma_fe_range(v.data@[i as int]);
            }
            lemma_digit_cases(a[i as int], i as nat);
            assert(decoded@[i as int] == decoded.data@[i as int]@);
            assert(decoded@[i as int] == (inv_of(pow2_mod(i as nat)) * a[i as int]) % modulus());
        }
        if decoded.data[i] != zero && decoded.data[i] != one {
            assert(!is_binary_coord(a, i as int));
            return Err(ProtocolError::NonBinaryDigit);
        }
        i = i + 1;
    }
    assert(decoded@ =~= spec_gadget_decompose(v@, width as nat)->0);
    Ok(decoded)
}

/// Decomposes `v` at width `width` with no constraint on the digits: each
/// coordinate `i` of `v` (cut or padded to `width`) is divided by `2^i`.
pub fn gadget_decompose_digits(v: &VecF, width: usize) -> (r: VecF)
    requires
        width * width <= usize::MAX,
    ensures
        r@ == spec_gadget_digits(v@, width as nat),
{
    gadget_apply_inverse(v, width)
}

/// `v` resized to `width` and multiplied by the diagonal inverse of the gadget matrix.
fn gadget_apply_inverse(v: &VecF, width: usize) -> (r: VecF)
    requires
        width * width <= usize::MAX,
    ensures
        r@ == spec_gadget_digits(v@, width as nat),
{
    let g = gadget_matrix(width);
    proof {
        lemma_gadget_entries(width as nat);
        assert forall|i: int| 0 <= i < width implies #[trigger] g@.at(i, i) != 0 by {
            lemma_pow2_nonzero(i as nat);
        }
        assert(diag_invertible(g@));
    }
    let g_inv = g.inverse_diagonal().unwrap();
    let adjusted = resize_to(v, width);
    let decoded = g_inv.custom_mul_vec(&adjusted);
    proof {
        lemma_diag_inverse_entries(g@);
        let d = Seq::new(width as nat, |i: int| inv_of(pow2_mod(i as nat)));
        lemma_mat_vec_diagonal(g_inv@, adjusted@, d);
        assert(decoded@ =~= spec_gadget_digits(v@, width as nat));
    }
    decoded
}

/// Encoding binary digits with the gadget matrix and decomposing the result
/// at the same width gives the digits back.
pub proof fn lemma_gadget_round_trip(m: nat, b: Seq<int>)
    requires
        b.len() == m,
        forall|i: int| 0 <= i < m ==> #[trigger] b[i] == 0 || b[i] == 1,
    ensures
        spec_gadget_decompose(mat_vec(mat_gadget(m), b), m) == Some(b),
{
    let g = mat_gadget(m);
    let d = Seq::new(m, |i: int| pow2_mod(i as nat));
    lemma_gadget_entries(m);
    lemma_mat_vec_diagonal(g, b, d);
    let enc = mat_vec(g, b);
    let a = resized(enc, m);
    assert(a =~= enc);
    assert forall|i: int| 0 <= i < m implies #[trigger] is_binary_coord(a, i) && (a[i] == 0) == (b[i] == 0) by {
        lemma_pow2_nonzero(i as nat);
        lemma_small_mod(0, modulus() as nat);
        lemma_small_mod(pow2_mod(i as nat) as nat, modulus() as nat);
        if b[i] == 0 {
            assert(d[i] * b[i] == 0);
        } else {
            assert(d[i] * b[i] == d[i]);
        }
    }
    assert(forall|i: int| 0 <= i < m ==> #[trigger] is_binary_coord(a, i));
    let digits = Seq::new(m, |i: int| if a[i] == 0 { 0int } else { 1int });
    assert(spec_gadget_decompose(enc, m) == Some(digits));
    assert forall|i: int| 0 <= i < m implies #[trigger] digits[i] == b[i] by {
        assert(is_binary_coord(a, i));
    }
    assert(digits =~= b);
}

/// Draws `dim` random binary digits and encodes them through the gadget
/// matrix: an honestly sampled vector to commit to.
pub fn generate_random_f(dim: usize) -> (r: VecF)
    requires
        dim * dim <= usize::MAX,
    ensures
        exists|b: Seq<int>|
            {
                &&& b.len() == dim
                &&& forall|i: int| 0 <= i < dim ==> #[trigger] b[i] == 0 || b[i] == 1
                &&& r@ == #[trigger] mat_vec(mat_gadget(dim as nat), b)
            },
{
    let mut bits: Vec<Fe> = Vec::new();
    while bits.len() < dim
        invariant
            bits@.len() <= dim,
            forall|i: int| 0 <= i < bits@.len() ==> (#[trigger] bits@[i])@ == 0 || bits@[i]@ == 1,
        decreases dim - bits@.len(),
    {
        let bit = random_bit();
        bits.push(Fe::from_u64(bit));
    }
    let b_vec = VecF::new(bits);
    let gadget = gadget_matrix(dim);
    let f = gadget.custom_mul_vec(&b_vec);
    assert(b_vec@.len() == dim);
    assert(forall|i: int| 0 <= i < dim ==> #[trigger] b_vec@[i] == 0 || b_vec@[i] == 1);
    f
}

/// Dividing `a` by `2^i` gives zero exactly for `a == 0` and one exactly for
/// `a == 2^i`.
pub proof fn lemma_digit_cases(a: int, i: nat)
    requires
        0 <= a < modulus(),
    ensures
        ((inv_of(pow2_mod(i)) * a) % modulus() == 0) == (a == 0),
        ((inv_of(pow2_mod(i)) * a) % modulus() == 1) == (a == pow2_mod(i)),
{
    crate::field::lemma_pow2_invertible(i);
    let p = pow2_mod(i);
    let x = inv_of(p);
    let m = modulus();
    let d = (x * a) % m;
    lemma_mul_mod_noop_left(x * a, p, m);
    lemma_mul_mod_noop_right(a, x * p, m);
    assert((x * a) * p == a * (x * p)) by (nonlinear_arith);
    lemma_small_mod(a as nat, m as nat);
    assert((d * p) % m == a);
    assert(0 <= p < m);
    lemma_small_mod(p as nat, m as nat);
    assert(x * 0 == 0);
    lemma_small_mod(0, m as nat);
    if d == 0 {
        assert(d * p == 0);
    }
    if d == 1 {
        assert(d * p == p);
    }
}

} // verus!
