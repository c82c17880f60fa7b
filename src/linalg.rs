//! Vectors and dense row-major matrices over the field, each with a
//! mathematical view: a `Seq<int>` of reduced values, or a `RingMat`.
use crate::dense::{
    dense_clone, dense_dims, dense_entries, dense_from_element, dense_from_rows, dense_get, dense_identity, dense_kronecker,
    dense_shape, dense_transpose, dense_view, DenseMat,
};
use crate::field::{fe_add, fe_gt, fe_inverse, fe_mul, inv_of, lemma_inverse_unique, modulus, Fe};
use vstd::arithmetic::div_mod::{
    lemma_add_mod_noop, lemma_div_is_ordered, lemma_fundamental_div_mod,
    lemma_fundamental_div_mod_converse, lemma_mod_pos_bound, lemma_multiply_divide_lt,
};
use vstd::prelude::*;

verus! {

/// Entry-wise product of two sequences of field values.
pub open spec fn vmul(a: Seq<int>, b: Seq<int>) -> Seq<int> {
    Seq::new(a.len(), |i: int| (a[i] * b[i]) % modulus())
}

/// Entry-wise sum of two sequences of field values.
pub open spec fn vadd(a: Seq<int>, b: Seq<int>) -> Seq<int> {
    Seq::new(a.len(), |i: int| (a[i] + b[i]) % modulus())
}

/// `v` brought to exactly `w` entries: cut after `w`, or filled with zeros.
pub open spec fn resized(v: Seq<int>, w: nat) -> Seq<int> {
    Seq::new(w, |i: int| if i < v.len() { v[i] } else { 0 })
}

/// The largest entry, or zero for an empty sequence (the fold starts at zero).
pub open spec fn max_entry(s: Seq<int>) -> int
    decreases s.len(),
{
    if s.len() == 0 {
        0
    } else {
        let m = max_entry(s.drop_last());
        if s.last() > m {
            s.last()
        } else {
            m
        }
    }
}

/// A matrix as mathematics sees it: its shape and its entries in row-major order.
pub struct RingMat {
    pub rows: nat,
    pub cols: nat,
    pub entries: Seq<int>,
}

impl RingMat {
    pub open spec fn at(self, r: int, c: int) -> int {
        self.entries[r * self.cols + c]
    }

    pub open spec fn wf(self) -> bool {
        self.entries.len() == self.rows * self.cols
    }
}

pub open spec fn mat_identity(n: nat) -> RingMat {
    RingMat { rows: n, cols: n, entries: Seq::new(n * n, |k: int| if k / n as int == k % n as int { 1int } else { 0int }) }
}

/// The one-column matrix whose entries are `c`.
pub open spec fn mat_column(c: Seq<int>) -> RingMat {
    RingMat { rows: c.len(), cols: 1, entries: c }
}

/// The Kronecker product: entry `(i, j)` is `a[i / b.rows, j / b.cols] * b[i % b.rows, j % b.cols]`.
pub open spec fn mat_kron(a: RingMat, b: RingMat) -> RingMat {
    let rows = a.rows * b.rows;
    let cols = a.cols * b.cols;
    RingMat {
        rows,
        cols,
        entries: Seq::new(
            rows * cols,
            |k: int|
                {
                    let i = k / cols as int;
                    let j = k % cols as int;
                    (a.at(i / b.rows as int, j / b.cols as int) * b.at(i % b.rows as int, j % b.cols as int))
                        % modulus()
                },
        ),
    }
}

pub open spec fn mat_transpose(a: RingMat) -> RingMat {
    RingMat {
        rows: a.cols,
        cols: a.rows,
        entries: Seq::new(a.rows * a.cols, |k: int| a.at(k % a.rows as int, k / a.rows as int)),
    }
}

/// Square, with no zero on the diagonal.
pub open spec fn diag_invertible(m: RingMat) -> bool {
    m.rows == m.cols && forall|i: int| 0 <= i < m.rows ==> #[trigger] m.at(i, i) != 0
}

/// The diagonal matrix of the inverses of `m`'s diagonal entries; what lies
/// off the diagonal of `m` is not read.
pub open spec fn mat_diag_inverse(m: RingMat) -> RingMat {
    let n = m.rows;
    RingMat {
        rows: n,
        cols: n,
        entries: Seq::new(n * n, |k: int| if k / n as int == k % n as int { inv_of(m.at(k / n as int, k / n as int)) } else { 0int }),
    }
}

/// The sum over the first `k` columns of row `r` of `m[r, c] * v[c]`.
pub open spec fn row_dot(m: RingMat, r: int, v: Seq<int>, k: nat) -> int
    decreases k,
{
    if k == 0 {
        0
    } else {
        row_dot(m, r, v, (k - 1) as nat) + m.at(r, k - 1) * v[k - 1]
    }
}

/// The matrix-vector product in the field.
pub open spec fn mat_vec(m: RingMat, v: Seq<int>) -> Seq<int> {
    Seq::new(m.rows, |r: int| row_dot(m, r, v, m.cols) % modulus())
}

/// A flat index below `a * b` splits into a row below `a` and a column below `b`.
pub proof fn lemma_split_index(k: int, a: int, b: int)
    requires
        0 <= k < a * b,
        b > 0,
    ensures
        0 <= k / b < a,
        0 <= k % b < b,
        k == (k / b) * b + k % b,
{
    assert(k < b * a) by (nonlinear_arith)
        requires
            k < a * b,
    ;
    lemma_multiply_divide_lt(k, b, a);
    lemma_div_is_ordered(0, k, b);
    lemma_fundamental_div_mod(k, b);
    lemma_mod_pos_bound(k, b);
    assert(b * (k / b) == (k / b) * b) by (nonlinear_arith);
}

/// Row `i` and column `j` below `b` give back the flat index `i * b + j`.
pub proof fn lemma_join_index(i: int, j: int, a: int, b: int)
    requires
        0 <= i < a,
        0 <= j < b,
    ensures
        (i * b + j) / b == i,
        (i * b + j) % b == j,
        0 <= i * b + j < a * b,
{
    lemma_fundamental_div_mod_converse(i * b + j, b, i, j);
    assert(i * b + j < a * b) by (nonlinear_arith)
        requires
            0 <= i < a,
            0 <= j < b,
    {
        assert((i + 1) * b <= a * b);
    }
    assert(0 <= i * b) by (nonlinear_arith)
        requires
            0 <= i,
            0 <= j < b,
    ;
}

/// A vector of field elements.
#[derive(Debug)]
pub struct VecF {
    pub data: Vec<Fe>,
}

impl Clone for VecF {
    fn clone(&self) -> (r: Self)
        ensures
            r@ == self@,
    {
        let data = self.data.clone();
        assert(data@ =~= self.data@);
        VecF { data }
    }
}

impl View for VecF {
    type V = Seq<int>;

    open spec fn view(&self) -> Seq<int> {
        self.data@.map_values(|x: Fe| x@)
    }
}

impl VecF {
    pub fn new(data: Vec<Fe>) -> (r: VecF)
        ensures
            r@ == data@.map_values(|x: Fe| x@),
    {
        VecF { data }
    }

    pub fn zero(len: usize) -> (r: VecF)
        ensures
            r@ == Seq::new(len as nat, |i: int| 0int),
    {
        let mut data: Vec<Fe> = Vec::new();
        let mut i: usize = 0;
        while i < len
            invariant
                i <= len,
                data@.len() == i,
                forall|k: int| 0 <= k < i ==> (#[trigger] data@[k])@ == 0,
            decreases len - i,
        {
            data.push(Fe::zero());
            i = i + 1;
        }
        let r = VecF { data };
        assert(r@ =~= Seq::new(len as nat, |i: int| 0int));
        r
    }

    pub fn len(&self) -> (r: usize)
        ensures
            r == self@.len(),
    {
        self.data.len()
    }

    /// Entry-wise sum; the lengths must agree.
    pub fn add(&self, other: &Self) -> (r: VecF)
        requires
            self@.len() == other@.len(),
        ensures
            r@ == vadd(self@, other@),
    {
        let mut data: Vec<Fe> = Vec::new();
        let mut i: usize = 0;
        while i < self.data.len()
            invariant
                i <= self@.len(),
                self@.len() == other@.len(),
                data@.len() == i,
                forall|k: int| 0 <= k < i ==> (#[trigger] data@[k])@ == (self@[k] + other@[k]) % modulus(),
            decreases self@.len() - i,
        {
            data.push(fe_add(&self.data[i], &other.data[i]));
            i = i + 1;
        }
        let r = VecF { data };
        assert(r@ =~= vadd(self@, other@));
        r
    }

    /// Entry-wise product; the lengths must agree.
    pub fn mul(&self, other: &Self) -> (r: VecF)
        requires
            self@.len() == other@.len(),
        ensures
            r@ == vmul(self@, other@),
    {
        let mut data: Vec<Fe> = Vec::new();
        let mut i: usize = 0;
        while i < self.data.len()
            invariant
                i <= self@.len(),
                self@.len() == other@.len(),
                data@.len() == i,
                forall|k: int| 0 <= k < i ==> (#[trigger] data@[k])@ == (self@[k] * other@[k]) % modulus(),
            decreases self@.len() - i,
        {
            data.push(fe_mul(&self.data[i], &other.data[i]));
            i = i + 1;
        }
        let r = VecF { data };
        assert(r@ =~= vmul(self@, other@));
        r
    }

    /// Every entry multiplied by `scalar`.
    pub fn scalar_mul(&self, scalar: Fe) -> (r: VecF)
        ensures
            r@ == Seq::new(self@.len(), |i: int| (self@[i] * scalar@) % modulus()),
    {
        let mut data: Vec<Fe> = Vec::new();
        let mut i: usize = 0;
        while i < self.data.len()
            invariant
                i <= self@.len(),
                data@.len() == i,
                forall|k: int| 0 <= k < i ==> (#[trigger] data@[k])@ == (self@[k] * scalar@) % modulus(),
            decreases self@.len() - i,
        {
            data.push(fe_mul(&self.data[i], &scalar));
            i = i + 1;
        }
        let r = VecF { data };
        assert(r@ =~= Seq::new(self@.len(), |i: int| (self@[i] * scalar@) % modulus()));
        r
    }

    /// The largest entry under the order of canonical representatives
    /// (zero for an empty vector).
    pub fn norm(&self) -> (r: Fe)
        ensures
            r@ == max_entry(self@),
    {
        let mut acc = Fe::zero();
        let mut i: usize = 0;
        while i < self.data.len()
            invariant
                i <= self@.len(),
                acc@ == max_entry(self@.take(i as int)),
            decreases self@.len() - i,
        {
            proof {
                assert(self@.take(i + 1).drop_last() =~= self@.take(i as int));
            }
            if fe_gt(&self.data[i], &acc) {
                acc = self.data[i];
            }
            i = i + 1;
        }
        assert(self@.take(i as int) =~= self@);
        acc
    }
}

impl PartialEq for VecF {
    fn eq(&self, o: &VecF) -> (r: bool) {
        if self.data.len() != o.data.len() {
            return false;
        }
        let mut i: usize = 0;
        while i < self.data.len()
            invariant
                i <= self@.len(),
                self@.len() == o@.len(),
                forall|k: int| 0 <= k < i ==> self@[k] == o@[k],
            decreases self@.len() - i,
        {
            if self.data[i] != o.data[i] {
                assert(self@[i as int] != o@[i as int]);
                return false;
            }
            i = i + 1;
        }
        assert(self@ =~= o@);
        true
    }
}

impl vstd::std_specs::cmp::PartialEqSpecImpl for VecF {
    open spec fn obeys_eq_spec() -> bool {
        true
    }

    open spec fn eq_spec(&self, o: &VecF) -> bool {
        self@ == o@
    }
}

/// Pads `v` with zeros up to `target_len` entries; a longer `v` is kept whole.
pub fn pad_vector(v: &VecF, target_len: usize) -> (r: VecF)
    ensures
        v@.len() >= target_len ==> r@ == v@,
        v@.len() < target_len ==> r@ == resized(v@, target_len as nat),
{
    if v.len() >= target_len {
        v.clone()
    } else {
        let mut data = v.data.clone();
        assert(data@ =~= v.data@);
        while data.len() < target_len
            invariant
                v@.len() <= data@.len() <= target_len,
                forall|k: int| 0 <= k < v@.len() ==> (#[trigger] data@[k])@ == v@[k],
                forall|k: int| v@.len() <= k < data@.len() ==> (#[trigger] data@[k])@ == 0,
            decreases target_len - data@.len(),
        {
            data.push(Fe::zero());
        }
        let r = VecF { data };
        assert(r@ =~= resized(v@, target_len as nat));
        r
    }
}

/// `v` brought to exactly `width` entries: truncated, or padded with zeros.
pub fn resize_to(v: &VecF, width: usize) -> (r: VecF)
    ensures
        r@ == resized(v@, width as nat),
{
    if v.len() > width {
        let r = VecF { data: slice_vec(&v.data, 0, width) };
        assert(r@ =~= resized(v@, width as nat));
        r
    } else {
        let r = pad_vector(v, width);
        assert(r@ =~= resized(v@, width as nat));
        r
    }
}

/// The entries `start..end` of `v`.
pub fn slice_vec(v: &Vec<Fe>, start: usize, end: usize) -> (r: Vec<Fe>)
    requires
        start <= end <= v@.len(),
    ensures
        r@.map_values(|x: Fe| x@) == v@.map_values(|x: Fe| x@).subrange(start as int, end as int),
{
    let mut out: Vec<Fe> = Vec::new();
    let mut i: usize = start;
    while i < end
        invariant
            start <= i <= end <= v@.len(),
            out@.len() == i - start,
            forall|k: int| 0 <= k < i - start ==> (#[trigger] out@[k])@ == v@[start + k]@,
        decreases end - i,
    {
        out.push(v[i]);
        i = i + 1;
    }
    assert(out@.map_values(|x: Fe| x@) =~= v@.map_values(|x: Fe| x@).subrange(start as int, end as int));
    out
}

/// A dense matrix of field elements in nalgebra's storage.
#[derive(Debug)]
pub struct MatF {
    pub rows: usize,
    pub cols: usize,
    pub data: DenseMat,
}

impl View for MatF {
    type V = RingMat;

    open spec fn view(&self) -> RingMat {
        RingMat { rows: self.rows as nat, cols: self.cols as nat, entries: dense_entries(self.data) }
    }
}

impl Clone for MatF {
    fn clone(&self) -> (r: Self)
        ensures
            r@ == self@,
            self.wf() ==> r.wf(),
    {
        MatF { rows: self.rows, cols: self.cols, data: dense_clone(&self.data) }
    }
}

impl MatF {
    /// The storage has the stated shape and fills it exactly.
    pub open spec fn wf(&self) -> bool {
        &&& dense_shape(self.data) == (self.rows as nat, self.cols as nat)
        &&& dense_entries(self.data).len() == self.rows * self.cols
    }

    /// A matrix from its entries in row-major order.
    pub fn new(rows: usize, cols: usize, data: Vec<Fe>) -> (r: MatF)
        requires
            data@.len() == rows * cols,
        ensures
            r.wf(),
            r@ == (RingMat { rows: rows as nat, cols: cols as nat, entries: data@.map_values(|x: Fe| x@) }),
    {
        MatF { rows, cols, data: dense_from_rows(rows, cols, &data) }
    }

    pub fn zero(rows: usize, cols: usize) -> (r: MatF)
        requires
            rows * cols <= usize::MAX,
        ensures
            r.wf(),
            r@ == (RingMat { rows: rows as nat, cols: cols as nat, entries: Seq::new((rows * cols) as nat, |k: int| 0int) }),
    {
        let z = Fe::zero();
        let r = MatF { rows, cols, data: dense_from_element(rows, cols, z) };
        assert(r@.entries =~= Seq::new((rows * cols) as nat, |k: int| 0int));
        r
    }

    pub fn identity(size: usize) -> (r: MatF)
        requires
            size * size <= usize::MAX,
        ensures
            r.wf(),
            r@ == mat_identity(size as nat),
    {
        MatF { rows: size, cols: size, data: dense_identity(size) }
    }

    /// The entry in row `r` and column `c`.
    pub fn entry(&self, r: usize, c: usize) -> (v: Fe)
        requires
            self.wf(),
            r < self.rows,
            c < self.cols,
        ensures
            v@ == self@.at(r as int, c as int),
    {
        dense_get(&self.data, r, c)
    }

    /// The entries in row-major order.
    pub fn to_row_major(&self) -> (r: Vec<Fe>)
        requires
            self.wf(),
        ensures
            r@.map_values(|x: Fe| x@) == self@.entries,
    {
        let dims = dense_dims(&self.data);
        let total = dims.0 * dims.1;
        let mut out: Vec<Fe> = Vec::new();
        let mut k: usize = 0;
        while k < total
            invariant
                self.wf(),
                total == self.rows * self.cols,
                k <= total,
                out@.len() == k,
                forall|x: int| 0 <= x < k ==> (#[trigger] out@[x])@ == self@.entries[x],
            decreases total - k,
        {
            proof {
                assert(self.cols > 0) by (nonlinear_arith)
                    requires
                        k < total,
                        total == self.rows * self.cols,
                ;
                lemma_split_index(k as int, self.rows as int, self.cols as int);
            }
            out.push(self.entry(k / self.cols, k % self.cols));
            k = k + 1;
        }
        assert(out@.map_values(|x: Fe| x@) =~= self@.entries);
        out
    }

    /// The matrix-vector product; the vector's length must be the column count.
    pub fn custom_mul_vec(&self, v: &VecF) -> (r: VecF)
        requires
            self.wf(),
            self.cols == v@.len(),
        ensures
            r@ == mat_vec(self@, v@),
    {
        let mut out: Vec<Fe> = Vec::new();
        let mut r: usize = 0;
        while r < self.rows
            invariant
                self.wf(),
                self.cols == v@.len(),
                r <= self.rows,
                out@.len() == r,
                forall|k: int| 0 <= k < r ==> (#[trigger] out@[k])@ == row_dot(self@, k, v@, self.cols as nat) % modulus(),
            decreases self.rows - r,
        {
            let mut acc = Fe::zero();
            let mut c: usize = 0;
            assert(0int % modulus() == 0);
            while c < self.cols
                invariant
                    self.wf(),
                    self.cols == v@.len(),
                    r < self.rows,
                    c <= self.cols,
                    acc@ == row_dot(self@, r as int, v@, c as nat) % modulus(),
                decreases self.cols - c,
            {
                let prod = fe_mul(&self.entry(r, c), &v.data[c]);
                acc = fe_add(&acc, &prod);
                proof {
                    lemma_add_mod_noop(
                        row_dot(self@, r as int, v@, c as nat),
                        self@.at(r as int, c as int) * v@[c as int],
                        modulus(),
                    );
                }
                c = c + 1;
            }
            out.push(acc);
            r = r + 1;
        }
        let res = VecF { data: out };
        assert(res@ =~= mat_vec(self@, v@));
        res
    }

    /// The Kronecker product `self ⊗ other`.
    pub fn kronecker_product(&self, other: &Self) -> (r: MatF)
        requires
            self.wf(),
            other.wf(),
            self.rows * other.rows <= usize::MAX,
            self.cols * other.cols <= usize::MAX,
            self.rows * other.rows * (self.cols * other.cols) <= usize::MAX,
        ensures
            r.wf(),
            r@ == mat_kron(self@, other@),
    {
        let data = dense_kronecker(&self.data, &other.data);
        let r = MatF { rows: self.rows * other.rows, cols: self.cols * other.cols, data };
        assert(dense_view(self.data) == self@);
        assert(dense_view(other.data) == other@);
        r
    }

    /// The inverse of a diagonal matrix: `None` unless it is square with no
    /// zero on its diagonal. Off-diagonal entries are taken to be zero.
    pub fn inverse_diagonal(&self) -> (r: Option<MatF>)
        requires
            self.wf(),
        ensures
            r.is_some() == diag_invertible(self@),
            r matches Some(m) ==> {
                &&& m.wf()
                &&& m@ == mat_diag_inverse(self@)
                &&& forall|i: int|
                    0 <= i < self.rows ==> 0 <= inv_of(self@.at(i, i)) < modulus() && (#[trigger] inv_of(
                        self@.at(i, i),
                    ) * self@.at(i, i)) % modulus() == 1
            },
    {
        if self.rows != self.cols {
            return None;
        }
        let n = self.rows;
        let dims = dense_dims(&self.data);
        let len = dims.0 * dims.1;
        let mut invs: Vec<Fe> = Vec::new();
        let mut i: usize = 0;
        while i < n
            invariant
                self.wf(),
                n == self.rows == self.cols,
                len == n * n,
                i <= n,
                invs@.len() == i,
                forall|k: int| 0 <= k < i ==> #[trigger] self@.at(k, k) != 0,
                forall|k: int| 0 <= k < i ==> (#[trigger] invs@[k])@ == inv_of(self@.at(k, k)),
                forall|k: int|
                    0 <= k < i ==> (#[trigger] inv_of(self@.at(k, k)) * self@.at(k, k)) % modulus() == 1,
            decreases n - i,
        {
            let d = self.entry(i, i);
            let found = fe_inverse(&d);
            if found.is_none() {
                return None;
            }
            let x = found.unwrap();
            proof {
                assert(found.is_some());
                assert(d@ != 0);
                crate::field::lemma_fe_range(x);
                lemma_inverse_unique(self@.at(i as int, i as int), x@);
            }
            let ghost before = invs@;
            invs.push(x);
            proof {
                assert forall|k: int| 0 <= k < i + 1 implies (#[trigger] invs@[k])@ == inv_of(self@.at(k, k)) by {
                    if k < i {
                        assert(invs@[k] == before[k]);
                    }
                }
            }
            i = i + 1;
        }
        let mut data: Vec<Fe> = Vec::new();
        let mut k: usize = 0;
        let ghost spec_r = mat_diag_inverse(self@);
        while k < len
            invariant
                self.wf(),
                n == self.rows == self.cols,
                len == n * n,
                spec_r == mat_diag_inverse(self@),
                invs@.len() == n,
                forall|x: int| 0 <= x < n ==> (#[trigger] invs@[x])@ == inv_of(self@.at(x, x)),
                k <= len,
                data@.len() == k,
                forall|x: int| 0 <= x < k ==> (#[trigger] data@[x])@ == spec_r.entries[x],
            decreases len - k,
        {
            proof {
                assert(n > 0) by (nonlinear_arith)
                    requires
                        k < len,
                        len == n * n,
                ;
                lemma_split_index(k as int, n as int, n as int);
            }
            if k / n == k % n {
                data.push(invs[k / n]);
            } else {
                data.push(Fe::zero());
            }
            k = k + 1;
        }
        let r = MatF::new(n, n, data);
        assert(r@.entries =~= spec_r.entries);
        proof {
            assert forall|i: int| 0 <= i < self.rows implies 0 <= #[trigger] inv_of(self@.at(i, i)) < modulus()
                && self@.at(i, i) != 0 && (inv_of(self@.at(i, i)) * self@.at(i, i)) % modulus() == 1 by {
                crate::field::lemma_fe_range(invs@[i]);
            }
            assert forall|i: int| 0 <= i < self.rows implies #[trigger] self@.at(i, i) != 0 by {
                assert(invs@[i]@ == inv_of(self@.at(i, i)));
            }
        }
        Some(r)
    }

    pub fn transpose(&self) -> (r: MatF)
        requires
            self.wf(),
        ensures
            r.wf(),
            r@ == mat_transpose(self@),
    {
        assert(dense_view(self.data) == self@);
        let data = dense_transpose(&self.data);
        proof {
            assert(self.rows * self.cols == self.cols * self.rows) by (nonlinear_arith);
        }
        MatF { rows: self.cols, cols: self.rows, data }
    }
}

} // verus!
