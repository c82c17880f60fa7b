//! The commitment engine: parameters, the commitment `t`, the tag `u`, the
//! per-round openings `s_j`, and the re-derivation check that opens them.
use crate::error::ProtocolError;
use crate::field::{inv_of, modulus, pow2_mod, Fe};
use vstd::arithmetic::div_mod::{lemma_mul_mod_noop_left, lemma_mul_mod_noop_right, lemma_small_mod};
use crate::gadget::{gadget_decompose, gadget_decompose_digits, gadget_matrix, mat_gadget, spec_gadget_decompose};
use crate::linalg::{
    lemma_join_index, lemma_split_index, mat_identity, mat_kron, mat_vec, resize_to, resized, slice_vec, MatF, RingMat, VecF,
};
use vstd::prelude::*;

verus! {

/// The fixed width of the published commitment and tag.
pub const DIGEST_LEN: usize = 4;

/// Configuration fixed before a run. `r_vals` holds one digit width per round
/// and `betas` one norm bound per round; rounds consume both from the back.
pub struct CommitmentParams {
    pub q: Fe,
    pub a: MatF,
    pub r_vals: Vec<usize>,
    pub ell: usize,
    pub betas: Vec<Fe>,
    pub kappa: usize,
    pub tau: usize,
    pub n: usize,
}

/// The parameters as values.
pub struct ParamsView {
    pub a: RingMat,
    pub r_vals: Seq<usize>,
    pub ell: usize,
    pub betas: Seq<int>,
    pub kappa: usize,
    pub tau: usize,
    pub n: usize,
}

impl View for CommitmentParams {
    type V = ParamsView;

    open spec fn view(&self) -> ParamsView {
        ParamsView {
            a: self.a@,
            r_vals: self.r_vals@,
            ell: self.ell,
            betas: self.betas@.map_values(|b: Fe| b@),
            kappa: self.kappa,
            tau: self.tau,
            n: self.n,
        }
    }
}

impl CommitmentParams {
    /// The invariant of the parameters: one width and one bound per round,
    /// positive widths and lane count, and every matrix that the protocol
    /// builds small enough to be indexed.
    pub open spec fn wf(&self) -> bool {
        &&& self.ell == self.r_vals@.len()
        &&& self.ell == self.betas@.len()
        &&& self.a.wf()
        &&& self.kappa > 0
        &&& forall|i: int| 0 <= i < self.r_vals@.len() ==> #[trigger] self.r_vals@[i] > 0
        &&& self.dims_fit()
    }

    pub open spec fn dims_fit(&self) -> bool {
        let w = self.kappa * self.n;
        let big = self.kappa * w;
        &&& big * big <= usize::MAX
        &&& self.kappa * self.kappa <= usize::MAX
        &&& self.kappa * 4 <= usize::MAX
        &&& self.n * self.n <= usize::MAX
        &&& self.n * self.a.rows <= usize::MAX
        &&& self.n * self.a.cols <= usize::MAX
        &&& self.n * self.a.rows * (self.n * self.a.cols) <= usize::MAX
        &&& forall|i: int|
            0 <= i < self.r_vals@.len() ==> #[trigger] (self.kappa * self.r_vals@[i]) * (self.kappa
                * self.r_vals@[i]) <= usize::MAX
    }

    /// The digit width `m = kappa * n` of the committed vector.
    pub open spec fn width(&self) -> nat {
        (self.kappa * self.n) as nat
    }
}

/// `x * y` fits in a `usize`.
fn product_fits(x: usize, y: usize) -> (r: bool)
    ensures
        r == (x * y <= usize::MAX),
{
    x.checked_mul(y).is_some()
}

/// `(x * y) * (x * y)` fits in a `usize`.
fn square_of_product_fits(x: usize, y: usize) -> (r: bool)
    ensures
        r == (x * y <= usize::MAX && (x * y) * (x * y) <= usize::MAX),
{
    match x.checked_mul(y) {
        None => false,
        Some(p) => product_fits(p, p),
    }
}

impl CommitmentParams {
    /// Tests the invariant `wf`: callers outside verified code check their
    /// parameters with this before running the protocol.
    pub fn is_well_formed(&self) -> (r: bool)
        ensures
            r == self.wf(),
    {
        if self.ell != self.r_vals.len() || self.ell != self.betas.len() || self.kappa == 0 {
            return false;
        }
        let dims = crate::dense::dense_dims(&self.a.data);
        if dims.0 != self.a.rows || dims.1 != self.a.cols {
            return false;
        }
        let w = match self.kappa.checked_mul(self.n) {
            Some(w) => w,
            None => {
                proof {
                    assert(self.kappa * self.n <= self.kappa * (self.kappa * self.n)) by (nonlinear_arith)
                        requires
                            self.kappa >= 1,
                    ;
                    assert(self.kappa * self.n <= (self.kappa * (self.kappa * self.n)) * (self.kappa * (
                    self.kappa * self.n))) by (nonlinear_arith)
                        requires
                            self.kappa * self.n <= self.kappa * (self.kappa * self.n),
                    ;
                }
                return false;
            },
        };
        if !square_of_product_fits(self.kappa, w) || !product_fits(self.kappa, self.kappa) || !product_fits(
            self.kappa,
            4,
        ) || !product_fits(self.n, self.n) || !product_fits(self.n, self.a.rows) || !product_fits(
            self.n,
            self.a.cols,
        ) || !product_fits(self.n * self.a.rows, self.n * self.a.cols) {
            proof {
                let big = self.kappa * w;
                if big > usize::MAX {
                    assert(big * big > usize::MAX) by (nonlinear_arith)
                        requires
                            big > usize::MAX,
                    ;
                }
            }
            return false;
        }
        let mut i: usize = 0;
        while i < self.r_vals.len()
            invariant
                i <= self.r_vals@.len(),
                forall|k: int|
                    0 <= k < i ==> #[trigger] self.r_vals@[k] > 0 && (self.kappa * self.r_vals@[k]) * (self.kappa
                        * self.r_vals@[k]) <= usize::MAX,
            decreases self.r_vals@.len() - i,
        {
            if self.r_vals[i] == 0 || !square_of_product_fits(self.kappa, self.r_vals[i]) {
                proof {
                    let k = i as int;
                    if self.r_vals@[k] > 0 {
                        assert((self.kappa * self.r_vals@[k]) * (self.kappa * self.r_vals@[k]) > usize::MAX) by (
                        nonlinear_arith)
                            requires
                                self.kappa * self.r_vals@[k] > usize::MAX || (self.kappa * self.r_vals@[k]) * (
                                self.kappa * self.r_vals@[k]) > usize::MAX,
                        ;
                        assert(!self.dims_fit());
                    }
                }
                return false;
            }
            i = i + 1;
        }
        true
    }
}

/// The products that the size bounds imply.
pub proof fn lemma_dims(p: &CommitmentParams)
    requires
        p.wf(),
    ensures
        p.kappa * p.n <= p.kappa * (p.kappa * p.n),
        (p.kappa * p.n) * (p.kappa * p.n) <= usize::MAX,
        p.kappa * (p.kappa * p.n) <= usize::MAX,
{
    let w = p.kappa * p.n;
    let big = p.kappa * w;
    assert(w <= big) by (nonlinear_arith)
        requires
            p.kappa >= 1,
            w >= 0,
            big == p.kappa * w,
    ;
    assert(w * w <= big * big) by (nonlinear_arith)
        requires
            0 <= w <= big,
    ;
    assert(big <= big * big || big == 0) by (nonlinear_arith)
        requires
            big >= 0,
    ;
}

/// `s` cut to at most `n` entries.
pub open spec fn truncated(s: Seq<int>, n: nat) -> Seq<int> {
    if s.len() > n {
        s.take(n as int)
    } else {
        s
    }
}

/// What a vector-valued step yields, seen as values.
pub open spec fn result_view(r: Result<VecF, ProtocolError>) -> Result<Seq<int>, ProtocolError> {
    match r {
        Ok(v) => Ok(v@),
        Err(e) => Err(e),
    }
}

/// The commitment map `I_n ⊗ A` does not take vectors of the digit width.
pub open spec fn commit_dims_mismatch(p: &CommitmentParams) -> bool {
    p.n * p.a.cols != p.width()
}

/// `t = (I_{m/kappa} ⊗ A) · G_m^{-1}(f)` with `m = kappa * n` (so `m/kappa = n`),
/// before truncation.
pub open spec fn spec_compute_t(p: &CommitmentParams, f: Seq<int>) -> Result<Seq<int>, ProtocolError> {
    if commit_dims_mismatch(p) {
        Err(ProtocolError::DimensionMismatch)
    } else {
        match spec_gadget_decompose(f, p.width()) {
            None => Err(ProtocolError::NonBinaryDigit),
            Some(y) => Ok(mat_vec(mat_kron(mat_identity(p.n as nat), p.a@), y)),
        }
    }
}

/// The diagonal expansion `I_kappa ⊗ X` with `X = G_{kappa*n}`.
pub open spec fn spec_expansion(p: &CommitmentParams) -> RingMat {
    mat_kron(mat_identity(p.kappa as nat), mat_gadget(p.width()))
}

/// `s_j`: `f` resized to the expansion's columns and expanded; then each of the
/// `kappa` blocks of width `kappa * n` is divided coordinate-wise by `2^i`
/// (`i` the position within the block); the result is cut to `4 * kappa` entries.
pub open spec fn spec_compute_s(p: &CommitmentParams, f: Seq<int>) -> Seq<int> {
    let w = p.width();
    let big = (p.kappa * w) as nat;
    let enc = mat_vec(spec_expansion(p), resized(f, big));
    let dec = Seq::new(big, |k: int| (inv_of(pow2_mod((k % w as int) as nat)) * enc[k]) % modulus());
    truncated(dec, (p.kappa * 4) as nat)
}

/// Computes the commitment `t` of `f`, before truncation. Fails with
/// `DimensionMismatch` when `n * A.cols != kappa * n`, else with
/// `NonBinaryDigit` when `f` does not decompose into binary digits.
pub fn compute_t(params: &CommitmentParams, f: &VecF) -> (r: Result<VecF, ProtocolError>)
    requires
        params.wf(),
    ensures
        result_view(r) == spec_compute_t(params, f@),
{
    proof {
        lemma_dims(params);
    }
    let m = params.kappa * params.n;
    let lanes = MatF::identity(params.n);
    let expanded = lanes.kronecker_product(&params.a);
    if expanded.cols != m {
        return Err(ProtocolError::DimensionMismatch);
    }
    match gadget_decompose(f, m) {
        Err(e) => Err(e),
        Ok(y) => Ok(expanded.custom_mul_vec(&y)),
    }
}

/// Computes the tag `u` of `f`: the same map as `compute_t`, recomputed for
/// the tag channel.
pub fn compute_u(params: &CommitmentParams, f: &VecF) -> (r: Result<VecF, ProtocolError>)
    requires
        params.wf(),
    ensures
        result_view(r) == spec_compute_t(params, f@),
{
    compute_t(params, f)
}

/// Cuts `v` to at most `n` entries.
pub fn truncate_vec(v: &VecF, n: usize) -> (r: VecF)
    ensures
        r@ == truncated(v@, n as nat),
{
    if v.len() > n {
        let r = VecF { data: slice_vec(&v.data, 0, n) };
        assert(r@ =~= truncated(v@, n as nat));
        r
    } else {
        v.clone()
    }
}

/// Computes the round opening `s_j` of `f` (the round index does not enter
/// the map).
pub fn compute_s_j(params: &CommitmentParams, f: &VecF, j: usize) -> (r: VecF)
    requires
        params.wf(),
    ensures
        r@ == spec_compute_s(params, f@),
{
    proof {
        lemma_dims(params);
    }
    let w = params.kappa * params.n;
    let x_li = gadget_matrix(w);
    let lanes = MatF::identity(params.kappa);
    proof {
        assert(params.kappa * w * (params.kappa * w) <= usize::MAX);
    }
    let expansion = lanes.kronecker_product(&x_li);
    let f_padded = resize_to(f, expansion.cols);
    let s_encoded = expansion.custom_mul_vec(&f_padded);
    let big = params.kappa * w;
    let ghost enc = s_encoded@;
    let ghost dec = Seq::new(
        big as nat,
        |k: int| (inv_of(pow2_mod((k % w as int) as nat)) * enc[k]) % modulus(),
    );
    assert(s_encoded.data@.len() == s_encoded@.len());
    assert(s_encoded.data@.len() == big);
    let mut decoded: Vec<Fe> = Vec::new();
    let mut block: usize = 0;
    while block < params.kappa
        invariant
            params.wf(),
            w == params.kappa * params.n,
            w * w <= usize::MAX,
            big == params.kappa * w,
            s_encoded@ == enc,
            s_encoded.data@.len() == big,
            enc.len() == big,
            dec == Seq::new(big as nat, |k: int| (inv_of(pow2_mod((k % w as int) as nat)) * enc[k]) % modulus()),
            block <= params.kappa,
            decoded@.len() == block * w,
            forall|k: int| 0 <= k < block * w ==> (#[trigger] decoded@[k])@ == dec[k],
        decreases params.kappa - block,
    {
        proof {
            assert((block + 1) * w <= big) by (nonlinear_arith)
                requires
                    block < params.kappa,
                    big == params.kappa * w,
            ;
            assert((block + 1) * w == block * w + w) by (nonlinear_arith);
        }
        let start = block * w;
        let end = start + w;
        let block_vec = VecF { data: slice_vec(&s_encoded.data, start, end) };
        let digits = gadget_decompose_digits(&block_vec, w);
        let ghost before = decoded@;
        let ghost dd = digits.data@;
        assert(dd.len() == digits@.len());
        let mut tail = digits.data;
        decoded.append(&mut tail);
        proof {
            assert forall|k: int| 0 <= k < (block + 1) * w implies (#[trigger] decoded@[k])@ == dec[k] by {
                if k >= block * w {
                    let i = k - block * w;
                    lemma_join_index(block as int, i, params.kappa as int, w as int);
                    assert(decoded@[k] == dd[i]);
                    assert(dd[i]@ == digits@[i]);
                    assert(block_vec@[i] == enc[k]);
                    assert(resized(block_vec@, w as nat)[i] == enc[k]);
                } else {
                    assert(decoded@[k] == before[k]);
                }
            }
        }
        block = block + 1;
    }
    let s_binary = VecF { data: decoded };
    assert(s_binary@ =~= dec);
    truncate_vec(&s_binary, params.kappa * 4)
}

/// The output of a commitment: the digest `t`, one opening per round, the
/// committed vector, and the tag `u`.
pub struct CommitOutput {
    pub t: VecF,
    pub s_arr: Vec<VecF>,
    pub f: VecF,
    pub u: VecF,
}

/// A commitment as values.
pub struct CommitView {
    pub t: Seq<int>,
    pub s_arr: Seq<Seq<int>>,
    pub f: Seq<int>,
    pub u: Seq<int>,
}

pub open spec fn vecs_view(v: Seq<VecF>) -> Seq<Seq<int>> {
    v.map_values(|x: VecF| x@)
}

impl View for CommitOutput {
    type V = CommitView;

    open spec fn view(&self) -> CommitView {
        CommitView { t: self.t@, s_arr: vecs_view(self.s_arr@), f: self.f@, u: self.u@ }
    }
}

/// `commit(params, f)`: `t` and `u` cut to the digest width, one opening per
/// round, and `f` itself; it fails exactly where `compute_t` fails.
pub open spec fn spec_commit(p: &CommitmentParams, f: Seq<int>) -> Result<CommitView, ProtocolError> {
    match spec_compute_t(p, f) {
        Err(e) => Err(e),
        Ok(t) => Ok(
            CommitView {
                t: truncated(t, DIGEST_LEN as nat),
                s_arr: Seq::new(p.ell as nat, |j: int| spec_compute_s(p, f)),
                f,
                u: truncated(t, DIGEST_LEN as nat),
            },
        ),
    }
}

/// The opening check: structural failure when the commitment map cannot take
/// the digit width; otherwise acceptance exactly when `f` decomposes into
/// binary digits, `t` is its digest, and each stored opening equals the
/// recomputed one cut to the stored length.
pub open spec fn spec_open_base(p: &CommitmentParams, c: CommitView) -> Result<bool, ProtocolError> {
    if commit_dims_mismatch(p) {
        Err(ProtocolError::DimensionMismatch)
    } else {
        Ok(
            match spec_compute_t(p, c.f) {
                Ok(t) => truncated(t, DIGEST_LEN as nat) == c.t && forall|j: int|
                    0 <= j < c.s_arr.len() ==> truncated(spec_compute_s(p, c.f), c.s_arr[j].len())
                        == #[trigger] c.s_arr[j],
                Err(_) => false,
            },
        )
    }
}

/// Commits to `f`: computes `t` and `u` (each cut to the digest width) and the
/// opening `s_j` of every round.
pub fn commit_section4(params: &CommitmentParams, f: &VecF) -> (r: Result<CommitOutput, ProtocolError>)
    requires
        params.wf(),
    ensures
        match r {
            Ok(c) => spec_commit(params, f@) == Ok::<CommitView, ProtocolError>(c@),
            Err(e) => spec_commit(params, f@) == Err::<CommitView, ProtocolError>(e),
        },
{
    let t_full = match compute_t(params, f) {
        Ok(t) => t,
        Err(e) => {
            return Err(e);
        },
    };
    let t = truncate_vec(&t_full, DIGEST_LEN);
    let u_full = match compute_u(params, f) {
        Ok(u) => u,
        Err(e) => {
            return Err(e);
        },
    };
    let u = truncate_vec(&u_full, DIGEST_LEN);
    let mut s_arr: Vec<VecF> = Vec::new();
    let mut j: usize = 0;
    while j < params.ell
        invariant
            params.wf(),
            j <= params.ell,
            s_arr@.len() == j,
            forall|k: int| 0 <= k < j ==> (#[trigger] s_arr@[k])@ == spec_compute_s(params, f@),
        decreases params.ell - j,
    {
        s_arr.push(compute_s_j(params, f, j));
        j = j + 1;
    }
    let c = CommitOutput { t, s_arr, f: f.clone(), u };
    proof {
        let spec_c = spec_commit(params, f@)->Ok_0;
        assert(c@.s_arr =~= spec_c.s_arr);
    }
    Ok(c)
}

/// Re-derives `t` and every opening from `comm.f` and compares them with the
/// stored values. A mismatch, or an `f` that does not decompose into binary
/// digits, is a rejection (`Ok(false)`); only unusable parameters are an error.
pub fn open_section4(params: &CommitmentParams, comm: &CommitOutput) -> (r: Result<bool, ProtocolError>)
    requires
        params.wf(),
    ensures
        r == spec_open_base(params, comm@),
{
    let t_full = match compute_t(params, &comm.f) {
        Ok(t) => t,
        Err(ProtocolError::DimensionMismatch) => {
            return Err(ProtocolError::DimensionMismatch);
        },
        Err(_) => {
            return Ok(false);
        },
    };
    let t_check = truncate_vec(&t_full, DIGEST_LEN);
    if t_check != comm.t {
        return Ok(false);
    }
    let mut j: usize = 0;
    while j < comm.s_arr.len()
        invariant
            params.wf(),
            !commit_dims_mismatch(params),
            spec_compute_t(params, comm@.f) is Ok,
            j <= comm.s_arr@.len(),
            forall|k: int|
                0 <= k < j ==> truncated(spec_compute_s(params, comm@.f), comm@.s_arr[k].len())
                    == #[trigger] comm@.s_arr[k],
        decreases comm.s_arr@.len() - j,
    {
        let sj_full = compute_s_j(params, &comm.f, j);
        let sj_check = truncate_vec(&sj_full, comm.s_arr[j].len());
        if sj_check != comm.s_arr[j] {
            assert(comm@.s_arr[j as int] == comm.s_arr@[j as int]@);
            return Ok(false);
        }
        j = j + 1;
    }
    Ok(true)
}

/// An honest commitment opens: for binary digits `b` of the digit width,
/// committing to `G · b` succeeds (given a commitment map of matching shape)
/// and the opening check accepts the result.
pub proof fn lemma_honest_commitment_opens(p: &CommitmentParams, b: Seq<int>)
    requires
        p.wf(),
        !commit_dims_mismatch(p),
        b.len() == p.width(),
        forall|i: int| 0 <= i < b.len() ==> #[trigger] b[i] == 0 || b[i] == 1,
    ensures
        spec_commit(p, mat_vec(mat_gadget(p.width()), b)) is Ok,
        spec_open_base(p, spec_commit(p, mat_vec(mat_gadget(p.width()), b))->Ok_0) == Ok::<bool, ProtocolError>(true),
{
    crate::gadget::lemma_gadget_round_trip(p.width(), b);
    let f = mat_vec(mat_gadget(p.width()), b);
    let c = spec_commit(p, f)->Ok_0;
    assert forall|j: int| 0 <= j < c.s_arr.len() implies truncated(spec_compute_s(p, c.f), c.s_arr[j].len())
        == #[trigger] c.s_arr[j] by {
        assert(c.s_arr[j] == spec_compute_s(p, f));
    }
}

/// Altering one entry of the digest `t` of a commitment makes the opening
/// check reject.
pub proof fn lemma_altered_digest_rejected(p: &CommitmentParams, f: Seq<int>, k: int, x: int)
    requires
        p.wf(),
        spec_commit(p, f) is Ok,
        0 <= k < spec_commit(p, f)->Ok_0.t.len(),
        x != spec_commit(p, f)->Ok_0.t[k],
    ensures
        spec_open_base(p, CommitView { t: spec_commit(p, f)->Ok_0.t.update(k, x), ..spec_commit(p, f)->Ok_0 })
            == Ok::<bool, ProtocolError>(false),
{
    let c = spec_commit(p, f)->Ok_0;
    assert(c.t.update(k, x)[k] != c.t[k]);
}

/// Altering one entry of a stored opening `s_j` of a commitment makes the
/// opening check reject.
pub proof fn lemma_altered_opening_rejected(p: &CommitmentParams, f: Seq<int>, j: int, k: int, x: int)
    requires
        p.wf(),
        spec_commit(p, f) is Ok,
        0 <= j < spec_commit(p, f)->Ok_0.s_arr.len(),
        0 <= k < spec_commit(p, f)->Ok_0.s_arr[j].len(),
        x != spec_commit(p, f)->Ok_0.s_arr[j][k],
    ensures
        ({
            let c = spec_commit(p, f)->Ok_0;
            spec_open_base(p, CommitView { s_arr: c.s_arr.update(j, c.s_arr[j].update(k, x)), ..c })
                == Ok::<bool, ProtocolError>(false)
        }),
{
    let c = spec_commit(p, f)->Ok_0;
    let s2 = c.s_arr.update(j, c.s_arr[j].update(k, x));
    assert(s2[j][k] != c.s_arr[j][k]);
    assert(s2[j] != c.s_arr[j]);
    assert(c.f == f);
    assert(truncated(spec_compute_s(p, c.f), s2[j].len()) == c.s_arr[j]);
    assert(truncated(spec_compute_s(p, c.f), s2[j].len()) != s2[j]);
    let c2 = CommitView { s_arr: s2, ..c };
    assert(c2.s_arr[j] == s2[j]);
    assert(!commit_dims_mismatch(p));
    assert(!(forall|i: int|
        0 <= i < c2.s_arr.len() ==> truncated(spec_compute_s(p, c2.f), c2.s_arr[i].len()) == #[trigger] c2.s_arr[i]));
}

/// The expansion `I_kappa ⊗ G_w` is diagonal, with `2^(i mod w)` at position `i`.
proof fn lemma_expansion_entries(p: &CommitmentParams)
    requires
        p.kappa > 0,
        p.width() > 0,
    ensures
        spec_expansion(p).wf(),
        spec_expansion(p).rows == p.kappa * p.width(),
        spec_expansion(p).cols == p.kappa * p.width(),
        forall|i: int, j: int|
            0 <= i < p.kappa * p.width() && 0 <= j < p.kappa * p.width() ==> #[trigger] spec_expansion(p).at(i, j)
                == if i == j {
                pow2_mod((i % p.width() as int) as nat)
            } else {
                0
            },
{
    let w = p.width() as int;
    let kp = p.kappa as int;
    let e = spec_expansion(p);
    let id = mat_identity(p.kappa as nat);
    let g = mat_gadget(p.width());
    assert forall|i: int, j: int| 0 <= i < kp * w && 0 <= j < kp * w implies #[trigger] e.at(i, j) == if i == j {
        pow2_mod((i % w) as nat)
    } else {
        0
    } by {
        lemma_join_index(i, j, kp * w, kp * w);
        lemma_split_index(i, kp, w);
        lemma_split_index(j, kp, w);
        lemma_join_index(i / w, j / w, kp, kp);
        lemma_join_index(i % w, j % w, w, w);
        crate::gadget::lemma_gadget_entries(p.width());
        assert(e.at(i, j) == (id.at(i / w, j / w) * g.at(i % w, j % w)) % modulus());
        crate::field::lemma_pow2_nonzero((i % w) as nat);
        lemma_small_mod(pow2_mod((i % w) as nat) as nat, modulus() as nat);
        lemma_small_mod(0, modulus() as nat);
        if i == j {
            assert(id.at(i / w, j / w) == 1);
        } else if i / w != j / w {
            assert(id.at(i / w, j / w) == 0);
        } else {
            assert(i % w != j % w);
            assert(g.at(i % w, j % w) == 0);
        }
    }
}

/// The first `min(kappa * n, 4 * kappa)` entries of an opening repeat the
/// committed vector: the expansion multiplies entry `k` by `2^k` and the
/// decomposition divides it back.
pub proof fn lemma_opening_prefix(p: &CommitmentParams, g: Seq<int>, k: int)
    requires
        p.wf(),
        g.len() == p.width(),
        0 <= k < p.width(),
        k < 4 * p.kappa,
        0 <= g[k] < modulus(),
    ensures
        spec_compute_s(p, g).len() == if p.kappa * p.width() > p.kappa * 4 {
            p.kappa * 4
        } else {
            p.kappa * p.width()
        },
        spec_compute_s(p, g)[k] == g[k],
{
    let w = p.width();
    let big = (p.kappa * w) as nat;
    lemma_expansion_entries(p);
    let e = spec_expansion(p);
    let rg = resized(g, big);
    let d = Seq::new(big, |i: int| pow2_mod((i % w as int) as nat));
    crate::gadget::lemma_mat_vec_diagonal(e, rg, d);
    let enc = mat_vec(e, rg);
    lemma_small_mod(k as nat, w);
    assert(k < big) by (nonlinear_arith)
        requires
            k < w,
            p.kappa >= 1,
            big == p.kappa * w,
    ;
    assert(rg[k] == g[k]);
    assert(enc[k] == (pow2_mod(k as nat) * g[k]) % modulus());
    crate::field::lemma_pow2_invertible(k as nat);
    let x = inv_of(pow2_mod(k as nat));
    let m = modulus();
    lemma_mul_mod_noop_right(x, pow2_mod(k as nat) * g[k], m);
    assert(x * (pow2_mod(k as nat) * g[k]) == (x * pow2_mod(k as nat)) * g[k]) by (nonlinear_arith);
    lemma_mul_mod_noop_left(x * pow2_mod(k as nat), g[k], m);
    lemma_small_mod(g[k] as nat, m as nat);
}

/// Altering one of the first `min(kappa * n, 4 * kappa)` entries of the
/// committed vector of a commitment to a vector of the digit width makes the
/// opening check reject, given at least one round.
pub proof fn lemma_altered_vector_rejected(p: &CommitmentParams, f: Seq<int>, k: int, x: int)
    requires
        p.wf(),
        p.ell > 0,
        spec_commit(p, f) is Ok,
        f.len() == p.width(),
        forall|i: int| 0 <= i < f.len() ==> 0 <= #[trigger] f[i] < modulus(),
        0 <= k < p.width(),
        k < 4 * p.kappa,
        0 <= x < modulus(),
        x != f[k],
    ensures
        spec_open_base(p, CommitView { f: f.update(k, x), ..spec_commit(p, f)->Ok_0 }) == Ok::<bool, ProtocolError>(
            false,
        ),
{
    let c = spec_commit(p, f)->Ok_0;
    let f2 = f.update(k, x);
    let c2 = CommitView { f: f2, ..c };
    assert(!commit_dims_mismatch(p));
    if spec_compute_t(p, f2) is Ok {
        lemma_opening_prefix(p, f, k);
        lemma_opening_prefix(p, f2, k);
        assert(c2.s_arr[0] == spec_compute_s(p, f));
        assert(truncated(spec_compute_s(p, f2), c2.s_arr[0].len()) == spec_compute_s(p, f2));
        assert(spec_compute_s(p, f2) != spec_compute_s(p, f));
        assert(!(forall|j: int|
            0 <= j < c2.s_arr.len() ==> truncated(spec_compute_s(p, c2.f), c2.s_arr[j].len()) == #[trigger] c2.s_arr[j]));
    }
}

} // verus!
