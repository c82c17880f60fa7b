//! The folding protocol: each round the prover sends a message, the verifier
//! runs the consistency and norm checks against the current instance under a
//! challenge, and both sides advance to the next instance and witness.
use crate::commitment::{
    open_section4, spec_expansion, spec_open_base, vecs_view, CommitOutput, CommitView, CommitmentParams, DIGEST_LEN,
};
use crate::error::ProtocolError;
use crate::field::{fe_add, fe_gt, fe_random, modulus, Fe};
use crate::gadget::{gadget_matrix, mat_gadget};
use crate::linalg::{
    lemma_join_index, mat_column, mat_identity, mat_kron, mat_transpose, mat_vec, max_entry, resize_to,
    resized, slice_vec, vmul, MatF, RingMat, VecF,
};
use vstd::prelude::*;

verus! {

/// The public statement of a round.
pub struct Instance {
    pub a: MatF,
    pub t_i: VecF,
    pub u_i: VecF,
}

/// The prover's secret for a round: the per-round openings and the running vector.
pub struct Witness {
    pub s_j: Vec<VecF>,
    pub f: VecF,
}

/// A verifier challenge.
pub struct Challenge {
    pub data: VecF,
}

pub struct InstanceView {
    pub a: RingMat,
    pub t: Seq<int>,
    pub u: Seq<int>,
}

pub struct WitnessView {
    pub s: Seq<Seq<int>>,
    pub f: Seq<int>,
}

impl View for Instance {
    type V = InstanceView;

    open spec fn view(&self) -> InstanceView {
        InstanceView { a: self.a@, t: self.t_i@, u: self.u_i@ }
    }
}

impl View for Witness {
    type V = WitnessView;

    open spec fn view(&self) -> WitnessView {
        WitnessView { s: vecs_view(self.s_j@), f: self.f@ }
    }
}

/// The position in `r_vals` and `betas` that round `i` reads: rounds run from
/// the back.
pub open spec fn round_slot(p: &CommitmentParams, i: nat) -> int {
    p.ell - i - 1
}

/// The length `kappa * r_i` of the first part of round `i`'s message, which is
/// also the length of its challenge.
pub open spec fn round_len(p: &CommitmentParams, i: nat) -> nat {
    (p.kappa * p.r_vals@[round_slot(p, i)]) as nat
}

/// The prover's message: the first opening followed by the running vector.
pub open spec fn spec_prover(w: WitnessView) -> Result<Seq<int>, ProtocolError> {
    if w.s.len() == 0 {
        Err(ProtocolError::DimensionMismatch)
    } else {
        Ok(w.s[0] + w.f)
    }
}

/// The structural failures of round `i`'s check, in the order they are met.
pub open spec fn verifier_failure(p: &CommitmentParams, x: InstanceView, z: Seq<int>, c: Seq<int>, i: nat) -> Option<
    ProtocolError,
> {
    if i >= p.ell {
        Some(ProtocolError::RoundOutOfRange)
    } else if z.len() < round_len(p, i) || c.len() != round_len(p, i) || x.t.len() < DIGEST_LEN {
        Some(ProtocolError::DimensionMismatch)
    } else {
        None
    }
}

/// Check b0: `c ⊙ (G · y)` equals the first digest entries of `t`.
pub open spec fn check_b0(x: InstanceView, y: Seq<int>, c: Seq<int>) -> bool {
    vmul(mat_vec(mat_gadget(y.len()), y), c) == x.t.take(DIGEST_LEN as int)
}

/// Check b1: `(I_kappa ⊗ X) · v`, with `v` resized to the expansion's columns,
/// equals the tag `u`.
pub open spec fn check_b1(p: &CommitmentParams, x: InstanceView, v: Seq<int>) -> bool {
    let e = spec_expansion(p);
    mat_vec(e, resized(v, e.cols)) == x.u
}

/// Check b2: both parts of the message have norm at most `beta + 1` (computed
/// in the field).
pub open spec fn check_b2(p: &CommitmentParams, y: Seq<int>, v: Seq<int>, i: nat) -> bool {
    let bound = (p.betas@[round_slot(p, i)]@ + 1) % modulus();
    max_entry(y) <= bound && max_entry(v) <= bound
}

/// Round `i`'s verdict on message `z` under challenge `c`: a structural error,
/// or whether all three checks hold on `y = z[..kappa*r_i]` and `v` the rest.
pub open spec fn spec_verifier(p: &CommitmentParams, x: InstanceView, z: Seq<int>, c: Seq<int>, i: nat) -> Result<
    bool,
    ProtocolError,
> {
    match verifier_failure(p, x, z, c, i) {
        Some(e) => Err(e),
        None => {
            let y = z.take(round_len(p, i) as int);
            let v = z.skip(round_len(p, i) as int);
            Ok(check_b0(x, y, c) && check_b1(p, x, v) && check_b2(p, y, v, i))
        },
    }
}

/// The prover's message of a round: the first per-round opening followed by
/// the running vector `f`. Fails when the witness holds no opening.
pub fn prover_round_i(params: &CommitmentParams, x_i: &Instance, w_i: &Witness, i: usize) -> (r: Result<
    VecF,
    ProtocolError,
>)
    ensures
        match r {
            Ok(z) => spec_prover(w_i@) == Ok::<Seq<int>, ProtocolError>(z@),
            Err(e) => spec_prover(w_i@) == Err::<Seq<int>, ProtocolError>(e),
        },
{
    if w_i.s_j.len() == 0 {
        return Err(ProtocolError::DimensionMismatch);
    }
    let mut data = w_i.s_j[0].data.clone();
    let mut rest = w_i.f.data.clone();
    let ghost d0 = data@;
    let ghost r0 = rest@;
    assert(d0 =~= w_i.s_j@[0].data@);
    assert(r0 =~= w_i.f.data@);
    data.append(&mut rest);
    let z = VecF { data };
    assert(z@ =~= w_i@.s[0] + w_i@.f);
    Ok(z)
}

/// The round's diagonal expansion matrix `X = G_{kappa*n}` (the round index
/// does not enter it).
pub fn generate_xj(j: usize, kappa: usize, n: usize) -> (r: MatF)
    requires
        kappa * n <= usize::MAX,
        (kappa * n) * (kappa * n) <= usize::MAX,
    ensures
        r.wf(),
        r@ == mat_gadget((kappa * n) as nat),
{
    gadget_matrix(kappa * n)
}

/// The verifier's check of round `i` on message `z_i` under challenge `c_i`.
/// Structural problems (a round beyond the parameters, a message shorter than
/// `kappa * r_i`, a challenge of another length, a digest shorter than its
/// width) are errors; otherwise the result says whether b0, b1 and b2 all hold.
pub fn verifier_round_i(params: &CommitmentParams, x_i: &Instance, z_i: &VecF, c_i: &Challenge, i: usize) -> (r:
    Result<bool, ProtocolError>)
    requires
        params.wf(),
    ensures
        r == spec_verifier(params, x_i@, z_i@, c_i.data@, i as nat),
{
    if i >= params.ell {
        return Err(ProtocolError::RoundOutOfRange);
    }
    let slot = params.ell - i - 1;
    let r_i = params.r_vals[slot];
    proof {
        assert((params.kappa * params.r_vals@[slot as int]) * (params.kappa * params.r_vals@[slot as int]) <= usize::MAX);
        assert(params.kappa * r_i <= usize::MAX) by (nonlinear_arith)
            requires
                (params.kappa * r_i) * (params.kappa * r_i) <= usize::MAX,
                params.kappa > 0,
                r_i > 0,
        ;
    }
    let y_len = params.kappa * r_i;
    if z_i.len() < y_len || c_i.data.len() != y_len || x_i.t_i.len() < DIGEST_LEN {
        return Err(ProtocolError::DimensionMismatch);
    }
    let y_i = VecF { data: slice_vec(&z_i.data, 0, y_len) };
    let v_i = VecF { data: slice_vec(&z_i.data, y_len, z_i.data.len()) };
    assert(y_i@ =~= z_i@.take(y_len as int));
    assert(v_i@ =~= z_i@.skip(y_len as int));
    // b0
    let g = gadget_matrix(y_i.len());
    let g_y_i = g.custom_mul_vec(&y_i);
    let t_check = g_y_i.mul(&c_i.data);
    let t_expected = VecF { data: slice_vec(&x_i.t_i.data, 0, DIGEST_LEN) };
    assert(t_expected@ =~= x_i@.t.take(DIGEST_LEN as int));
    if t_check != t_expected {
        return Ok(false);
    }
    // b1
    proof {
        crate::commitment::lemma_dims(params);
    }
    let x_li = generate_xj(slot, params.kappa, params.n);
    let i_kappa = MatF::identity(params.kappa);
    let expansion = i_kappa.kronecker_product(&x_li);
    let v_i_padded = resize_to(&v_i, expansion.cols);
    let u_check = expansion.custom_mul_vec(&v_i_padded);
    if u_check != x_i.u_i {
        return Ok(false);
    }
    // b2
    let bound = fe_add(&params.betas[slot], &Fe::one());
    let y_norm = y_i.norm();
    let v_norm = v_i.norm();
    if fe_gt(&y_norm, &bound) || fe_gt(&v_norm, &bound) {
        return Ok(false);
    }
    Ok(true)
}

/// `v` with its first `kappa` blocks of `c.len()` entries each multiplied
/// entry-wise by `c`, and zeros after them.
pub open spec fn spec_blockwise(c: Seq<int>, v: Seq<int>, kappa: nat) -> Seq<int> {
    Seq::new(
        v.len(),
        |k: int| if k < kappa * c.len() { (c[k % c.len() as int] * v[k]) % modulus() } else { 0int },
    )
}

/// The structural failures of advancing the instance after round `i`.
pub open spec fn next_instance_failure(p: &CommitmentParams, z: Seq<int>, c: Seq<int>, i: nat) -> Option<
    ProtocolError,
> {
    if i >= p.ell {
        Some(ProtocolError::RoundOutOfRange)
    } else if z.len() < round_len(p, i) || c.len() != round_len(p, i) || p.kappa * round_len(p, i) > z.len()
        - round_len(p, i) {
        Some(ProtocolError::DimensionMismatch)
    } else {
        None
    }
}

/// The next instance: `t' = c ⊙ (G · y)` and `u'` the blockwise product of `c`
/// with `v`, where `z = y ‖ v` is split at `kappa * r_i`.
pub open spec fn spec_next_instance(p: &CommitmentParams, x: InstanceView, z: Seq<int>, c: Seq<int>, i: nat) -> Result<
    InstanceView,
    ProtocolError,
> {
    match next_instance_failure(p, z, c, i) {
        Some(e) => Err(e),
        None => {
            let y = z.take(round_len(p, i) as int);
            let v = z.skip(round_len(p, i) as int);
            Ok(
                InstanceView {
                    a: x.a,
                    t: vmul(c, mat_vec(mat_gadget(y.len()), y)),
                    u: spec_blockwise(c, v, p.kappa as nat),
                },
            )
        },
    }
}

/// Whether an opening `s` can be folded with challenge `c`: the challenge
/// matrix `C_t` must have `s.len()` rows, and `C_t^T ⊗ I_kappa` as many
/// columns as `s` has entries (so `kappa` is one, or `s` is empty).
pub open spec fn opening_foldable(p: &CommitmentParams, s: Seq<int>, c: Seq<int>) -> bool {
    c.len() == s.len() && s.len() * p.kappa == s.len()
}

/// An opening folded with `c`: `(c^T ⊗ I_kappa) · s`.
pub open spec fn spec_fold_opening(p: &CommitmentParams, s: Seq<int>, c: Seq<int>) -> Seq<int> {
    mat_vec(mat_kron(mat_transpose(mat_column(c)), mat_identity(p.kappa as nat)), s)
}

/// The next witness: every opening folded with `c`, and `f` multiplied
/// blockwise by `c` in `kappa` blocks of `len(f) / kappa` entries.
pub open spec fn spec_next_witness(p: &CommitmentParams, w: WitnessView, c: Seq<int>) -> Result<
    WitnessView,
    ProtocolError,
> {
    if exists|j: int| 0 <= j < w.s.len() && !opening_foldable(p, #[trigger] w.s[j], c) {
        Err(ProtocolError::DimensionMismatch)
    } else if c.len() as int != w.f.len() as int / (p.kappa as int) {
        Err(ProtocolError::DimensionMismatch)
    } else {
        Ok(
            WitnessView {
                s: Seq::new(w.s.len(), |j: int| spec_fold_opening(p, w.s[j], c)),
                f: spec_blockwise(c, w.f, p.kappa as nat),
            },
        )
    }
}

/// The challenge as a `dim × 1` matrix; its length must be `dim`.
pub fn construct_ct(challenge: &Challenge, dim: usize, a: &MatF) -> (r: Result<MatF, ProtocolError>)
    ensures
        challenge.data@.len() != dim ==> r == Err::<MatF, ProtocolError>(ProtocolError::DimensionMismatch),
        challenge.data@.len() == dim ==> (r matches Ok(m) && m.wf() && m@ == mat_column(challenge.data@)),
{
    if challenge.data.len() != dim {
        return Err(ProtocolError::DimensionMismatch);
    }
    let data = challenge.data.data.clone();
    assert(data@ =~= challenge.data.data@);
    let m = MatF::new(dim, 1, data);
    Ok(m)
}

/// Multiplies the first `kappa` blocks of `v`, each as long as `c`, entry-wise
/// by `c`; entries after them become zero.
pub fn blockwise_scale(c: &VecF, v: &VecF, kappa: usize) -> (r: VecF)
    requires
        kappa * c@.len() <= v@.len(),
    ensures
        r@ == spec_blockwise(c@, v@, kappa as nat),
{
    let block_size = c.len();
    let vlen = v.len();
    let mut out: Vec<Fe> = Vec::new();
    let mut block: usize = 0;
    while block < kappa
        invariant
            vlen == v@.len(),
            block_size == c@.len(),
            kappa * block_size <= v@.len(),
            block <= kappa,
            out@.len() == block * block_size,
            forall|k: int| 0 <= k < block * block_size ==> (#[trigger] out@[k])@ == spec_blockwise(c@, v@, kappa as nat)[k],
        decreases kappa - block,
    {
        proof {
            assert((block + 1) * block_size <= kappa * block_size) by (nonlinear_arith)
                requires
                    block < kappa,
            ;
            assert((block + 1) * block_size == block * block_size + block_size) by (nonlinear_arith);
        }
        let start = block * block_size;
        let end = start + block_size;
        let v_block = VecF { data: slice_vec(&v.data, start, end) };
        let updated = c.mul(&v_block);
        let ghost before = out@;
        let ghost ud = updated.data@;
        assert(ud.len() == updated@.len());
        let mut tail = updated.data;
        out.append(&mut tail);
        proof {
            assert forall|k: int| 0 <= k < (block + 1) * block_size implies (#[trigger] out@[k])@
                == spec_blockwise(c@, v@, kappa as nat)[k] by {
                if k >= block * block_size {
                    let j = k - block * block_size;
                    lemma_join_index(block as int, j, kappa as int, block_size as int);
                    assert(out@[k] == ud[j]);
                    assert(ud[j]@ == updated@[j]);
                    assert(v_block@[j] == v@[k]);
                    assert((block + 1) * block_size <= kappa * block_size) by (nonlinear_arith)
                        requires
                            block < kappa,
                    ;
                } else {
                    assert(out@[k] == before[k]);
                }
            }
        }
        block = block + 1;
    }
    while out.len() < v.len()
        invariant
            kappa * block_size <= out@.len() <= v@.len(),
            block_size == c@.len(),
            forall|k: int| 0 <= k < out@.len() ==> (#[trigger] out@[k])@ == spec_blockwise(c@, v@, kappa as nat)[k],
        decreases v@.len() - out@.len(),
    {
        out.push(Fe::zero());
    }
    let r = VecF { data: out };
    assert(r@ =~= spec_blockwise(c@, v@, kappa as nat));
    r
}

/// Advances the instance with the round's message and challenge. Fails on a
/// round beyond the parameters, a message shorter than `kappa * r_i`, a
/// challenge of another length, or a remainder `v` with fewer than `kappa`
/// blocks of the challenge's length.
pub fn next_instance(x_i: &Instance, z_i: &VecF, c: &Challenge, params: &CommitmentParams, i: usize) -> (r: Result<
    Instance,
    ProtocolError,
>)
    requires
        params.wf(),
        x_i.a.wf(),
    ensures
        match r {
            Ok(x) => x.a.wf() && spec_next_instance(params, x_i@, z_i@, c.data@, i as nat) == Ok::<
                InstanceView,
                ProtocolError,
            >(x@),
            Err(e) => spec_next_instance(params, x_i@, z_i@, c.data@, i as nat) == Err::<InstanceView, ProtocolError>(
                e,
            ),
        },
{
    if i >= params.ell {
        return Err(ProtocolError::RoundOutOfRange);
    }
    let slot = params.ell - i - 1;
    let r_i = params.r_vals[slot];
    proof {
        assert((params.kappa * params.r_vals@[slot as int]) * (params.kappa * params.r_vals@[slot as int]) <= usize::MAX);
        assert(params.kappa * r_i <= usize::MAX) by (nonlinear_arith)
            requires
                (params.kappa * r_i) * (params.kappa * r_i) <= usize::MAX,
                params.kappa > 0,
                r_i > 0,
        ;
        assert(params.kappa * r_i > 0) by (nonlinear_arith)
            requires
                params.kappa > 0,
                r_i > 0,
        ;
    }
    let y_len = params.kappa * r_i;
    if z_i.len() < y_len || c.data.len() != y_len {
        return Err(ProtocolError::DimensionMismatch);
    }
    let rest = z_i.len() - y_len;
    if params.kappa > rest / y_len {
        proof {
            assert(params.kappa * y_len > rest) by (nonlinear_arith)
                requires
                    params.kappa > rest / y_len,
                    y_len > 0,
            {
                assert(rest == y_len * (rest / y_len) + rest % y_len);
                assert(rest % y_len < y_len);
                assert((rest / y_len + 1) <= params.kappa);
                assert(y_len * (rest / y_len + 1) <= y_len * params.kappa);
            }
        }
        return Err(ProtocolError::DimensionMismatch);
    }
    proof {
        assert(params.kappa * y_len <= rest) by (nonlinear_arith)
            requires
                params.kappa <= rest / y_len,
                y_len > 0,
        {
            assert(rest == y_len * (rest / y_len) + rest % y_len);
            assert(rest % y_len >= 0);
            assert(y_len * params.kappa <= y_len * (rest / y_len));
        }
    }
    let y_i = VecF { data: slice_vec(&z_i.data, 0, y_len) };
    let v_i = VecF { data: slice_vec(&z_i.data, y_len, z_i.data.len()) };
    assert(y_i@ =~= z_i@.take(y_len as int));
    assert(v_i@ =~= z_i@.skip(y_len as int));
    let c_t = match construct_ct(c, y_i.len(), &x_i.a) {
        Ok(m) => m,
        Err(e) => {
            return Err(e);
        },
    };
    let g = gadget_matrix(y_i.len());
    let g_y_i = g.custom_mul_vec(&y_i);
    let c_t_vec = VecF { data: c_t.to_row_major() };
    let t_next = c_t_vec.mul(&g_y_i);
    assert(c_t_vec@ == c.data@);
    let u_next = blockwise_scale(&c_t_vec, &v_i, params.kappa);
    let a = x_i.a.clone();
    let x = Instance { a, t_i: t_next, u_i: u_next };
    assert(next_instance_failure(params, z_i@, c.data@, i as nat) is None);
    assert(x@.t == vmul(c.data@, mat_vec(mat_gadget(y_i@.len()), y_i@)));
    assert(x@.u == spec_blockwise(c.data@, v_i@, params.kappa as nat));
    Ok(x)
}

/// Advances the witness with the round's challenge. Fails when an opening
/// cannot be folded with the challenge, or when the challenge's length is not
/// `len(f) / kappa`.
pub fn next_witness(params: &CommitmentParams, w_i: &Witness, c: &Challenge) -> (r: Result<Witness, ProtocolError>)
    requires
        params.wf(),
    ensures
        match r {
            Ok(w) => spec_next_witness(params, w_i@, c.data@) == Ok::<WitnessView, ProtocolError>(w@),
            Err(e) => spec_next_witness(params, w_i@, c.data@) == Err::<WitnessView, ProtocolError>(e),
        },
{
    let mut new_sj: Vec<VecF> = Vec::new();
    let mut j: usize = 0;
    while j < w_i.s_j.len()
        invariant
            params.wf(),
            j <= w_i.s_j@.len(),
            new_sj@.len() == j,
            forall|k: int| 0 <= k < j ==> opening_foldable(params, #[trigger] w_i@.s[k], c.data@),
            forall|k: int|
                0 <= k < j ==> (#[trigger] new_sj@[k])@ == spec_fold_opening(params, w_i@.s[k], c.data@),
        decreases w_i.s_j@.len() - j,
    {
        let s = &w_i.s_j[j];
        assert(s@ == w_i@.s[j as int]);
        let len = s.len();
        if c.data.len() != len || (params.kappa != 1 && len != 0) {
            proof {
                if c.data@.len() == s@.len() {
                    assert(s@.len() * params.kappa != s@.len()) by (nonlinear_arith)
                        requires
                            params.kappa != 1,
                            s@.len() != 0,
                    ;
                }
                assert(!opening_foldable(params, w_i@.s[j as int], c.data@));
            }
            return Err(ProtocolError::DimensionMismatch);
        }
        proof {
            assert(len * params.kappa == len) by (nonlinear_arith)
                requires
                    params.kappa == 1 || len == 0,
            ;
            assert(params.kappa * (len * params.kappa) == len * params.kappa) by (nonlinear_arith)
                requires
                    params.kappa == 1 || len == 0,
            ;
        }
        let c_t = match construct_ct(c, s.len(), &params.a) {
            Ok(m) => m,
            Err(e) => {
                return Err(e);
            },
        };
        let c_t_transposed = c_t.transpose();
        let i_kappa = MatF::identity(params.kappa);
        assert(c_t_transposed.rows * i_kappa.rows == params.kappa);
        let expanded = c_t_transposed.kronecker_product(&i_kappa);
        let updated_sj = expanded.custom_mul_vec(s);
        new_sj.push(updated_sj);
        j = j + 1;
    }
    let dim = w_i.f.len() / params.kappa;
    if c.data.len() != dim {
        proof {
            assert forall|k: int| 0 <= k < w_i@.s.len() implies opening_foldable(params, #[trigger] w_i@.s[k], c.data@) by {}
        }
        return Err(ProtocolError::DimensionMismatch);
    }
    let c_t = match construct_ct(c, dim, &params.a) {
        Ok(m) => m,
        Err(e) => {
            return Err(e);
        },
    };
    let c_t_vec = VecF { data: c_t.to_row_major() };
    assert(c_t_vec@ == c.data@);
    proof {
        let fl = w_i.f@.len() as int;
        let kp = params.kappa as int;
        vstd::arithmetic::div_mod::lemma_fundamental_div_mod(fl, kp);
        vstd::arithmetic::div_mod::lemma_mod_pos_bound(fl, kp);
        assert(kp * dim <= fl);
    }
    let updated_f = blockwise_scale(&c_t_vec, &w_i.f, params.kappa);
    let w = Witness { s_j: new_sj, f: updated_f };
    proof {
        assert(!(exists|k: int| 0 <= k < w_i@.s.len() && !opening_foldable(params, #[trigger] w_i@.s[k], c.data@)));
        assert(w@.s =~= Seq::new(w_i@.s.len(), |k: int| spec_fold_opening(params, w_i@.s[k], c.data@)));
    }
    Ok(w)
}

/// One round from instance `x` and witness `w` under challenge `c`: a
/// structural error, a rejection (`None`), or the next instance and witness.
pub open spec fn spec_round(p: &CommitmentParams, x: InstanceView, w: WitnessView, c: Seq<int>, i: nat) -> Result<
    Option<(InstanceView, WitnessView)>,
    ProtocolError,
> {
    match spec_prover(w) {
        Err(e) => Err(e),
        Ok(z) => match spec_verifier(p, x, z, c, i) {
            Err(e) => Err(e),
            Ok(false) => Ok(None),
            Ok(true) => match spec_next_instance(p, x, z, c, i) {
                Err(e) => Err(e),
                Ok(x2) => match spec_next_witness(p, w, c) {
                    Err(e) => Err(e),
                    Ok(w2) => Ok(Some((x2, w2))),
                },
            },
        },
    }
}

/// The state after the first `k` rounds under challenges `cs`, starting from
/// `(x, w)`; a rejection or an error stays as it is.
pub open spec fn state_after(p: &CommitmentParams, x: InstanceView, w: WitnessView, cs: Seq<Seq<int>>, k: nat) -> Result<
    Option<(InstanceView, WitnessView)>,
    ProtocolError,
>
    decreases k,
{
    if k == 0 {
        Ok(Some((x, w)))
    } else {
        match state_after(p, x, w, cs, (k - 1) as nat) {
            Ok(Some(s)) => spec_round(p, s.0, s.1, cs[k - 1], (k - 1) as nat),
            other => other,
        }
    }
}

pub open spec fn initial_instance(p: &CommitmentParams, c: CommitView) -> InstanceView {
    InstanceView { a: p.a@, t: c.t, u: c.u }
}

pub open spec fn initial_witness(c: CommitView) -> WitnessView {
    WitnessView { s: c.s_arr, f: c.f }
}

/// The whole argument under challenges `cs`, one per round: the opening check,
/// then `cs.len()` rounds from the committed instance and witness.
pub open spec fn spec_open_poly(p: &CommitmentParams, c: CommitView, cs: Seq<Seq<int>>) -> Result<bool, ProtocolError> {
    match spec_open_base(p, c) {
        Err(e) => Err(e),
        Ok(false) => Ok(false),
        Ok(true) => match state_after(p, initial_instance(p, c), initial_witness(c), cs, cs.len()) {
            Err(e) => Err(e),
            Ok(None) => Ok(false),
            Ok(Some(_)) => Ok(true),
        },
    }
}

/// The state after `k` rounds reads only the first `k` challenges.
pub proof fn lemma_state_after_prefix(
    p: &CommitmentParams,
    x: InstanceView,
    w: WitnessView,
    cs: Seq<Seq<int>>,
    ds: Seq<Seq<int>>,
    k: nat,
)
    requires
        k <= cs.len(),
        k <= ds.len(),
        cs.take(k as int) == ds.take(k as int),
    ensures
        state_after(p, x, w, cs, k) == state_after(p, x, w, ds, k),
    decreases k,
{
    if k > 0 {
        assert(cs.take(k - 1) == cs.take(k as int).take(k - 1));
        assert(ds.take(k - 1) == ds.take(k as int).take(k - 1));
        lemma_state_after_prefix(p, x, w, cs, ds, (k - 1) as nat);
        assert(cs[k - 1] == cs.take(k as int)[k - 1]);
        assert(ds[k - 1] == ds.take(k as int)[k - 1]);
    }
}

/// Once a run has stopped, later rounds change nothing.
pub proof fn lemma_state_after_stops(p: &CommitmentParams, x: InstanceView, w: WitnessView, cs: Seq<Seq<int>>, k: nat, m: nat)
    requires
        k <= m,
        !(state_after(p, x, w, cs, k) matches Ok(Some(_))),
    ensures
        state_after(p, x, w, cs, m) == state_after(p, x, w, cs, k),
    decreases m - k,
{
    if k < m {
        lemma_state_after_stops(p, x, w, cs, k, (m - 1) as nat);
    }
}

/// What a round step yields, as values.
pub open spec fn step_view(r: Result<Option<(Instance, Witness)>, ProtocolError>) -> Result<
    Option<(InstanceView, WitnessView)>,
    ProtocolError,
> {
    match r {
        Err(e) => Err(e),
        Ok(None) => Ok(None),
        Ok(Some(s)) => Ok(Some((s.0@, s.1@))),
    }
}

/// One round: the prover's message, the verifier's check under `c`, and, if it
/// passes, the next instance and witness.
pub fn fold_round(params: &CommitmentParams, x_i: &Instance, w_i: &Witness, c: &Challenge, i: usize) -> (r: Result<
    Option<(Instance, Witness)>,
    ProtocolError,
>)
    requires
        params.wf(),
        x_i.a.wf(),
    ensures
        step_view(r) == spec_round(params, x_i@, w_i@, c.data@, i as nat),
        r matches Ok(Some(s)) ==> s.0.a.wf(),
{
    let z_i = match prover_round_i(params, x_i, w_i, i) {
        Ok(z) => z,
        Err(e) => {
            return Err(e);
        },
    };
    match verifier_round_i(params, x_i, &z_i, c, i) {
        Err(e) => {
            return Err(e);
        },
        Ok(false) => {
            return Ok(None);
        },
        Ok(true) => {},
    }
    let x_next = match next_instance(x_i, &z_i, c, params, i) {
        Ok(x) => x,
        Err(e) => {
            return Err(e);
        },
    };
    let w_next = match next_witness(params, w_i, c) {
        Ok(w) => w,
        Err(e) => {
            return Err(e);
        },
    };
    Ok(Some((x_next, w_next)))
}

pub open spec fn challenges_view(cs: Seq<Challenge>) -> Seq<Seq<int>> {
    cs.map_values(|c: Challenge| c.data@)
}

/// Runs the whole argument with the given challenges, one per round: the
/// opening check, then one round per challenge. `Ok(true)` is acceptance,
/// `Ok(false)` a rejection, and an error a structural failure.
pub fn open_poly_with_challenges(params: &CommitmentParams, comm: &CommitOutput, challenges: &Vec<Challenge>) -> (r:
    Result<bool, ProtocolError>)
    requires
        params.wf(),
    ensures
        r == spec_open_poly(params, comm@, challenges_view(challenges@)),
{
    let ghost cs = challenges_view(challenges@);
    match open_section4(params, comm) {
        Err(e) => {
            return Err(e);
        },
        Ok(false) => {
            return Ok(false);
        },
        Ok(true) => {},
    }
    let mut x_i = Instance { a: params.a.clone(), t_i: comm.t.clone(), u_i: comm.u.clone() };
    let mut w_i = Witness { s_j: clone_vecs(&comm.s_arr), f: comm.f.clone() };
    let ghost x0 = x_i@;
    let ghost w0 = w_i@;
    let mut i: usize = 0;
    while i < challenges.len()
        invariant
            params.wf(),
            x_i.a.wf(),
            cs == challenges_view(challenges@),
            x0 == initial_instance(params, comm@),
            w0 == initial_witness(comm@),
            spec_open_base(params, comm@) == Ok::<bool, ProtocolError>(true),
            i <= challenges@.len(),
            state_after(params, x0, w0, cs, i as nat) == Ok::<Option<(InstanceView, WitnessView)>, ProtocolError>(
                Some((x_i@, w_i@)),
            ),
        decreases challenges@.len() - i,
    {
        let step = fold_round(params, &x_i, &w_i, &challenges[i], i);
        proof {
            assert(cs[i as int] == challenges@[i as int].data@);
        }
        match step {
            Err(e) => {
                proof {
                    lemma_state_after_stops(params, x0, w0, cs, (i + 1) as nat, cs.len());
                }
                return Err(e);
            },
            Ok(None) => {
                proof {
                    lemma_state_after_stops(params, x0, w0, cs, (i + 1) as nat, cs.len());
                }
                return Ok(false);
            },
            Ok(Some(next)) => {
                x_i = next.0;
                w_i = next.1;
            },
        }
        i = i + 1;
    }
    Ok(true)
}

/// Copies a list of vectors.
pub fn clone_vecs(v: &Vec<VecF>) -> (r: Vec<VecF>)
    ensures
        vecs_view(r@) == vecs_view(v@),
{
    let mut out: Vec<VecF> = Vec::new();
    let mut i: usize = 0;
    while i < v.len()
        invariant
            i <= v@.len(),
            out@.len() == i,
            forall|k: int| 0 <= k < i ==> (#[trigger] out@[k])@ == v@[k]@,
        decreases v@.len() - i,
    {
        out.push(v[i].clone());
        i = i + 1;
    }
    assert(vecs_view(out@) =~= vecs_view(v@));
    out
}

/// Draws a challenge of `dim` field elements, each uniform over the field.
pub fn sample_challenge(dim: usize) -> (r: Challenge)
    ensures
        r.data@.len() == dim,
{
    let mut d: Vec<Fe> = Vec::new();
    while d.len() < dim
        invariant
            d@.len() <= dim,
        decreases dim - d@.len(),
    {
        d.push(fe_random());
    }
    let r = Challenge { data: VecF { data: d } };
    assert(r.data@.len() == d@.len());
    r
}

/// Whether `cs` holds, for each round below the parameters' count, a challenge
/// of that round's length.
pub open spec fn challenges_fit(p: &CommitmentParams, cs: Seq<Seq<int>>) -> bool {
    forall|i: int| 0 <= i < cs.len() && i < p.ell ==> (#[trigger] cs[i]).len() == round_len(p, i as nat)
}

/// Runs the argument for `rounds` rounds with a fresh random challenge of the
/// round's length each round. Whatever the challenges drawn, the result is the
/// argument's outcome under those challenges; an acceptance ran all `rounds`.
pub fn open_poly(params: &CommitmentParams, comm: &CommitOutput, rounds: usize) -> (r: Result<bool, ProtocolError>)
    requires
        params.wf(),
    ensures
        exists|cs: Seq<Seq<int>>|
            {
                &&& cs.len() <= rounds
                &&& challenges_fit(params, cs)
                &&& r == #[trigger] spec_open_poly(params, comm@, cs)
                &&& r == Ok::<bool, ProtocolError>(true) ==> cs.len() == rounds
            },
{
    let ghost cs: Seq<Seq<int>> = Seq::empty();
    match open_section4(params, comm) {
        Err(e) => {
            assert(spec_open_poly(params, comm@, cs) == Err::<bool, ProtocolError>(e));
            return Err(e);
        },
        Ok(false) => {
            assert(spec_open_poly(params, comm@, cs) == Ok::<bool, ProtocolError>(false));
            return Ok(false);
        },
        Ok(true) => {},
    }
    let mut x_i = Instance { a: params.a.clone(), t_i: comm.t.clone(), u_i: comm.u.clone() };
    let mut w_i = Witness { s_j: clone_vecs(&comm.s_arr), f: comm.f.clone() };
    let ghost x0 = x_i@;
    let ghost w0 = w_i@;
    let mut i: usize = 0;
    while i < rounds
        invariant
            params.wf(),
            x_i.a.wf(),
            x0 == initial_instance(params, comm@),
            w0 == initial_witness(comm@),
            spec_open_base(params, comm@) == Ok::<bool, ProtocolError>(true),
            i <= rounds,
            cs.len() == i,
            challenges_fit(params, cs),
            state_after(params, x0, w0, cs, i as nat) == Ok::<Option<(InstanceView, WitnessView)>, ProtocolError>(
                Some((x_i@, w_i@)),
            ),
        decreases rounds - i,
    {
        let z_i = prover_round_i(params, &x_i, &w_i, i);
        if z_i.is_err() || i >= params.ell {
            let ghost filler: Seq<int> = if i < params.ell {
                Seq::new(round_len(params, i as nat), |k: int| 0int)
            } else {
                Seq::empty()
            };
            let ghost cs2 = cs.push(filler);
            proof {
                assert(cs2.take(i as int) =~= cs.take(i as int));
                lemma_state_after_prefix(params, x0, w0, cs, cs2, i as nat);
                assert(cs2[i as int] == filler);
                assert(challenges_fit(params, cs2));
                assert(cs2.len() == i + 1);
            }
            if z_i.is_err() {
                let e = z_i.unwrap_err();
                assert(spec_open_poly(params, comm@, cs2) == Err::<bool, ProtocolError>(e));
                return Err(e);
            }
            assert(spec_open_poly(params, comm@, cs2) == Err::<bool, ProtocolError>(ProtocolError::RoundOutOfRange));
            return Err(ProtocolError::RoundOutOfRange);
        }
        let slot = params.ell - i - 1;
        let r_i = params.r_vals[slot];
        proof {
            assert((params.kappa * params.r_vals@[slot as int]) * (params.kappa * params.r_vals@[slot as int]) <= usize::MAX);
            assert(params.kappa * r_i <= usize::MAX) by (nonlinear_arith)
                requires
                    (params.kappa * r_i) * (params.kappa * r_i) <= usize::MAX,
                    params.kappa > 0,
                    r_i > 0,
            ;
        }
        let c = sample_challenge(params.kappa * r_i);
        let ghost cs2 = cs.push(c.data@);
        proof {
            assert(cs2.take(i as int) =~= cs.take(i as int));
            lemma_state_after_prefix(params, x0, w0, cs, cs2, i as nat);
            assert(cs2[i as int] == c.data@);
            assert(challenges_fit(params, cs2));
        }
        let step = fold_round(params, &x_i, &w_i, &c, i);
        proof {
            cs = cs2;
        }
        match step {
            Err(e) => {
                assert(spec_open_poly(params, comm@, cs) == Err::<bool, ProtocolError>(e));
                return Err(e);
            },
            Ok(None) => {
                assert(spec_open_poly(params, comm@, cs) == Ok::<bool, ProtocolError>(false));
                return Ok(false);
            },
            Ok(Some(next)) => {
                x_i = next.0;
                w_i = next.1;
            },
        }
        i = i + 1;
    }
    assert(spec_open_poly(params, comm@, cs) == Ok::<bool, ProtocolError>(true));
    Ok(true)
}

/// With no folding rounds, the whole argument on an honest commitment
/// accepts: for binary digits `b` of the digit width, committing to `G · b`
/// and running zero rounds gives `Ok(true)`.
pub proof fn lemma_honest_run_without_rounds_accepts(p: &CommitmentParams, b: Seq<int>)
    requires
        p.wf(),
        !crate::commitment::commit_dims_mismatch(p),
        b.len() == p.width(),
        forall|i: int| 0 <= i < b.len() ==> #[trigger] b[i] == 0 || b[i] == 1,
    ensures
        spec_open_poly(
            p,
            crate::commitment::spec_commit(p, mat_vec(mat_gadget(p.width()), b))->Ok_0,
            Seq::empty(),
        ) == Ok::<bool, ProtocolError>(true),
{
    crate::commitment::lemma_honest_commitment_opens(p, b);
}

/// The sum of `c[a] * s[a]` over `a < k`.
pub open spec fn dot(c: Seq<int>, s: Seq<int>, k: nat) -> int
    decreases k,
{
    if k == 0 {
        0
    } else {
        dot(c, s, (k - 1) as nat) + c[k - 1] * s[k - 1]
    }
}

/// With a single lane (`kappa == 1`) an opening as long as the challenge can
/// always be folded, and folds to the one entry `sum_a c[a] * s[a]`.
pub proof fn lemma_single_lane_fold(p: &CommitmentParams, s: Seq<int>, c: Seq<int>)
    requires
        p.kappa == 1,
        c.len() == s.len(),
        forall|a: int| 0 <= a < c.len() ==> 0 <= #[trigger] c[a] < modulus(),
    ensures
        opening_foldable(p, s, c),
        spec_fold_opening(p, s, c) == seq![dot(c, s, s.len()) % modulus()],
{
    let n = s.len();
    let col = mat_column(c);
    let t = mat_transpose(col);
    let id = mat_identity(1);
    let m = mat_kron(t, id);
    assert(m.rows == 1 && m.cols == n);
    assert(id.at(0, 0) == 1);
    assert forall|j: int| 0 <= j < n implies #[trigger] m.at(0, j) == c[j] by {
        lemma_join_index(0, j, 1, n as int);
        lemma_join_index(j, 0, n as int, 1);
        assert(t.at(0, j) == col.at(j, 0));
        assert(m.at(0, j) == (t.at(0, j) * id.at(0, 0)) % modulus());
        vstd::arithmetic::div_mod::lemma_small_mod(c[j] as nat, modulus() as nat);
    }
    assert forall|k: nat| k <= n implies #[trigger] row_dot_prefix(m, s, k) == dot(c, s, k) by {
        lemma_row_dot_single(m, c, s, k);
    }
    assert(row_dot_prefix(m, s, n) == dot(c, s, n));
    assert(mat_identity(p.kappa as nat) == id);
    assert(spec_fold_opening(p, s, c) == mat_vec(m, s));
    assert(mat_vec(m, s)[0] == crate::linalg::row_dot(m, 0, s, n) % modulus());
    assert(spec_fold_opening(p, s, c) =~= seq![dot(c, s, s.len()) % modulus()]);
}

spec fn row_dot_prefix(m: RingMat, s: Seq<int>, k: nat) -> int {
    crate::linalg::row_dot(m, 0, s, k)
}

proof fn lemma_row_dot_single(m: RingMat, c: Seq<int>, s: Seq<int>, k: nat)
    requires
        k <= c.len(),
        forall|j: int| 0 <= j < c.len() ==> #[trigger] m.at(0, j) == c[j],
    ensures
        crate::linalg::row_dot(m, 0, s, k) == dot(c, s, k),
    decreases k,
{
    if k > 0 {
        lemma_row_dot_single(m, c, s, (k - 1) as nat);
        assert(m.at(0, k - 1) == c[k - 1]);
    }
}

/// A message with a part whose norm exceeds the round's bound `beta + 1` is
/// rejected by the round check, whatever checks b0 and b1 find.
pub proof fn lemma_norm_excess_rejected(p: &CommitmentParams, x: InstanceView, z: Seq<int>, c: Seq<int>, i: nat)
    requires
        verifier_failure(p, x, z, c, i) is None,
        max_entry(z.take(round_len(p, i) as int)) > (p.betas@[round_slot(p, i)]@ + 1) % modulus() || max_entry(
            z.skip(round_len(p, i) as int),
        ) > (p.betas@[round_slot(p, i)]@ + 1) % modulus(),
    ensures
        spec_verifier(p, x, z, c, i) == Ok::<bool, ProtocolError>(false),
{
}

/// A challenge whose length differs from that of `G · y` (which is
/// `kappa * r_i`) is a structural error of the round check, never a rejection.
pub proof fn lemma_challenge_length_mismatch_fails(p: &CommitmentParams, x: InstanceView, z: Seq<int>, c: Seq<int>, i: nat)
    requires
        i < p.ell,
        z.len() >= round_len(p, i),
        c.len() != round_len(p, i),
    ensures
        spec_verifier(p, x, z, c, i) == Err::<bool, ProtocolError>(ProtocolError::DimensionMismatch),
{
}

/// The commitment, the openings and both advancing steps are functions of
/// their inputs: equal parameters, vectors, instances, witnesses and
/// challenges give equal results.
pub proof fn lemma_steps_deterministic(
    p: &CommitmentParams,
    q: &CommitmentParams,
    f: Seq<int>,
    x: InstanceView,
    w: WitnessView,
    z: Seq<int>,
    c: Seq<int>,
    i: nat,
)
    requires
        p@ == q@,
    ensures
        crate::commitment::spec_compute_t(p, f) == crate::commitment::spec_compute_t(q, f),
        crate::commitment::spec_compute_s(p, f) == crate::commitment::spec_compute_s(q, f),
        spec_next_instance(p, x, z, c, i) == spec_next_instance(q, x, z, c, i),
        spec_next_witness(p, w, c) == spec_next_witness(q, w, c),
{
    assert(p.kappa == q.kappa);
    assert forall|s: Seq<int>| opening_foldable(p, s, c) == #[trigger] opening_foldable(q, s, c) by {}
    assert(Seq::new(w.s.len(), |j: int| spec_fold_opening(p, w.s[j], c)) =~= Seq::new(
        w.s.len(),
        |j: int| spec_fold_opening(q, w.s[j], c),
    ));
}

} // verus!
