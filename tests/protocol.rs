use lattice_fold::commitment::{
    commit_section4, compute_s_j, compute_t, compute_u, open_section4, CommitOutput, CommitmentParams,
};
use lattice_fold::error::ProtocolError;
use lattice_fold::field::Fe;
use lattice_fold::gadget::gadget_matrix;
use lattice_fold::linalg::{MatF, VecF};
use lattice_fold::protocol::{
    construct_ct, fold_round, next_instance, next_witness, open_poly, open_poly_with_challenges, prover_round_i,
    sample_challenge, verifier_round_i, Challenge, Instance, Witness,
};

fn fe(x: u64) -> Fe {
    Fe::from_u64(x)
}

fn vecf(xs: &[u64]) -> VecF {
    VecF::new(xs.iter().map(|&x| fe(x)).collect())
}

fn challenge(xs: &[u64]) -> Challenge {
    Challenge { data: vecf(xs) }
}

/// kappa = 2, n = 4, two rounds with widths [4, 2], A = I_2.
fn example_params() -> CommitmentParams {
    CommitmentParams {
        q: Fe::one(),
        a: MatF::identity(2),
        r_vals: vec![4, 2],
        ell: 2,
        betas: vec![fe(1_800_000_000_000_000_000), fe(1_800_000_000_000_000_000)],
        kappa: 2,
        tau: 1,
        n: 4,
    }
}

const BITS: [u64; 8] = [1, 0, 1, 1, 0, 1, 0, 1];

fn example_f() -> VecF {
    gadget_matrix(8).custom_mul_vec(&vecf(&BITS))
}

fn example_commitment() -> CommitOutput {
    commit_section4(&example_params(), &example_f()).expect("honest commitment")
}

/// kappa = 1, n = 1, one round of width 4, bound 5.
fn small_params() -> CommitmentParams {
    CommitmentParams {
        q: Fe::one(),
        a: MatF::identity(1),
        r_vals: vec![4],
        ell: 1,
        betas: vec![fe(5)],
        kappa: 1,
        tau: 1,
        n: 1,
    }
}

fn small_instance(v0: u64) -> Instance {
    Instance { a: MatF::identity(1), t_i: vecf(&[1, 0, 0, 0]), u_i: vecf(&[v0]) }
}

#[test]
fn example_commitment_shapes() {
    let c = example_commitment();
    assert!(c.t.len() <= 4);
    assert!(c.u.len() <= 4);
    assert_eq!(c.s_arr.len(), 2);
    assert_eq!(c.t, vecf(&[1, 0, 1, 1]));
    assert_eq!(c.u, vecf(&[1, 0, 1, 1]));
    assert_eq!(c.f, example_f());
    // Each opening is the digit decomposition of the expanded f, cut to 4 * kappa.
    assert_eq!(c.s_arr[0], example_f());
    assert_eq!(c.s_arr[1], example_f());
}

#[test]
fn example_commitment_opens() {
    assert_eq!(open_section4(&example_params(), &example_commitment()), Ok(true));
}

#[test]
fn example_full_run_outcome() {
    let p = example_params();
    let c = example_commitment();
    // The tag check of round 0 compares (I_2 ⊗ G_8) · v, of 16 entries, with
    // the 4-entry tag, so the run is rejected in its first round.
    assert_eq!(open_poly(&p, &c, 2), Ok(false));
    let cs = vec![challenge(&[1, 1, 1, 1]), challenge(&[1, 1, 1, 1, 1, 1, 1, 1])];
    assert_eq!(open_poly_with_challenges(&p, &c, &cs), Ok(false));
    // With no rounds the run is the opening check alone.
    assert_eq!(open_poly(&p, &c, 0), Ok(true));
    assert_eq!(open_poly_with_challenges(&p, &c, &vec![]), Ok(true));
}

#[test]
fn altered_digest_entry_is_rejected() {
    let mut c = example_commitment();
    c.t.data[1] = fe(1);
    assert_eq!(open_section4(&example_params(), &c), Ok(false));
    assert_eq!(open_poly(&example_params(), &c, 2), Ok(false));
}

#[test]
fn altered_opening_entry_is_rejected() {
    let mut c = example_commitment();
    c.s_arr[1].data[3] = fe(9);
    assert_eq!(open_section4(&example_params(), &c), Ok(false));
}

#[test]
fn altered_committed_vector_is_rejected() {
    let mut c = example_commitment();
    c.f.data[2] = fe(0);
    assert_eq!(open_section4(&example_params(), &c), Ok(false));
    let mut c = example_commitment();
    c.f.data[7] = fe(0);
    assert_eq!(open_section4(&example_params(), &c), Ok(false));
    let mut c = example_commitment();
    c.f.data[1] = fe(5);
    assert_eq!(open_section4(&example_params(), &c), Ok(false));
}

#[test]
fn commitment_errors() {
    let mut p = example_params();
    assert_eq!(compute_t(&p, &vecf(&[1, 3])), Err(ProtocolError::NonBinaryDigit));
    assert!(matches!(commit_section4(&p, &vecf(&[1, 3])), Err(ProtocolError::NonBinaryDigit)));
    p.a = MatF::identity(3);
    assert_eq!(compute_t(&p, &example_f()), Err(ProtocolError::DimensionMismatch));
    assert_eq!(open_section4(&p, &example_commitment()), Err(ProtocolError::DimensionMismatch));
}

#[test]
fn compute_t_and_u_exact() {
    let p = example_params();
    assert_eq!(compute_t(&p, &example_f()), Ok(vecf(&BITS)));
    assert_eq!(compute_u(&p, &example_f()), Ok(vecf(&BITS)));
}

#[test]
fn steps_are_deterministic() {
    let p = example_params();
    let f = example_f();
    assert_eq!(compute_t(&p, &f), compute_t(&p, &f));
    assert_eq!(compute_s_j(&p, &f, 0), compute_s_j(&p, &f, 1));
    let sp = small_params();
    let z = vecf(&[1, 0, 0, 0, 5, 6, 7, 8, 9]);
    let c = challenge(&[1, 2, 3, 4]);
    let a = next_instance(&small_instance(0), &z, &c, &sp, 0).unwrap();
    let b = next_instance(&small_instance(0), &z, &c, &sp, 0).unwrap();
    assert_eq!((a.t_i, a.u_i), (b.t_i, b.u_i));
    let w = Witness { s_j: vec![vecf(&[3])], f: vecf(&[5]) };
    let w1 = next_witness(&sp, &w, &challenge(&[7])).unwrap();
    let w2 = next_witness(&sp, &w, &challenge(&[7])).unwrap();
    assert_eq!((w1.s_j, w1.f), (w2.s_j, w2.f));
}

#[test]
fn prover_message_concatenates() {
    let p = small_params();
    let w = Witness { s_j: vec![vecf(&[1, 2]), vecf(&[9])], f: vecf(&[3]) };
    assert_eq!(prover_round_i(&p, &small_instance(0), &w, 0), Ok(vecf(&[1, 2, 3])));
    let empty = Witness { s_j: vec![], f: vecf(&[3]) };
    assert_eq!(prover_round_i(&p, &small_instance(0), &empty, 0), Err(ProtocolError::DimensionMismatch));
}

#[test]
fn verifier_accepts_at_the_bound() {
    let p = small_params();
    let z = vecf(&[1, 0, 0, 0, 6]);
    assert_eq!(verifier_round_i(&p, &small_instance(6), &z, &challenge(&[1, 1, 1, 1]), 0), Ok(true));
}

#[test]
fn verifier_rejects_norm_excess() {
    let p = small_params();
    // b0 and b1 hold; the remainder's norm 7 exceeds beta + 1 = 6.
    let z = vecf(&[1, 0, 0, 0, 7]);
    assert_eq!(verifier_round_i(&p, &small_instance(7), &z, &challenge(&[1, 1, 1, 1]), 0), Ok(false));
    // b0 fails too: still a rejection.
    let z = vecf(&[9, 0, 0, 0, 7]);
    assert_eq!(verifier_round_i(&p, &small_instance(7), &z, &challenge(&[1, 1, 1, 1]), 0), Ok(false));
}

#[test]
fn verifier_rejects_failed_consistency_checks() {
    let p = small_params();
    let z = vecf(&[1, 0, 0, 0, 6]);
    assert_eq!(verifier_round_i(&p, &small_instance(6), &z, &challenge(&[2, 1, 1, 1]), 0), Ok(false));
    assert_eq!(verifier_round_i(&p, &small_instance(5), &z, &challenge(&[1, 1, 1, 1]), 0), Ok(false));
}

#[test]
fn verifier_challenge_length_mismatch_is_an_error() {
    let p = small_params();
    let z = vecf(&[1, 0, 0, 0, 6]);
    assert_eq!(
        verifier_round_i(&p, &small_instance(6), &z, &challenge(&[1, 1, 1]), 0),
        Err(ProtocolError::DimensionMismatch)
    );
    assert_eq!(
        verifier_round_i(&p, &small_instance(6), &vecf(&[1, 0]), &challenge(&[1, 1, 1, 1]), 0),
        Err(ProtocolError::DimensionMismatch)
    );
    let short_digest = Instance { a: MatF::identity(1), t_i: vecf(&[1]), u_i: vecf(&[6]) };
    assert_eq!(
        verifier_round_i(&p, &short_digest, &z, &challenge(&[1, 1, 1, 1]), 0),
        Err(ProtocolError::DimensionMismatch)
    );
    assert_eq!(
        verifier_round_i(&p, &small_instance(6), &z, &challenge(&[1, 1, 1, 1]), 1),
        Err(ProtocolError::RoundOutOfRange)
    );
}

#[test]
fn next_instance_exact() {
    let p = small_params();
    let z = vecf(&[1, 0, 0, 0, 5, 6, 7, 8, 9]);
    let x = next_instance(&small_instance(0), &z, &challenge(&[1, 2, 3, 4]), &p, 0).unwrap();
    assert_eq!(x.t_i, vecf(&[1, 0, 0, 0]));
    assert_eq!(x.u_i, vecf(&[5, 12, 21, 32, 0]));
    let z = vecf(&[0, 1, 1, 0, 1, 1, 1, 1]);
    let x = next_instance(&small_instance(0), &z, &challenge(&[3, 3, 3, 3]), &p, 0).unwrap();
    assert_eq!(x.t_i, vecf(&[0, 6, 12, 0]));
}

#[test]
fn next_instance_errors() {
    let p = small_params();
    let short = vecf(&[1, 0, 0, 0, 5]);
    assert!(matches!(
        next_instance(&small_instance(0), &short, &challenge(&[1, 2, 3, 4]), &p, 0),
        Err(ProtocolError::DimensionMismatch)
    ));
    let z = vecf(&[1, 0, 0, 0, 5, 6, 7, 8]);
    assert!(matches!(
        next_instance(&small_instance(0), &z, &challenge(&[1, 2]), &p, 0),
        Err(ProtocolError::DimensionMismatch)
    ));
    assert!(matches!(
        next_instance(&small_instance(0), &z, &challenge(&[1, 2, 3, 4]), &p, 1),
        Err(ProtocolError::RoundOutOfRange)
    ));
}

#[test]
fn next_witness_exact() {
    let p = small_params();
    let w = Witness { s_j: vec![vecf(&[3])], f: vecf(&[5]) };
    let w2 = next_witness(&p, &w, &challenge(&[7])).unwrap();
    assert_eq!(w2.s_j.len(), 1);
    assert_eq!(w2.s_j[0], vecf(&[21]));
    assert_eq!(w2.f, vecf(&[35]));
    let w = Witness { s_j: vec![], f: vecf(&[1, 2, 3]) };
    let w2 = next_witness(&p, &w, &challenge(&[2, 2, 2])).unwrap();
    assert_eq!(w2.f, vecf(&[2, 4, 6]));
}

#[test]
fn next_witness_blockwise_f() {
    let mut p = small_params();
    p.kappa = 2;
    let w = Witness { s_j: vec![], f: vecf(&[1, 2, 3, 4, 5]) };
    let w2 = next_witness(&p, &w, &challenge(&[2, 3])).unwrap();
    assert_eq!(w2.f, vecf(&[2, 6, 6, 12, 0]));
}

#[test]
fn next_witness_errors() {
    let p = small_params();
    let w = Witness { s_j: vec![vecf(&[3, 4])], f: vecf(&[5]) };
    assert!(matches!(next_witness(&p, &w, &challenge(&[7])), Err(ProtocolError::DimensionMismatch)));
    let w = Witness { s_j: vec![], f: vecf(&[5, 6]) };
    assert!(matches!(next_witness(&p, &w, &challenge(&[7])), Err(ProtocolError::DimensionMismatch)));
    let mut p2 = small_params();
    p2.kappa = 2;
    let w = Witness { s_j: vec![vecf(&[1, 1])], f: vecf(&[5, 6]) };
    assert!(matches!(next_witness(&p2, &w, &challenge(&[1, 1])), Err(ProtocolError::DimensionMismatch)));
}

#[test]
fn construct_ct_checks_length() {
    let a = MatF::identity(1);
    let m = construct_ct(&challenge(&[4, 5]), 2, &a).unwrap();
    assert_eq!((m.rows, m.cols), (2, 1));
    assert_eq!(VecF::new(m.to_row_major()), vecf(&[4, 5]));
    assert!(matches!(construct_ct(&challenge(&[4, 5]), 3, &a), Err(ProtocolError::DimensionMismatch)));
}

#[test]
fn fold_round_outcomes() {
    let p = small_params();
    let w = Witness { s_j: vec![vecf(&[1, 0, 0, 0])], f: vecf(&[6]) };
    // The round's checks pass, but v is too short for kappa blocks of the challenge.
    assert!(matches!(
        fold_round(&p, &small_instance(6), &w, &challenge(&[1, 1, 1, 1]), 0),
        Err(ProtocolError::DimensionMismatch)
    ));
    assert!(matches!(fold_round(&p, &small_instance(5), &w, &challenge(&[1, 1, 1, 1]), 0), Ok(None)));
}

#[test]
fn sampled_challenge_has_requested_length() {
    assert_eq!(sample_challenge(6).data.len(), 6);
    assert_eq!(sample_challenge(0).data.len(), 0);
}

#[test]
fn too_many_rounds_is_an_error() {
    let p = small_params();
    let c = CommitOutput { t: vecf(&[1]), s_arr: vec![vecf(&[1])], f: vecf(&[1]), u: vecf(&[1]) };
    assert_eq!(open_section4(&p, &c), Ok(true));
    // Round 0 fails structurally: the digest has fewer than 4 entries.
    assert_eq!(open_poly(&p, &c, 3), Err(ProtocolError::DimensionMismatch));
}

#[test]
fn parameter_validation() {
    assert!(example_params().is_well_formed());
    assert!(small_params().is_well_formed());
    let mut p = example_params();
    p.ell = 3;
    assert!(!p.is_well_formed());
    let mut p = example_params();
    p.betas.pop();
    assert!(!p.is_well_formed());
    let mut p = example_params();
    p.kappa = 0;
    assert!(!p.is_well_formed());
    let mut p = example_params();
    p.r_vals[0] = 0;
    assert!(!p.is_well_formed());
    let mut p = example_params();
    p.a.rows = 3;
    assert!(!p.is_well_formed());
    let mut p = example_params();
    p.n = usize::MAX / 2;
    assert!(!p.is_well_formed());
}

#[test]
fn next_witness_single_lane_folds_long_openings() {
    let p = small_params();
    let w = Witness { s_j: vec![vecf(&[1, 2, 3])], f: vecf(&[7, 8, 9]) };
    let w2 = next_witness(&p, &w, &challenge(&[4, 5, 6])).unwrap();
    assert_eq!(w2.s_j.len(), 1);
    assert_eq!(w2.s_j[0], vecf(&[32]));
    assert_eq!(w2.f, vecf(&[28, 40, 54]));
}

#[test]
fn next_witness_empty_opening_with_several_lanes() {
    let mut p = small_params();
    p.kappa = 2;
    let w = Witness { s_j: vec![vecf(&[])], f: vecf(&[5]) };
    let w2 = next_witness(&p, &w, &challenge(&[])).unwrap();
    assert_eq!(w2.s_j[0], vecf(&[0, 0]));
    assert_eq!(w2.f, vecf(&[0]));
}

#[test]
fn altered_entry_beyond_the_cut_widths_goes_unnoticed() {
    // kappa = 1, n = 8: the digest and each opening keep only 4 entries, so a
    // change to entry 7 of f (still a binary digit) leaves them all unchanged.
    let p = CommitmentParams {
        q: Fe::one(),
        a: MatF::identity(1),
        r_vals: vec![4],
        ell: 1,
        betas: vec![fe(5)],
        kappa: 1,
        tau: 1,
        n: 8,
    };
    let f = gadget_matrix(8).custom_mul_vec(&vecf(&[1, 0, 1, 1, 0, 1, 0, 0]));
    let mut c = commit_section4(&p, &f).unwrap();
    assert_eq!(open_section4(&p, &c), Ok(true));
    c.f.data[7] = fe(128);
    assert_eq!(open_section4(&p, &c), Ok(true));
}
