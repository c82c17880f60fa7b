use lattice_fold::error::ProtocolError;
use lattice_fold::field::Fe;
use lattice_fold::gadget::{gadget_decompose, gadget_decompose_digits, gadget_matrix, generate_random_f};
use lattice_fold::linalg::{pad_vector, resize_to, MatF, VecF};

fn fe(x: u64) -> Fe {
    Fe::from_u64(x)
}

fn vecf(xs: &[u64]) -> VecF {
    VecF::new(xs.iter().map(|&x| fe(x)).collect())
}

fn matf(rows: usize, cols: usize, xs: &[u64]) -> MatF {
    MatF::new(rows, cols, xs.iter().map(|&x| fe(x)).collect())
}

/// The field element `p - 1`, where `p` is the BN254 scalar field's order.
fn minus_one() -> Fe {
    Fe { l0: 0x43e1f593f0000000, l1: 0x2833e84879b97091, l2: 0xb85045b68181585d, l3: 0x30644e72e131a029 }
}

#[test]
fn field_equality_is_by_value() {
    assert_eq!(fe(5), fe(5));
    assert_ne!(fe(5), fe(6));
    // The order itself names zero.
    let order = Fe { l0: 0x43e1f593f0000001, l1: 0x2833e84879b97091, l2: 0xb85045b68181585d, l3: 0x30644e72e131a029 };
    assert_eq!(order, Fe::zero());
}

#[test]
fn vector_add_wraps_around_the_modulus() {
    let a = VecF::new(vec![minus_one(), fe(3)]);
    let b = vecf(&[1, 4]);
    assert_eq!(a.add(&b), vecf(&[0, 7]));
}

#[test]
fn vector_mul_and_scalar_mul() {
    let a = vecf(&[2, 3, 0]);
    let b = vecf(&[5, 7, 9]);
    assert_eq!(a.mul(&b), vecf(&[10, 21, 0]));
    assert_eq!(a.scalar_mul(fe(4)), vecf(&[8, 12, 0]));
    // (p - 1) * (p - 1) = 1
    let m = VecF::new(vec![minus_one()]);
    assert_eq!(m.mul(&m), vecf(&[1]));
}

#[test]
fn vector_norm_is_largest_representative() {
    assert_eq!(vecf(&[3, 9, 4]).norm(), fe(9));
    assert_eq!(vecf(&[]).norm(), fe(0));
    assert_eq!(VecF::new(vec![fe(1), minus_one()]).norm(), minus_one());
}

#[test]
fn vector_zero_len_pad_resize() {
    assert_eq!(VecF::zero(3), vecf(&[0, 0, 0]));
    assert_eq!(vecf(&[1, 2]).len(), 2);
    assert_eq!(pad_vector(&vecf(&[1, 2]), 4), vecf(&[1, 2, 0, 0]));
    assert_eq!(pad_vector(&vecf(&[1, 2, 3]), 2), vecf(&[1, 2, 3]));
    assert_eq!(resize_to(&vecf(&[1, 2, 3]), 2), vecf(&[1, 2]));
    assert_eq!(resize_to(&vecf(&[1]), 3), vecf(&[1, 0, 0]));
}

#[test]
fn matrix_identity_zero_and_product() {
    let i = MatF::identity(2);
    assert_eq!(VecF::new(i.to_row_major()), vecf(&[1, 0, 0, 1]));
    let z = MatF::zero(2, 3);
    assert_eq!((z.rows, z.cols), (2, 3));
    assert_eq!(VecF::new(z.to_row_major()), vecf(&[0; 6]));
    let a = matf(2, 3, &[1, 2, 3, 4, 5, 6]);
    assert_eq!(a.custom_mul_vec(&vecf(&[1, 0, 2])), vecf(&[7, 16]));
}

#[test]
fn matrix_kronecker_product() {
    let a = matf(2, 2, &[1, 2, 3, 4]);
    let b = matf(1, 2, &[5, 6]);
    let k = a.kronecker_product(&b);
    assert_eq!((k.rows, k.cols), (2, 4));
    assert_eq!(VecF::new(k.to_row_major()), vecf(&[5, 6, 10, 12, 15, 18, 20, 24]));
}

#[test]
fn matrix_transpose() {
    let a = matf(2, 3, &[1, 2, 3, 4, 5, 6]);
    let t = a.transpose();
    assert_eq!((t.rows, t.cols), (3, 2));
    assert_eq!(VecF::new(t.to_row_major()), vecf(&[1, 4, 2, 5, 3, 6]));
}

#[test]
fn matrix_inverse_diagonal() {
    let d = matf(2, 2, &[2, 9, 9, 5]);
    let inv = d.inverse_diagonal().expect("invertible");
    // Off-diagonal entries are ignored; the product with the diagonal is one.
    let prod = VecF::new(inv.to_row_major()).mul(&vecf(&[2, 1, 1, 5]));
    assert_eq!(prod, vecf(&[1, 0, 0, 1]));
    assert!(matf(2, 2, &[1, 0, 0, 0]).inverse_diagonal().is_none());
    assert!(matf(1, 2, &[1, 1]).inverse_diagonal().is_none());
}

#[test]
fn gadget_matrix_has_powers_of_two() {
    let g = gadget_matrix(3);
    assert_eq!(VecF::new(g.to_row_major()), vecf(&[1, 0, 0, 0, 2, 0, 0, 0, 4]));
    let empty = gadget_matrix(0);
    assert_eq!((empty.rows, empty.cols, empty.to_row_major().len()), (0, 0, 0));
}

#[test]
fn gadget_round_trip_binary_digits() {
    let bits = vecf(&[1, 0, 1, 1, 0]);
    let encoded = gadget_matrix(5).custom_mul_vec(&bits);
    assert_eq!(encoded, vecf(&[1, 0, 4, 8, 0]));
    assert_eq!(gadget_decompose(&encoded, 5), Ok(bits));
}

#[test]
fn gadget_decompose_resizes_first() {
    assert_eq!(gadget_decompose(&vecf(&[1, 2, 4]), 2), Ok(vecf(&[1, 1])));
    assert_eq!(gadget_decompose(&vecf(&[0, 2]), 4), Ok(vecf(&[0, 1, 0, 0])));
}

#[test]
fn gadget_decompose_rejects_non_binary_digit() {
    assert_eq!(gadget_decompose(&vecf(&[1, 6]), 2), Err(ProtocolError::NonBinaryDigit));
    assert_eq!(gadget_decompose(&vecf(&[2]), 1), Err(ProtocolError::NonBinaryDigit));
}

#[test]
fn gadget_digits_divide_by_powers_of_two() {
    assert_eq!(gadget_decompose_digits(&vecf(&[5, 6, 40]), 3), vecf(&[5, 3, 10]));
    let d = gadget_decompose_digits(&vecf(&[1, 1]), 2);
    // The second digit is one half in the field.
    assert_eq!(d.mul(&vecf(&[1, 2])), vecf(&[1, 1]));
}

#[test]
fn random_f_is_gadget_encoded_binary() {
    let f = generate_random_f(8);
    assert_eq!(f.len(), 8);
    let bits = gadget_decompose(&f, 8).expect("binary");
    for x in bits.data.iter() {
        assert!(*x == fe(0) || *x == fe(1));
    }
}

#[test]
fn matrix_entry_and_clone() {
    let a = matf(2, 3, &[1, 2, 3, 4, 5, 6]);
    assert_eq!(a.entry(1, 0), fe(4));
    assert_eq!(a.entry(0, 2), fe(3));
    let b = a.clone();
    assert_eq!(VecF::new(b.to_row_major()), vecf(&[1, 2, 3, 4, 5, 6]));
}
