//! nalgebra's dense matrix storage, held behind wrappers. The verifier sees a
//! dense matrix through two names: its shape and its entries in row-major
//! order, as field values.
use crate::field::Fe;
use crate::linalg::{mat_identity, mat_kron, mat_transpose, RingMat};
use nalgebra::DMatrix;
use vstd::prelude::*;

verus! {

/// An nalgebra dense matrix of field elements.
#[verifier::external_body]
#[derive(Debug)]
pub struct DenseMat {
    m: DMatrix<Fe>,
}

/// The number of rows and columns of a dense matrix.
pub uninterp spec fn dense_shape(m: DenseMat) -> (nat, nat);

/// The entries of a dense matrix in row-major order, as field values.
pub uninterp spec fn dense_entries(m: DenseMat) -> Seq<int>;

/// A dense matrix as mathematics sees it.
pub open spec fn dense_view(m: DenseMat) -> RingMat {
    RingMat { rows: dense_shape(m).0, cols: dense_shape(m).1, entries: dense_entries(m) }
}

/// Relies on `DMatrix::from_row_slice`: a `rows × cols` matrix filled row by
/// row; it panics unless the slice holds `rows * cols` entries.
#[verifier::external_body]
pub(crate) fn dense_from_rows(rows: usize, cols: usize, data: &Vec<Fe>) -> (r: DenseMat)
    requires
        data@.len() == rows * cols,
    ensures
        dense_shape(r) == (rows as nat, cols as nat),
        dense_entries(r) == data@.map_values(|x: Fe| x@),
{
    DenseMat { m: DMatrix::from_row_slice(rows, cols, data) }
}

/// Relies on `DMatrix::from_element`: every entry is `e`.
#[verifier::external_body]
pub(crate) fn dense_from_element(rows: usize, cols: usize, e: Fe) -> (r: DenseMat)
    requires
        rows * cols <= usize::MAX,
    ensures
        dense_shape(r) == (rows as nat, cols as nat),
        dense_entries(r) == Seq::new((rows * cols) as nat, |k: int| e@),
{
    DenseMat { m: DMatrix::from_element(rows, cols, e) }
}

/// Relies on `DMatrix::identity`: ones (`One::one` of `Fe`) on the diagonal,
/// zeros (`Zero::zero` of `Fe`) elsewhere.
#[verifier::external_body]
pub(crate) fn dense_identity(n: usize) -> (r: DenseMat)
    requires
        n * n <= usize::MAX,
    ensures
        dense_view(r) == mat_identity(n as nat),
{
    DenseMat { m: DMatrix::identity(n, n) }
}

/// Relies on indexing a `DMatrix` by `(row, column)`, which panics out of range.
#[verifier::external_body]
pub(crate) fn dense_get(m: &DenseMat, r: usize, c: usize) -> (v: Fe)
    requires
        r < dense_shape(*m).0,
        c < dense_shape(*m).1,
    ensures
        v@ == dense_entries(*m)[r * dense_shape(*m).1 + c],
{
    m.m[(r, c)]
}

/// Relies on `Matrix::shape`; nalgebra's storage is a `Vec` of exactly
/// `rows * cols` entries.
#[verifier::external_body]
pub(crate) fn dense_dims(m: &DenseMat) -> (r: (usize, usize))
    ensures
        dense_shape(*m) == (r.0 as nat, r.1 as nat),
        dense_entries(*m).len() == r.0 * r.1,
        r.0 * r.1 <= usize::MAX,
{
    m.m.shape()
}

/// Relies on `Matrix::kronecker`: entry `(i1 * b.rows + i2, j1 * b.cols + j2)`
/// is `a[i1, j1] * b[i2, j2]`, the product of `Fe`'s `Mul`.
#[verifier::external_body]
pub(crate) fn dense_kronecker(a: &DenseMat, b: &DenseMat) -> (r: DenseMat)
    requires
        dense_shape(*a).0 * dense_shape(*b).0 <= usize::MAX,
        dense_shape(*a).1 * dense_shape(*b).1 <= usize::MAX,
        dense_shape(*a).0 * dense_shape(*b).0 * (dense_shape(*a).1 * dense_shape(*b).1) <= usize::MAX,
    ensures
        dense_view(r) == mat_kron(dense_view(*a), dense_view(*b)),
{
    DenseMat { m: a.m.kronecker(&b.m) }
}

/// Relies on `Matrix::transpose`.
#[verifier::external_body]
pub(crate) fn dense_transpose(a: &DenseMat) -> (r: DenseMat)
    ensures
        dense_view(r) == mat_transpose(dense_view(*a)),
{
    DenseMat { m: a.m.transpose() }
}

/// Relies on `Clone` of `DMatrix`: the same shape and entries.
#[verifier::external_body]
pub(crate) fn dense_clone(a: &DenseMat) -> (r: DenseMat)
    ensures
        dense_shape(r) == dense_shape(*a),
        dense_entries(r) == dense_entries(*a),
{
    DenseMat { m: a.m.clone() }
}

} // verus!
