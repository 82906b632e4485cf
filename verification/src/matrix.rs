//! A rectangular table of characters, stored by `ndarray`.
//!
//! Nothing in this file is proved: it states what the `ndarray` calls that the
//! rest of the crate relies on do.

use vstd::prelude::*;

verus! {

/// A two-dimensional array of characters in row-major order, held in an
/// `ndarray::Array2<char>`.
#[verifier::external_body]
pub struct CharMatrix {
    inner: ndarray::Array2<char>,
}

/// The number of rows of the matrix.
pub uninterp spec fn matrix_rows(m: CharMatrix) -> nat;

/// The number of columns of the matrix.
pub uninterp spec fn matrix_cols(m: CharMatrix) -> nat;

/// The items of the matrix, row after row.
pub uninterp spec fn matrix_items(m: CharMatrix) -> Seq<char>;

/// The error of `ndarray` for a shape that does not fit the data.
#[verifier::external_type_specification]
#[verifier::external_body]
pub struct ExShapeError(ndarray::ShapeError);

/// `ndarray::Array2::from_shape_vec` with a shape of `rows` by `cols`, both
/// positive, and the default (row-major) strides. It succeeds exactly when
/// the shape holds as many items as the vector and that number does not exceed
/// `isize::MAX`; the array then has that shape and holds the vector's items in
/// their order.
#[verifier::external_body]
pub(crate) fn matrix_from_shape_vec(
    rows: usize,
    cols: usize,
    items: Vec<char>,
) -> (r: Result<CharMatrix, ndarray::ShapeError>)
    requires
        rows > 0,
        cols > 0,
    ensures
        r.is_ok() == (rows * cols == items@.len() && rows * cols <= isize::MAX),
        (match r {
            Ok(m) => matrix_rows(m) == rows && matrix_cols(m) == cols && matrix_items(m)
                == items@,
            Err(_) => true,
        }),
{
    match ndarray::Array2::from_shape_vec((rows, cols), items) {
        Ok(inner) => Ok(CharMatrix { inner }),
        Err(e) => Err(e),
    }
}

/// `ndarray::ArrayBase::get` with a pair of indices: the item at that row and
/// column, or `None` when either index is out of bounds.
#[verifier::external_body]
pub(crate) fn matrix_get(m: &CharMatrix, row: usize, col: usize) -> (r: Option<char>)
    ensures
        r == (if row < matrix_rows(*m) && col < matrix_cols(*m) {
            Some(matrix_items(*m)[row * matrix_cols(*m) + col])
        } else {
            None
        }),
{
    m.inner.get((row, col)).copied()
}

} // verus!
