//! The binary image that boundaries are read out of.

use crate::geometry::Error;
use crate::raster::{check_alloc, fits_alloc, Raster};
use vstd::prelude::*;

verus! {

/// A two-dimensional array of `u8` cells, `rows` by `cols`, addressed by row
/// and column. A cell that holds 0 is background, any other is foreground.
#[derive(Debug, PartialEq, Eq)]
#[verifier::external_body]
pub struct Mask {
    cells: ndarray::Array2<u8>,
}

/// The rows of a mask, each a sequence of cell values.
pub uninterp spec fn mask_cells(mask: Mask) -> Seq<Seq<u8>>;

/// The number of columns of a mask.
pub uninterp spec fn mask_cols(mask: Mask) -> nat;

/// `ndarray::Array2::<u8>::zeros`: an array of the given shape with 0 in
/// every cell. The shapes on which it panics, those whose size overflows
/// `isize`, are left out.
#[verifier::external_body]
pub(crate) fn mask_zeros(rows: usize, cols: usize) -> (r: Mask)
    requires
        fits_alloc(rows as int, cols as int, 1),
    ensures
        mask_cells(r) == Seq::new(rows as nat, |i: int| Seq::new(cols as nat, |j: int| 0u8)),
        mask_cols(r) == cols,
{
    Mask { cells: ndarray::Array2::<u8>::zeros((rows, cols)) }
}

/// `ndarray::ArrayBase::dim` on a two-dimensional array: the number of rows
/// and the number of columns; every row has that many cells.
#[verifier::external_body]
pub(crate) fn mask_dim(mask: &Mask) -> (r: (usize, usize))
    ensures
        r.0 == mask_cells(*mask).len(),
        r.1 == mask_cols(*mask),
        forall|i: int|
            0 <= i < mask_cells(*mask).len() ==> (#[trigger] mask_cells(*mask)[i]).len()
                == r.1,
{
    mask.cells.dim()
}

/// Indexing an `ndarray::Array2` with `[row, col]`: the value of that cell.
/// Indices outside the array, on which it panics, are left out.
#[verifier::external_body]
pub(crate) fn mask_get(mask: &Mask, row: usize, col: usize) -> (r: u8)
    requires
        row < mask_cells(*mask).len(),
        col < mask_cols(*mask),
    ensures
        r == mask_cells(*mask)[row as int][col as int],
{
    mask.cells[[row, col]]
}

/// Assigning through the index `[row, col]` of an `ndarray::Array2`: that
/// cell takes the value, every other cell and the shape stay. Indices
/// outside the array, on which it panics, are left out.
#[verifier::external_body]
pub(crate) fn mask_set(mask: &mut Mask, row: usize, col: usize, value: u8)
    requires
        row < mask_cells(*old(mask)).len(),
        col < mask_cols(*old(mask)),
    ensures
        mask_cells(*final(mask)) == mask_cells(*old(mask)).update(
            row as int,
            mask_cells(*old(mask))[row as int].update(col as int, value),
        ),
        mask_cols(*final(mask)) == mask_cols(*old(mask)),
{
    mask.cells[[row, col]] = value;
}

impl View for Mask {
    type V = Raster<u8>;

    open spec fn view(&self) -> Raster<u8> {
        Raster { cells: mask_cells(*self), cols: mask_cols(*self) }
    }
}

impl Mask {
    /// An all-zero mask of the given shape, or a refusal where a mask of
    /// that size cannot be allocated.
    pub fn zeros(rows: usize, cols: usize) -> (r: Result<Mask, Error>)
        ensures
            fits_alloc(rows as int, cols as int, 1) ==> r.is_ok() && r.unwrap()@ == Raster::filled(
                rows as nat,
                cols as nat,
                0u8,
            ),
            !fits_alloc(rows as int, cols as int, 1) ==> r.is_err() && r.unwrap_err()
                == Error::InvalidArgument,
    {
        if check_alloc(rows, cols, 1) {
            Ok(mask_zeros(rows, cols))
        } else {
            Err(Error::InvalidArgument)
        }
    }

    /// Number of rows and number of columns.
    pub fn dim(&self) -> (r: (usize, usize))
        ensures
            r.0 == self@.rows(),
            r.1 == self@.cols,
            self@.wf(),
    {
        mask_dim(self)
    }

    /// The value at `(row, col)`, or `None` outside the mask.
    pub fn get(&self, row: usize, col: usize) -> (r: Option<u8>)
        ensures
            self@.wf(),
            r == if self@.has(row as int, col as int) {
                Some(self@.at(row as int, col as int))
            } else {
                None
            },
    {
        let shape: (usize, usize) = mask_dim(self);
        if row < shape.0 && col < shape.1 {
            Some(mask_get(self, row, col))
        } else {
            None
        }
    }

    /// Stores `value` at `(row, col)`; outside the mask nothing changes
    /// and the call is refused.
    pub fn set(&mut self, row: usize, col: usize, value: u8) -> (r: Result<(), Error>)
        ensures
            final(self)@.wf(),
            old(self)@.has(row as int, col as int) ==> r.is_ok() && final(self)@ == old(self)@.with(
                row as int,
                col as int,
                value,
            ),
            !old(self)@.has(row as int, col as int) ==> r.is_err() && r.unwrap_err()
                == Error::InvalidArgument && final(self)@ == old(self)@,
    {
        let shape: (usize, usize) = mask_dim(self);
        if row < shape.0 && col < shape.1 {
            mask_set(self, row, col, value);
            Ok(())
        } else {
            Err(Error::InvalidArgument)
        }
    }
}

} // verus!
