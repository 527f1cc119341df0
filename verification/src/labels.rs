//! The grid of contour labels that tracing fills in.

use crate::geometry::Error;
use crate::raster::{check_alloc, fits_alloc, Raster};
use vstd::prelude::*;

verus! {

/// A two-dimensional array of `i8` cells, `rows` by `cols`, addressed by row
/// and column: 0 for a cell without label, a positive contour id, or -1 for
/// a background cell that a boundary walk has looked at.
#[derive(Debug, PartialEq, Eq)]
#[verifier::external_body]
pub struct LabelGrid {
    cells: ndarray::Array2<i8>,
}

/// The rows of a grid, each a sequence of cell values.
pub uninterp spec fn grid_cells(grid: LabelGrid) -> Seq<Seq<i8>>;

/// The number of columns of a grid.
pub uninterp spec fn grid_cols(grid: LabelGrid) -> nat;

/// `ndarray::Array2::<i8>::zeros`: an array of the given shape with 0 in
/// every cell. The shapes on which it panics, those whose size overflows
/// `isize`, are left out.
#[verifier::external_body]
pub(crate) fn grid_zeros(rows: usize, cols: usize) -> (r: LabelGrid)
    requires
        fits_alloc(rows as int, cols as int, 1),
    ensures
        grid_cells(r) == Seq::new(rows as nat, |i: int| Seq::new(cols as nat, |j: int| 0i8)),
        grid_cols(r) == cols,
{
    LabelGrid { cells: ndarray::Array2::<i8>::zeros((rows, cols)) }
}

/// `ndarray::ArrayBase::dim` on a two-dimensional array: the number of rows
/// and the number of columns; every row has that many cells.
#[verifier::external_body]
pub(crate) fn grid_dim(grid: &LabelGrid) -> (r: (usize, usize))
    ensures
        r.0 == grid_cells(*grid).len(),
        r.1 == grid_cols(*grid),
        forall|i: int|
            0 <= i < grid_cells(*grid).len() ==> (#[trigger] grid_cells(*grid)[i]).len()
                == r.1,
{
    grid.cells.dim()
}

/// Indexing an `ndarray::Array2` with `[row, col]`: the value of that cell.
/// Indices outside the array, on which it panics, are left out.
#[verifier::external_body]
pub(crate) fn grid_get(grid: &LabelGrid, row: usize, col: usize) -> (r: i8)
    requires
        row < grid_cells(*grid).len(),
        col < grid_cols(*grid),
    ensures
        r == grid_cells(*grid)[row as int][col as int],
{
    grid.cells[[row, col]]
}

/// Assigning through the index `[row, col]` of an `ndarray::Array2`: that
/// cell takes the value, every other cell and the shape stay. Indices
/// outside the array, on which it panics, are left out.
#[verifier::external_body]
pub(crate) fn grid_set(grid: &mut LabelGrid, row: usize, col: usize, value: i8)
    requires
        row < grid_cells(*old(grid)).len(),
        col < grid_cols(*old(grid)),
    ensures
        grid_cells(*final(grid)) == grid_cells(*old(grid)).update(
            row as int,
            grid_cells(*old(grid))[row as int].update(col as int, value),
        ),
        grid_cols(*final(grid)) == grid_cols(*old(grid)),
{
    grid.cells[[row, col]] = value;
}

impl View for LabelGrid {
    type V = Raster<i8>;

    open spec fn view(&self) -> Raster<i8> {
        Raster { cells: grid_cells(*self), cols: grid_cols(*self) }
    }
}

impl LabelGrid {
    /// An all-zero grid of the given shape, or a refusal where a grid of
    /// that size cannot be allocated.
    pub fn zeros(rows: usize, cols: usize) -> (r: Result<LabelGrid, Error>)
        ensures
            fits_alloc(rows as int, cols as int, 1) ==> r.is_ok() && r.unwrap()@ == Raster::filled(
                rows as nat,
                cols as nat,
                0i8,
            ),
            !fits_alloc(rows as int, cols as int, 1) ==> r.is_err() && r.unwrap_err()
                == Error::InvalidArgument,
    {
        if check_alloc(rows, cols, 1) {
            Ok(grid_zeros(rows, cols))
        } else {
            Err(Error::InvalidArgument)
        }
    }

    /// Number of rows and number of columns.
    pub fn dim(&self) -> (r: (usize, usize))
        ensures
            r.0 == self@.rows(),
            r.1 == self@.cols,
            self@.wf(),
    {
        grid_dim(self)
    }

    /// The value at `(row, col)`, or `None` outside the grid.
    pub fn get(&self, row: usize, col: usize) -> (r: Option<i8>)
        ensures
            self@.wf(),
            r == if self@.has(row as int, col as int) {
                Some(self@.at(row as int, col as int))
            } else {
                None
            },
    {
        let shape: (usize, usize) = grid_dim(self);
        if row < shape.0 && col < shape.1 {
            Some(grid_get(self, row, col))
        } else {
            None
        }
    }

    /// Stores `value` at `(row, col)`; outside the grid nothing changes
    /// and the call is refused.
    pub fn set(&mut self, row: usize, col: usize, value: i8) -> (r: Result<(), Error>)
        ensures
            final(self)@.wf(),
            old(self)@.has(row as int, col as int) ==> r.is_ok() && final(self)@ == old(self)@.with(
                row as int,
                col as int,
                value,
            ),
            !old(self)@.has(row as int, col as int) ==> r.is_err() && r.unwrap_err()
                == Error::InvalidArgument && final(self)@ == old(self)@,
    {
        let shape: (usize, usize) = grid_dim(self);
        if row < shape.0 && col < shape.1 {
            grid_set(self, row, col, value);
            Ok(())
        } else {
            Err(Error::InvalidArgument)
        }
    }
}

} // verus!
