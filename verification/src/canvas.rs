//! The canvas that rings are drawn into.

use crate::geometry::Error;
use crate::raster::{check_alloc, fits_alloc, Raster};
use vstd::prelude::*;

verus! {

/// A two-dimensional array of `u64` cells, `rows` by `cols`, addressed by
/// row and column.
#[derive(Debug, PartialEq, Eq)]
#[verifier::external_body]
pub struct Canvas {
    cells: ndarray::Array2<u64>,
}

/// The rows of a canvas, each a sequence of cell values.
pub uninterp spec fn canvas_cells(canvas: Canvas) -> Seq<Seq<u64>>;

/// The number of columns of a canvas.
pub uninterp spec fn canvas_cols(canvas: Canvas) -> nat;

/// `ndarray::Array2::<u64>::zeros`: an array of the given shape with 0 in
/// every cell. The shapes on which it panics, those whose size overflows
/// `isize`, are left out.
#[verifier::external_body]
pub(crate) fn canvas_zeros(rows: usize, cols: usize) -> (r: Canvas)
    requires
        fits_alloc(rows as int, cols as int, 8),
    ensures
        canvas_cells(r) == Seq::new(rows as nat, |i: int| Seq::new(cols as nat, |j: int| 0u64)),
        canvas_cols(r) == cols,
{
    Canvas { cells: ndarray::Array2::<u64>::zeros((rows, cols)) }
}

/// `ndarray::ArrayBase::dim` on a two-dimensional array: the number of rows
/// and the number of columns; every row has that many cells.
#[verifier::external_body]
pub(crate) fn canvas_dim(canvas: &Canvas) -> (r: (usize, usize))
    ensures
        r.0 == canvas_cells(*canvas).len(),
        r.1 == canvas_cols(*canvas),
        forall|i: int|
            0 <= i < canvas_cells(*canvas).len() ==> (#[trigger] canvas_cells(*canvas)[i]).len()
                == r.1,
{
    canvas.cells.dim()
}

/// Indexing an `ndarray::Array2` with `[row, col]`: the value of that cell.
/// Indices outside the array, on which it panics, are left out.
#[verifier::external_body]
pub(crate) fn canvas_get(canvas: &Canvas, row: usize, col: usize) -> (r: u64)
    requires
        row < canvas_cells(*canvas).len(),
        col < canvas_cols(*canvas),
    ensures
        r == canvas_cells(*canvas)[row as int][col as int],
{
    canvas.cells[[row, col]]
}

/// Assigning through the index `[row, col]` of an `ndarray::Array2`: that
/// cell takes the value, every other cell and the shape stay. Indices
/// outside the array, on which it panics, are left out.
#[verifier::external_body]
pub(crate) fn canvas_set(canvas: &mut Canvas, row: usize, col: usize, value: u64)
    requires
        row < canvas_cells(*old(canvas)).len(),
        col < canvas_cols(*old(canvas)),
    ensures
        canvas_cells(*final(canvas)) == canvas_cells(*old(canvas)).update(
            row as int,
            canvas_cells(*old(canvas))[row as int].update(col as int, value),
        ),
        canvas_cols(*final(canvas)) == canvas_cols(*old(canvas)),
{
    canvas.cells[[row, col]] = value;
}

impl View for Canvas {
    type V = Raster<u64>;

    open spec fn view(&self) -> Raster<u64> {
        Raster { cells: canvas_cells(*self), cols: canvas_cols(*self) }
    }
}

impl Canvas {
    /// An all-zero canvas of the given shape, or a refusal where a canvas of
    /// that size cannot be allocated.
    pub fn zeros(rows: usize, cols: usize) -> (r: Result<Canvas, Error>)
        ensures
            fits_alloc(rows as int, cols as int, 8) ==> r.is_ok() && r.unwrap()@ == Raster::filled(
                rows as nat,
                cols as nat,
                0u64,
            ),
            !fits_alloc(rows as int, cols as int, 8) ==> r.is_err() && r.unwrap_err()
                == Error::InvalidArgument,
    {
        if check_alloc(rows, cols, 8) {
            Ok(canvas_zeros(rows, cols))
        } else {
            Err(Error::InvalidArgument)
        }
    }

    /// Number of rows and number of columns.
    pub fn dim(&self) -> (r: (usize, usize))
        ensures
            r.0 == self@.rows(),
            r.1 == self@.cols,
            self@.wf(),
    {
        canvas_dim(self)
    }

    /// The value at `(row, col)`, or `None` outside the canvas.
    pub fn get(&self, row: usize, col: usize) -> (r: Option<u64>)
        ensures
            self@.wf(),
            r == if self@.has(row as int, col as int) {
                Some(self@.at(row as int, col as int))
            } else {
                None
            },
    {
        let shape: (usize, usize) = canvas_dim(self);
        if row < shape.0 && col < shape.1 {
            Some(canvas_get(self, row, col))
        } else {
            None
        }
    }

    /// Stores `value` at `(row, col)`; outside the canvas nothing changes
    /// and the call is refused.
    pub fn set(&mut self, row: usize, col: usize, value: u64) -> (r: Result<(), Error>)
        ensures
            final(self)@.wf(),
            old(self)@.has(row as int, col as int) ==> r.is_ok() && final(self)@ == old(self)@.with(
                row as int,
                col as int,
                value,
            ),
            !old(self)@.has(row as int, col as int) ==> r.is_err() && r.unwrap_err()
                == Error::InvalidArgument && final(self)@ == old(self)@,
    {
        let shape: (usize, usize) = canvas_dim(self);
        if row < shape.0 && col < shape.1 {
            canvas_set(self, row, col, value);
            Ok(())
        } else {
            Err(Error::InvalidArgument)
        }
    }
}

} // verus!
