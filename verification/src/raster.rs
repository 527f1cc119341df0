//! The mathematical model shared by the three grids of the library.

use vstd::prelude::*;

verus! {

/// A rectangular grid of values: `cells[row][col]`, with `cols` columns in
/// every row. The column count is kept apart so that a grid without rows
/// still has a shape.
pub struct Raster<T> {
    pub cells: Seq<Seq<T>>,
    pub cols: nat,
}

impl<T> Raster<T> {
    /// Number of rows.
    pub open spec fn rows(self) -> nat {
        self.cells.len()
    }

    /// Every row has `cols` cells.
    pub open spec fn wf(self) -> bool {
        forall|r: int| 0 <= r < self.cells.len() ==> (#[trigger] self.cells[r]).len() == self.cols
    }

    /// True when `(row, col)` names a cell of the grid.
    pub open spec fn has(self, row: int, col: int) -> bool {
        0 <= row < self.rows() && 0 <= col < self.cols
    }

    /// The value at `(row, col)`.
    pub open spec fn at(self, row: int, col: int) -> T {
        self.cells[row][col]
    }

    /// The grid with the value at `(row, col)` replaced.
    pub open spec fn with(self, row: int, col: int, value: T) -> Raster<T> {
        Raster { cells: self.cells.update(row, self.cells[row].update(col, value)), cols: self.cols }
    }

    /// The grid with the value at `(row, col)` replaced, or the grid itself
    /// where `(row, col)` names no cell.
    pub open spec fn put(self, row: int, col: int, value: T) -> Raster<T> {
        if self.has(row, col) {
            self.with(row, col, value)
        } else {
            self
        }
    }

    /// The grid of the given shape that holds `value` everywhere.
    pub open spec fn filled(rows: nat, cols: nat, value: T) -> Raster<T> {
        Raster { cells: Seq::new(rows, |r: int| Seq::new(cols, |c: int| value)), cols }
    }

    /// True when both grids have the same number of rows and of columns.
    pub open spec fn same_shape<U>(self, other: Raster<U>) -> bool {
        self.rows() == other.rows() && self.cols == other.cols
    }
}

/// True when an array of `rows` by `cols` cells of `bytes` bytes each can be
/// allocated: neither side nor the whole size in bytes exceeds `isize::MAX`.
pub open spec fn fits_alloc(rows: int, cols: int, bytes: int) -> bool {
    rows <= isize::MAX && cols <= isize::MAX && rows * cols * bytes <= isize::MAX
}

/// Decides `fits_alloc`.
pub(crate) fn check_alloc(rows: usize, cols: usize, bytes: usize) -> (r: bool)
    requires
        bytes >= 1,
    ensures
        r == fits_alloc(rows as int, cols as int, bytes as int),
{
    let top: usize = isize::MAX as usize;
    if rows > top || cols > top {
        return false;
    }
    assert(rows * cols * bytes >= rows * cols && rows * cols >= 0 && (rows > 0 ==> rows * cols
        >= cols) && (cols > 0 ==> rows * cols >= rows)) by (nonlinear_arith)
        requires
            bytes >= 1,
    ;
    match rows.checked_mul(cols) {
        Some(cells) => match cells.checked_mul(bytes) {
            Some(size) => size <= top,
            None => false,
        },
        None => false,
    }
}

} // verus!
