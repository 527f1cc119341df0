//! The rasterizer: draws the outlines of closed rings into a canvas, and
//! replaces the canvas by one that fits when a ring does not.

use crate::canvas::{canvas_set, canvas_zeros, Canvas};
use crate::geometry::{
    fits_i64,
    lemma_bounds_of_tight,
    lemma_union_of_tight,
    union_of,
    Error,
    Extents,
    Point,
};
use crate::line::{
    bresenham,
    cell_hits,
    lemma_line_point_within,
    line_cells,
    line_point,
    on_line,
    on_line_upto,
};
use crate::polygon::{
    copy_points,
    path_views,
    ring_boxes,
    ring_views,
    Polygon,
    PolygonView,
};
use crate::raster::{check_alloc, fits_alloc, Raster};
use vstd::prelude::*;

verus! {

/// True when the edge from point `i` of a ring to the next passes through
/// the cell in column `x` and row `y`.
pub open spec fn edge_hits(points: Seq<Point>, i: int, x: int, y: int) -> bool {
    on_line(points[i], points[i + 1], x, y)
}

/// True when one of the first `m` edges of a ring passes through the cell in
/// column `x` and row `y`.
pub open spec fn on_ring_upto(points: Seq<Point>, m: int, x: int, y: int) -> bool {
    exists|i: int| 0 <= i < m && #[trigger] edge_hits(points, i, x, y)
}

/// True when the outline of a ring, the edges between consecutive points,
/// passes through the cell in column `x` and row `y`.
pub open spec fn on_ring(points: Seq<Point>, x: int, y: int) -> bool {
    on_ring_upto(points, points.len() - 1, x, y)
}

/// True when the outline of one of the first `m` rings passes through the
/// cell in column `x` and row `y`.
pub open spec fn on_rings_upto(rings: Seq<PolygonView>, m: int, x: int, y: int) -> bool {
    exists|r: int| 0 <= r < m && #[trigger] on_ring(rings[r].points, x, y)
}

/// True when the outline of one of the rings passes through the cell in
/// column `x` and row `y`.
pub open spec fn on_rings(rings: Seq<PolygonView>, x: int, y: int) -> bool {
    on_rings_upto(rings, rings.len() as int, x, y)
}

/// The canvas `base` with 1 in every cell that an outline of `rings` passes
/// through, and every other cell as it was.
pub open spec fn painted(base: Raster<u64>, rings: Seq<PolygonView>) -> Raster<u64> {
    Raster {
        cells: Seq::new(
            base.rows(),
            |row: int|
                Seq::new(
                    base.cols,
                    |col: int|
                        if on_rings(rings, col, row) {
                            1u64
                        } else {
                            base.cells[row][col]
                        },
                ),
        ),
        cols: base.cols,
    }
}

/// True when `p` names a cell of `grid`.
pub open spec fn inside(grid: Raster<u64>, p: Point) -> bool {
    grid.has(p.y as int, p.x as int)
}

/// Sets every cell of the line from `p1` to `p2` to 1.
fn draw_line(canvas: &mut Canvas, p1: Point, p2: Point)
    requires
        old(canvas)@.wf(),
        old(canvas)@.rows() <= usize::MAX,
        old(canvas)@.cols <= usize::MAX,
        inside(old(canvas)@, p1),
        inside(old(canvas)@, p2),
    ensures
        final(canvas)@.wf(),
        final(canvas)@.same_shape(old(canvas)@),
        forall|row: int, col: int|
            old(canvas)@.has(row, col) ==> #[trigger] final(canvas)@.at(row, col) == if on_line(
                p1,
                p2,
                col,
                row,
            ) {
                1u64
            } else {
                old(canvas)@.at(row, col)
            },
{
    let line: Vec<Point> = bresenham(p1, p2);
    let ghost base: Raster<u64> = canvas@;
    let mut k: usize = 0;
    while k < line.len()
        invariant
            line@ == line_cells(p1, p2),
            k <= line@.len(),
            base.wf(),
            base.rows() <= usize::MAX,
            base.cols <= usize::MAX,
            canvas@.wf(),
            canvas@.same_shape(base),
            inside(base, p1),
            inside(base, p2),
            forall|row: int, col: int|
                base.has(row, col) ==> #[trigger] canvas@.at(row, col) == if on_line_upto(
                    p1,
                    p2,
                    k as int,
                    col,
                    row,
                ) {
                    1u64
                } else {
                    base.at(row, col)
                },
        decreases line@.len() - k,
    {
        let cell: Point = line[k];
        let ghost before: Raster<u64> = canvas@;
        proof {
            assert(cell == line_cells(p1, p2)[k as int]);
            assert(cell == line_point(p1, p2, k as int));
            lemma_line_point_within(p1, p2, k as int);
            assert(inside(base, cell));
        }
        canvas_set(canvas, cell.y as usize, cell.x as usize, 1);
        proof {
            assert forall|row: int, col: int| base.has(row, col) implies #[trigger] canvas@.at(
                row,
                col,
            ) == if on_line_upto(p1, p2, k + 1, col, row) {
                1u64
            } else {
                base.at(row, col)
            } by {
                assert(before.at(row, col) == if on_line_upto(p1, p2, k as int, col, row) {
                    1u64
                } else {
                    base.at(row, col)
                });
                if cell.x == col && cell.y == row {
                    assert(cell_hits(p1, p2, k as int, col, row));
                } else {
                    assert(canvas@.cells == before.cells.update(
                        cell.y as int,
                        before.cells[cell.y as int].update(cell.x as int, 1u64),
                    ));
                    assert(before.has(row, col));
                    assert(before.cells[row].len() == before.cols);
                    assert(canvas@.at(row, col) == before.at(row, col));
                    if on_line_upto(p1, p2, k + 1, col, row) {
                        let h = choose|h: int| 0 <= h < k + 1 && cell_hits(p1, p2, h, col, row);
                        assert(h < k);
                    }
                }
            }
        }
        k += 1;
    }
}

/// Sets every cell on the outline of the ring `points` to 1.
fn draw_ring(canvas: &mut Canvas, points: &Vec<Point>)
    requires
        old(canvas)@.wf(),
        old(canvas)@.rows() <= usize::MAX,
        old(canvas)@.cols <= usize::MAX,
        forall|i: int| 0 <= i < points@.len() ==> inside(old(canvas)@, #[trigger] points@[i]),
    ensures
        final(canvas)@.wf(),
        final(canvas)@.same_shape(old(canvas)@),
        forall|row: int, col: int|
            old(canvas)@.has(row, col) ==> #[trigger] final(canvas)@.at(row, col) == if on_ring(
                points@,
                col,
                row,
            ) {
                1u64
            } else {
                old(canvas)@.at(row, col)
            },
{
    let ghost base: Raster<u64> = canvas@;
    if points.len() == 0 {
        return ;
    }
    let mut i: usize = 0;
    while i < points.len() - 1
        invariant
            points@.len() > 0,
            i <= points@.len() - 1,
            base.wf(),
            base.rows() <= usize::MAX,
            base.cols <= usize::MAX,
            canvas@.wf(),
            canvas@.same_shape(base),
            forall|j: int| 0 <= j < points@.len() ==> inside(base, #[trigger] points@[j]),
            forall|row: int, col: int|
                base.has(row, col) ==> #[trigger] canvas@.at(row, col) == if on_ring_upto(
                    points@,
                    i as int,
                    col,
                    row,
                ) {
                    1u64
                } else {
                    base.at(row, col)
                },
        decreases points@.len() - i,
    {
        let ghost before: Raster<u64> = canvas@;
        draw_line(canvas, points[i], points[i + 1]);
        proof {
            assert forall|row: int, col: int| base.has(row, col) implies #[trigger] canvas@.at(
                row,
                col,
            ) == if on_ring_upto(points@, i + 1, col, row) {
                1u64
            } else {
                base.at(row, col)
            } by {
                assert(before.at(row, col) == if on_ring_upto(points@, i as int, col, row) {
                    1u64
                } else {
                    base.at(row, col)
                });
                if on_line(points@[i as int], points@[i + 1], col, row) {
                    assert(edge_hits(points@, i as int, col, row));
                } else {
                    if on_ring_upto(points@, i + 1, col, row) {
                        let h = choose|h: int| 0 <= h < i + 1 && edge_hits(points@, h, col, row);
                        assert(h < i);
                    }
                }
            }
        }
        i += 1;
    }
}

/// True when one of the rings falls partly outside a `width` by `height`
/// canvas.
pub open spec fn any_outside(rings: Seq<PolygonView>, width: int, height: int) -> bool {
    exists|i: int| 0 <= i < rings.len() && (#[trigger] rings[i]).outside(width, height)
}

/// Every ring closed.
pub open spec fn close_all(rings: Seq<PolygonView>) -> Seq<PolygonView> {
    Seq::new(rings.len(), |i: int| rings[i].closed())
}

/// Every ring shifted by `(dx, dy)`.
pub open spec fn shift_all(rings: Seq<PolygonView>, dx: int, dy: int) -> Seq<PolygonView> {
    Seq::new(rings.len(), |i: int| rings[i].shifted_by(dx, dy))
}

/// True when a canvas that exactly covers the box `e` can be made, and the
/// shift that brings the box's minimum corner to the origin is a
/// machine value.
pub open spec fn resize_fits(e: Extents) -> bool {
    &&& e.min_x <= e.max_x
    &&& e.min_y <= e.max_y
    &&& fits_i64(-e.min_x)
    &&& fits_i64(-e.min_y)
    &&& e.width() <= usize::MAX
    &&& e.height() <= usize::MAX
    &&& fits_alloc(e.height(), e.width(), 8)
}

/// True when the canvas can be replaced by one that covers the box `e` and
/// every ring can be shifted into it.
pub open spec fn rebase_fits(e: Extents, rings: Seq<PolygonView>) -> bool {
    &&& resize_fits(e)
    &&& forall|i: int| 0 <= i < rings.len() ==> (#[trigger] rings[i]).can_shift(-e.min_x, -e.min_y)
}

/// What rasterizing `given` into `canvas` yields: the new canvas and the
/// rings as they are left, or `None` where it is refused.
///
/// Every ring is closed first. If all of them lie within the canvas, their
/// outlines are set to 1 in it. Otherwise the canvas is replaced by an
/// all-zero one that exactly covers the box spanning all rings, every ring is
/// shifted by the negative of that box's minimum corner, and the outlines
/// are set to 1 in the new canvas; this is refused where the new canvas or
/// the shift does not fit the machine.
pub open spec fn rasterized(canvas: Raster<u64>, given: Seq<PolygonView>) -> Option<
    (Raster<u64>, Seq<PolygonView>),
> {
    let rings = close_all(given);
    let e = union_of(ring_boxes(rings));
    if !any_outside(rings, canvas.cols as int, canvas.rows() as int) {
        Some((painted(canvas, rings), rings))
    } else if rebase_fits(e, rings) {
        let moved = shift_all(rings, -e.min_x, -e.min_y);
        Some((painted(Raster::filled(e.height() as nat, e.width() as nat, 0u64), moved), moved))
    } else {
        None
    }
}

/// The union of a single box is that box.
pub proof fn lemma_union_of_one(e: Extents)
    ensures
        union_of(seq![e]) == e,
{
    let boxes = seq![e];
    assert(boxes.drop_last() =~= Seq::<Extents>::empty());
    assert(union_of(boxes.drop_last()) == Extents::empty());
    assert(boxes.last() == e);
}

/// An all-zero canvas that exactly covers the box `e`, or `None` where
/// `resize_fits` does not hold.
fn canvas_covering(e: Extents) -> (r: Option<Canvas>)
    ensures
        resize_fits(e) ==> r.is_some() && r.unwrap()@ == Raster::filled(
            e.height() as nat,
            e.width() as nat,
            0u64,
        ),
        !resize_fits(e) ==> r.is_none(),
{
    if e.min_x > e.max_x || e.min_y > e.max_y || e.min_x == i64::MIN || e.min_y == i64::MIN {
        return None;
    }
    let width: i128 = e.max_x as i128 - e.min_x as i128 + 1;
    let height: i128 = e.max_y as i128 - e.min_y as i128 + 1;
    if width > usize::MAX as i128 || height > usize::MAX as i128 {
        return None;
    }
    if !check_alloc(height as usize, width as usize, 8) {
        return None;
    }
    Some(canvas_zeros(height as usize, width as usize))
}

/// The box that spans all the rings.
pub fn get_furthest_extents(polygons: &Vec<Polygon>) -> (r: Extents)
    ensures
        r == union_of(ring_boxes(ring_views(polygons@))),
{
    let ghost boxes: Seq<Extents> = ring_boxes(ring_views(polygons@));
    let mut min_x: i64 = i64::MAX;
    let mut min_y: i64 = i64::MAX;
    let mut max_x: i64 = i64::MIN;
    let mut max_y: i64 = i64::MIN;
    let mut i: usize = 0;
    while i < polygons.len()
        invariant
            i <= polygons@.len(),
            boxes == ring_boxes(ring_views(polygons@)),
            (Extents { min_x, min_y, max_x, max_y }) == union_of(boxes.take(i as int)),
        decreases polygons@.len() - i,
    {
        let extents: Extents = polygons[i].extents();
        proof {
            assert(boxes.take(i + 1).drop_last() =~= boxes.take(i as int));
            assert(boxes.take(i + 1).last() == extents);
        }
        if extents.min_x < min_x {
            min_x = extents.min_x;
        }
        if extents.min_y < min_y {
            min_y = extents.min_y;
        }
        if extents.max_x > max_x {
            max_x = extents.max_x;
        }
        if extents.max_y > max_y {
            max_y = extents.max_y;
        }
        i += 1;
    }
    assert(boxes.take(i as int) =~= boxes);
    Extents { min_x, min_y, max_x, max_y }
}

/// Replaces the canvas by an all-zero one that exactly covers the box
/// spanning all rings, and shifts every ring by the negative of that
/// box's minimum corner. Where that does not fit the machine, nothing is
/// changed and the call is refused.
pub fn get_new_mask(polygons: &mut Vec<Polygon>) -> (r: Result<Canvas, Error>)
    requires
        forall|i: int| 0 <= i < old(polygons)@.len() ==> (#[trigger] old(polygons)@[i]).wf(),
    ensures
        final(polygons)@.len() == old(polygons)@.len(),
        forall|i: int| 0 <= i < final(polygons)@.len() ==> (#[trigger] final(polygons)@[i]).wf(),
        ({
            let rings = ring_views(old(polygons)@);
            let e = union_of(ring_boxes(rings));
            if rebase_fits(e, rings) {
                &&& r.is_ok()
                &&& r.unwrap()@ == Raster::filled(e.height() as nat, e.width() as nat, 0u64)
                &&& ring_views(final(polygons)@) == shift_all(rings, -e.min_x, -e.min_y)
            } else {
                &&& r.is_err()
                &&& r.unwrap_err() == Error::InvalidArgument
                &&& ring_views(final(polygons)@) == rings
            }
        }),
{
    let ghost rings: Seq<PolygonView> = ring_views(polygons@);
    let extents: Extents = get_furthest_extents(polygons);
    let mask: Canvas = match canvas_covering(extents) {
        Some(mask) => mask,
        None => {
            return Err(Error::InvalidArgument);
        },
    };
    let dx: i64 = -extents.min_x;
    let dy: i64 = -extents.min_y;
    let n: usize = polygons.len();
    let mut i: usize = 0;
    while i < n
        invariant
            i <= n,
            n == polygons@.len(),
            polygons@ == old(polygons)@,
            rings == ring_views(polygons@),
            extents == union_of(ring_boxes(rings)),
            dx == -extents.min_x,
            dy == -extents.min_y,
            forall|j: int| 0 <= j < n ==> (#[trigger] polygons@[j]).wf(),
            forall|j: int| 0 <= j < i ==> (#[trigger] rings[j]).can_shift(dx as int, dy as int),
        decreases n - i,
    {
        if !polygons[i].can_shift(dx, dy) {
            assert(!rings[i as int].can_shift(dx as int, dy as int));
            return Err(Error::InvalidArgument);
        }
        assert(rings[i as int].can_shift(dx as int, dy as int));
        i += 1;
    }
    let mut k: usize = 0;
    while k < n
        invariant
            k <= n,
            n == polygons@.len(),
            n == rings.len(),
            forall|j: int| 0 <= j < n ==> (#[trigger] rings[j]).can_shift(dx as int, dy as int),
            forall|j: int| 0 <= j < n ==> (#[trigger] polygons@[j]).wf(),
            forall|j: int|
                0 <= j < k ==> (#[trigger] polygons@[j])@ == rings[j].shifted_by(
                    dx as int,
                    dy as int,
                ),
            forall|j: int| k <= j < n ==> (#[trigger] polygons@[j])@ == rings[j],
        decreases n - k,
    {
        let moved: Result<(), Error> = polygons[k].shift(dx, dy);
        assert(moved.is_ok());
        k += 1;
    }
    assert(ring_views(polygons@) =~= shift_all(rings, dx as int, dy as int));
    Ok(mask)
}

/// A canvas that agrees cell by cell with the painting of `base` is that
/// painting.
proof fn lemma_painted(grid: Raster<u64>, base: Raster<u64>, rings: Seq<PolygonView>)
    requires
        grid.wf(),
        base.wf(),
        grid.same_shape(base),
        forall|row: int, col: int|
            base.has(row, col) ==> #[trigger] grid.at(row, col) == if on_rings(rings, col, row) {
                1u64
            } else {
                base.at(row, col)
            },
    ensures
        grid == painted(base, rings),
{
    let want = painted(base, rings);
    assert(grid.cells =~= want.cells) by {
        assert forall|row: int| 0 <= row < grid.cells.len() implies grid.cells[row]
            =~= want.cells[row] by {
            assert forall|col: int| 0 <= col < grid.cells[row].len() implies grid.cells[row][col]
                == want.cells[row][col] by {
                assert(base.has(row, col));
                assert(grid.at(row, col) == grid.cells[row][col]);
            }
        }
    }
}

/// A well-formed ring that does not fall outside a canvas has all its points
/// in it.
proof fn lemma_ring_inside(ring: PolygonView, grid: Raster<u64>)
    requires
        ring.wf(),
        !ring.outside(grid.cols as int, grid.rows() as int),
    ensures
        forall|i: int| 0 <= i < ring.points.len() ==> inside(grid, #[trigger] ring.points[i]),
{
    lemma_bounds_of_tight(ring.points);
    assert forall|i: int| 0 <= i < ring.points.len() implies inside(
        grid,
        #[trigger] ring.points[i],
    ) by {
        assert(ring.extents.holds(ring.points[i]));
    }
}

/// Rings shifted so that the minimum corner of their common box comes to
/// the origin lie within the canvas that exactly covers that box.
proof fn lemma_rebased_inside(rings: Seq<PolygonView>, k: int)
    requires
        0 <= k < rings.len(),
        forall|i: int| 0 <= i < rings.len() ==> (#[trigger] rings[i]).wf(),
        rebase_fits(union_of(ring_boxes(rings)), rings),
    ensures
        ({
            let e = union_of(ring_boxes(rings));
            !rings[k].shifted_by(-e.min_x, -e.min_y).outside(e.width(), e.height())
        }),
{
    let boxes = ring_boxes(rings);
    lemma_union_of_tight(boxes);
    assert(boxes[k] == rings[k].extents);
    assert(rings[k].can_shift(-union_of(boxes).min_x, -union_of(boxes).min_y));
    lemma_bounds_of_tight(rings[k].points);
    assert(rings[k].extents.holds(rings[k].points[0]));
}

/// Draws the outlines of all the rings into `data` and returns the canvas.
/// Rings that are not closed are closed first. Where a ring does not lie
/// within `data`, the canvas is replaced and the rings are shifted as
/// `rasterized` says.
pub fn draw_polygons_rs(data: Canvas, polygons: &mut Vec<Polygon>) -> (r: Result<Canvas, Error>)
    requires
        forall|i: int| 0 <= i < old(polygons)@.len() ==> (#[trigger] old(polygons)@[i]).wf(),
    ensures
        data@.wf(),
        final(polygons)@.len() == old(polygons)@.len(),
        forall|i: int| 0 <= i < final(polygons)@.len() ==> (#[trigger] final(polygons)@[i]).wf(),
        match rasterized(data@, ring_views(old(polygons)@)) {
            Some((grid, rings)) => r.is_ok() && r.unwrap()@ == grid && ring_views(
                final(polygons)@,
            ) == rings,
            None => r.is_err() && r.unwrap_err() == Error::InvalidArgument && ring_views(
                final(polygons)@,
            ) == close_all(ring_views(old(polygons)@)),
        },
{
    let ghost given: Seq<PolygonView> = ring_views(polygons@);
    let ghost rings: Seq<PolygonView> = close_all(given);
    let n: usize = polygons.len();
    let mut i: usize = 0;
    while i < n
        invariant
            i <= n,
            n == polygons@.len(),
            n == given.len(),
            rings == close_all(given),
            forall|j: int| 0 <= j < n ==> (#[trigger] polygons@[j]).wf(),
            forall|j: int| 0 <= j < i ==> (#[trigger] polygons@[j])@ == rings[j],
            forall|j: int| i <= j < n ==> (#[trigger] polygons@[j])@ == given[j],
        decreases n - i,
    {
        polygons[i].close();
        i += 1;
    }
    assert(ring_views(polygons@) =~= rings);
    let shape: (usize, usize) = data.dim();
    let mut bounded: bool = false;
    let mut j: usize = 0;
    while j < n
        invariant
            j <= n,
            n == polygons@.len(),
            ring_views(polygons@) == rings,
            bounded == any_outside(rings.take(j as int), shape.1 as int, shape.0 as int),
        decreases n - j,
    {
        let ghost head: Seq<PolygonView> = rings.take(j as int);
        let ghost next: Seq<PolygonView> = rings.take(j + 1);
        let out: bool = polygons[j].out_of_bounds(shape.1, shape.0);
        proof {
            assert(rings[j as int] == polygons@[j as int]@);
            assert(next[j as int] == rings[j as int]);
            if any_outside(head, shape.1 as int, shape.0 as int) {
                let w = choose|w: int|
                    0 <= w < head.len() && (#[trigger] head[w]).outside(
                        shape.1 as int,
                        shape.0 as int,
                    );
                assert(next[w] == head[w]);
            }
            if any_outside(next, shape.1 as int, shape.0 as int) && !out {
                let w = choose|w: int|
                    0 <= w < next.len() && (#[trigger] next[w]).outside(
                        shape.1 as int,
                        shape.0 as int,
                    );
                assert(head[w] == next[w]);
            }
        }
        if out {
            bounded = true;
        }
        j += 1;
    }
    assert(rings.take(n as int) =~= rings);
    let mut canvas: Canvas = data;
    if bounded {
        canvas =
        match get_new_mask(polygons) {
            Ok(mask) => mask,
            Err(e) => {
                return Err(e);
            },
        };
    }
    let ghost base: Raster<u64> = canvas@;
    let ghost placed: Seq<PolygonView> = ring_views(polygons@);
    proof {
        assert(base.wf());
        assert forall|k: int| 0 <= k < placed.len() implies !(#[trigger] placed[k]).outside(
            base.cols as int,
            base.rows() as int,
        ) by {
            if bounded {
                lemma_rebased_inside(rings, k);
            } else {
                assert(rings[k] == placed[k]);
            }
        }
    }
    let mut k: usize = 0;
    while k < n
        invariant
            k <= n,
            n == polygons@.len(),
            ring_views(polygons@) == placed,
            forall|j: int| 0 <= j < n ==> (#[trigger] polygons@[j]).wf(),
            forall|j: int|
                0 <= j < placed.len() ==> !(#[trigger] placed[j]).outside(
                    base.cols as int,
                    base.rows() as int,
                ),
            base.wf(),
            base.rows() <= usize::MAX,
            base.cols <= usize::MAX,
            canvas@.wf(),
            canvas@.same_shape(base),
            forall|row: int, col: int|
                base.has(row, col) ==> #[trigger] canvas@.at(row, col) == if on_rings_upto(
                    placed,
                    k as int,
                    col,
                    row,
                ) {
                    1u64
                } else {
                    base.at(row, col)
                },
        decreases n - k,
    {
        let ghost before: Raster<u64> = canvas@;
        proof {
            assert(placed[k as int] == polygons@[k as int]@);
            assert(polygons@[k as int].wf());
            lemma_ring_inside(placed[k as int], base);
        }
        draw_ring(&mut canvas, polygons[k].points());
        proof {
            assert forall|row: int, col: int| base.has(row, col) implies #[trigger] canvas@.at(
                row,
                col,
            ) == if on_rings_upto(placed, k + 1, col, row) {
                1u64
            } else {
                base.at(row, col)
            } by {
                assert(before.at(row, col) == if on_rings_upto(placed, k as int, col, row) {
                    1u64
                } else {
                    base.at(row, col)
                });
                if !on_ring(placed[k as int].points, col, row) {
                    if on_rings_upto(placed, k + 1, col, row) {
                        let h = choose|h: int|
                            0 <= h < k + 1 && #[trigger] on_ring(placed[h].points, col, row);
                        assert(h < k);
                    }
                }
            }
        }
        k += 1;
    }
    proof {
        lemma_painted(canvas@, base, placed);
    }
    Ok(canvas)
}

/// Draws the outline of one ring into `data` and returns the canvas. A ring
/// that is not closed is closed first. Where the ring does not lie within
/// `data`, the canvas is replaced and the ring is shifted as `rasterized`
/// says.
pub fn draw_polygon_rs(data: Canvas, polygon: &mut Polygon) -> (r: Result<Canvas, Error>)
    requires
        old(polygon).wf(),
    ensures
        data@.wf(),
        final(polygon).wf(),
        match rasterized(data@, seq![old(polygon)@]) {
            Some((grid, rings)) => r.is_ok() && r.unwrap()@ == grid && final(polygon)@ == rings[0],
            None => r.is_err() && r.unwrap_err() == Error::InvalidArgument && final(polygon)@
                == old(polygon)@.closed(),
        },
{
    let ghost given: Seq<PolygonView> = seq![polygon@];
    let ghost rings: Seq<PolygonView> = close_all(given);
    polygon.close();
    let shape: (usize, usize) = data.dim();
    let extents: Extents = polygon.extents();
    proof {
        assert(rings =~= seq![polygon@]);
        assert(ring_boxes(rings) =~= seq![extents]);
        lemma_union_of_one(extents);
        if any_outside(rings, shape.1 as int, shape.0 as int) {
            let w = choose|w: int|
                0 <= w < rings.len() && (#[trigger] rings[w]).outside(
                    shape.1 as int,
                    shape.0 as int,
                );
            assert(w == 0);
        }
        assert(rings[0] == polygon@);
    }
    let mut canvas: Canvas = data;
    let bounded: bool = polygon.out_of_bounds(shape.1, shape.0);
    if bounded {
        canvas =
        match canvas_covering(extents) {
            Some(mask) => mask,
            None => {
                return Err(Error::InvalidArgument);
            },
        };
        if !polygon.can_shift(-extents.min_x, -extents.min_y) {
            assert(!rings[0].can_shift(-extents.min_x, -extents.min_y));
            return Err(Error::InvalidArgument);
        }
        proof {
            assert(rebase_fits(extents, rings));
            lemma_rebased_inside(rings, 0);
        }
        let moved: Result<(), Error> = polygon.shift(-extents.min_x, -extents.min_y);
        assert(moved.is_ok());
    }
    let ghost base: Raster<u64> = canvas@;
    let ghost placed: Seq<PolygonView> = seq![polygon@];
    proof {
        assert(base.wf());
        if bounded {
            assert(placed =~= shift_all(rings, -extents.min_x, -extents.min_y));
        } else {
            assert(placed =~= rings);
        }
        lemma_ring_inside(polygon@, base);
    }
    draw_ring(&mut canvas, polygon.points());
    proof {
        assert forall|row: int, col: int| base.has(row, col) implies #[trigger] canvas@.at(
            row,
            col,
        ) == if on_rings(placed, col, row) {
            1u64
        } else {
            base.at(row, col)
        } by {
            if on_rings(placed, col, row) {
                let h = choose|h: int|
                    0 <= h < 1 && #[trigger] on_ring(placed[h].points, col, row);
                assert(h == 0);
            }
            if on_ring(polygon@.points, col, row) {
                assert(on_ring(placed[0].points, col, row));
            }
        }
        lemma_painted(canvas@, base, placed);
    }
    Ok(canvas)
}

/// The rings as they are right after construction from the paths.
pub open spec fn rings_of(paths: Seq<Seq<Point>>) -> Seq<PolygonView> {
    Seq::new(paths.len(), |i: int| PolygonView::of_points(paths[i]))
}

/// Builds a ring from each point list and draws all their outlines into
/// `data`. An empty point list is refused.
pub fn draw_polygons(data: Canvas, polygons_py: Vec<Vec<Point>>) -> (r: Result<Canvas, Error>)
    ensures
        (exists|i: int| 0 <= i < polygons_py@.len() && (#[trigger] polygons_py@[i])@.len() == 0)
            ==> r.is_err() && r.unwrap_err() == Error::InvalidArgument,
        (forall|i: int| 0 <= i < polygons_py@.len() ==> (#[trigger] polygons_py@[i])@.len() > 0)
            ==> match rasterized(data@, rings_of(path_views(polygons_py@))) {
            Some((grid, rings)) => r.is_ok() && r.unwrap()@ == grid,
            None => r.is_err() && r.unwrap_err() == Error::InvalidArgument,
        },
{
    let ghost want: Seq<PolygonView> = rings_of(path_views(polygons_py@));
    let mut polygons: Vec<Polygon> = Vec::new();
    let mut i: usize = 0;
    while i < polygons_py.len()
        invariant
            i <= polygons_py@.len(),
            want == rings_of(path_views(polygons_py@)),
            forall|j: int| 0 <= j < i ==> (#[trigger] polygons_py@[j])@.len() > 0,
            polygons@.len() == i,
            forall|j: int| 0 <= j < i ==> (#[trigger] polygons@[j]).wf(),
            forall|j: int| 0 <= j < i ==> (#[trigger] polygons@[j])@ == want[j],
        decreases polygons_py@.len() - i,
    {
        let points: Vec<Point> = copy_points(&polygons_py[i]);
        match Polygon::new(points) {
            Ok(polygon) => {
                polygons.push(polygon);
            },
            Err(e) => {
                assert(polygons_py@[i as int]@.len() == 0);
                return Err(e);
            },
        }
        i += 1;
    }
    assert(ring_views(polygons@) =~= want);
    draw_polygons_rs(data, &mut polygons)
}

/// Builds a ring from the point list and draws its outline into `data`. An
/// empty point list is refused.
pub fn draw_polygon(data: Canvas, points_py: Vec<Point>) -> (r: Result<Canvas, Error>)
    ensures
        points_py@.len() == 0 ==> r.is_err() && r.unwrap_err() == Error::InvalidArgument,
        points_py@.len() > 0 ==> match rasterized(
            data@,
            seq![PolygonView::of_points(points_py@)],
        ) {
            Some((grid, rings)) => r.is_ok() && r.unwrap()@ == grid,
            None => r.is_err() && r.unwrap_err() == Error::InvalidArgument,
        },
{
    let mut polygon: Polygon = match Polygon::new(points_py) {
        Ok(polygon) => polygon,
        Err(e) => {
            return Err(e);
        },
    };
    draw_polygon_rs(data, &mut polygon)
}

} // verus!
