//! What rasterizing does not depend on: where the rings lie as a whole, and
//! the order in which they are given.

use crate::geometry::{lemma_bounds_of_tight, lemma_union_of_tight, union_of, Extents, Point};
use crate::line::{cell_hits, lemma_line_shift, line_steps};
use crate::polygon::{lemma_close_keeps_wf, ring_boxes, shift_points, PolygonView};
use crate::polygons::{
    any_outside,
    close_all,
    edge_hits,
    lemma_union_of_one,
    on_ring,
    on_rings,
    painted,
    rasterized,
    rebase_fits,
    shift_all,
};
use crate::raster::Raster;
use vstd::prelude::*;

verus! {

/// Shifting a ring shifts its outline: the shifted ring passes
/// through a shifted cell exactly when the ring passes through the cell.
pub proof fn lemma_outline_shifts(points: Seq<Point>, dx: int, dy: int, x: int, y: int)
    requires
        forall|i: int| 0 <= i < points.len() ==> (#[trigger] points[i]).can_shift(dx, dy),
    ensures
        on_ring(shift_points(points, dx, dy), x + dx, y + dy) == on_ring(points, x, y),
{
    let moved = shift_points(points, dx, dy);
    let nx = x + dx;
    let ny = y + dy;
    if on_ring(moved, nx, ny) {
        let i = choose|i: int| 0 <= i < moved.len() - 1 && #[trigger] edge_hits(moved, i, nx, ny);
        let k = choose|k: int|
            0 <= k < line_steps(moved[i], moved[i + 1]) + 1 && #[trigger] cell_hits(
                moved[i],
                moved[i + 1],
                k,
                nx,
                ny,
            );
        assert(points[i].can_shift(dx, dy) && points[i + 1].can_shift(dx, dy));
        lemma_line_shift(points[i], points[i + 1], dx, dy, 0);
        lemma_line_shift(points[i], points[i + 1], dx, dy, k);
        assert(cell_hits(points[i], points[i + 1], k, x, y));
        assert(edge_hits(points, i, x, y));
    }
    if on_ring(points, x, y) {
        let i = choose|i: int| 0 <= i < points.len() - 1 && #[trigger] edge_hits(points, i, x, y);
        let k = choose|k: int|
            0 <= k < line_steps(points[i], points[i + 1]) + 1 && #[trigger] cell_hits(
                points[i],
                points[i + 1],
                k,
                x,
                y,
            );
        assert(points[i].can_shift(dx, dy) && points[i + 1].can_shift(dx, dy));
        lemma_line_shift(points[i], points[i + 1], dx, dy, k);
        assert(cell_hits(moved[i], moved[i + 1], k, nx, ny));
        assert(edge_hits(moved, i, nx, ny));
    }
}

/// A ring that does not lie within the canvas is drawn into a new canvas of
/// the size of the ring's box, and what is drawn there is the outline of the
/// ring where it was, seen through the window of its box: the cell in row
/// `row` and column `col` is 1 exactly when the closed ring passes through
/// the cell `(col + min_x, row + min_y)`, and 0 otherwise.
pub proof fn lemma_rebased_outline(canvas: Raster<u64>, ring: PolygonView)
    requires
        ring.wf(),
        ring.closed().outside(canvas.cols as int, canvas.rows() as int),
        rebase_fits(ring.closed().extents, seq![ring.closed()]),
    ensures
        ({
            let whole = ring.closed();
            let e = whole.extents;
            &&& rasterized(canvas, seq![ring]).is_some()
            &&& rasterized(canvas, seq![ring]).unwrap().1 == seq![
                whole.shifted_by(-e.min_x, -e.min_y),
            ]
            &&& rasterized(canvas, seq![ring]).unwrap().0.rows() == e.height()
            &&& rasterized(canvas, seq![ring]).unwrap().0.cols == e.width()
            &&& forall|row: int, col: int|
                0 <= row < e.height() && 0 <= col < e.width() ==> #[trigger] rasterized(
                    canvas,
                    seq![ring],
                ).unwrap().0.at(row, col) == if on_ring(
                    whole.points,
                    col + e.min_x,
                    row + e.min_y,
                ) {
                    1u64
                } else {
                    0u64
                }
        }),
{
    let whole = ring.closed();
    let e = whole.extents;
    let rings = close_all(seq![ring]);
    assert(rings =~= seq![whole]);
    assert(ring_boxes(rings) =~= seq![e]);
    lemma_union_of_one(e);
    assert(rings[0].outside(canvas.cols as int, canvas.rows() as int));
    let moved = shift_all(rings, -e.min_x, -e.min_y);
    assert(moved =~= seq![whole.shifted_by(-e.min_x, -e.min_y)]);
    let grid = painted(Raster::filled(e.height() as nat, e.width() as nat, 0u64), moved);
    lemma_close_keeps_wf(ring);
    lemma_bounds_of_tight(whole.points);
    assert(rings[0].can_shift(-e.min_x, -e.min_y));
    assert forall|row: int, col: int| 0 <= row < e.height() && 0 <= col < e.width() implies #[trigger]
        grid.at(row, col) == if on_ring(whole.points, col + e.min_x, row + e.min_y) {
        1u64
    } else {
        0u64
    } by {
        assert forall|i: int| 0 <= i < whole.points.len() implies (#[trigger] whole.points[i]).can_shift(
            -e.min_x,
            -e.min_y,
        ) by {
            assert(e.holds(whole.points[i]));
        }
        lemma_outline_shifts(
            whole.points,
            -e.min_x,
            -e.min_y,
            col + e.min_x,
            row + e.min_y,
        );
        if on_rings(moved, col, row) {
            let h = choose|h: int| 0 <= h < 1 && #[trigger] on_ring(moved[h].points, col, row);
            assert(h == 0);
        }
        if on_ring(moved[0].points, col, row) {
            assert(on_rings(moved, col, row));
        }
    }
}

/// True when every item of `a` occurs in `b`.
pub open spec fn covers<T>(a: Seq<T>, b: Seq<T>) -> bool {
    forall|i: int| 0 <= i < a.len() ==> b.contains(#[trigger] a[i])
}

/// Two sequences with the same items, counted, cover each other.
proof fn lemma_same_items_cover<T>(a: Seq<T>, b: Seq<T>)
    requires
        a.to_multiset() == b.to_multiset(),
    ensures
        covers(a, b),
        covers(b, a),
{
    a.to_multiset_ensures();
    b.to_multiset_ensures();
    assert forall|i: int| 0 <= i < a.len() implies b.contains(#[trigger] a[i]) by {
        assert(a.contains(a[i]));
        assert(a.to_multiset().count(a[i]) > 0);
        assert(b.to_multiset().count(a[i]) > 0);
    }
    assert forall|i: int| 0 <= i < b.len() implies a.contains(#[trigger] b[i]) by {
        assert(b.contains(b[i]));
        assert(b.to_multiset().count(b[i]) > 0);
        assert(a.to_multiset().count(b[i]) > 0);
    }
}

/// The place of an item of `a` in a sequence `b` that covers `a`.
proof fn lemma_covered_at<T>(a: Seq<T>, b: Seq<T>, i: int) -> (j: int)
    requires
        covers(a, b),
        0 <= i < a.len(),
    ensures
        0 <= j < b.len(),
        b[j] == a[i],
{
    assert(b.contains(a[i]));
    choose|j: int| 0 <= j < b.len() && b[j] == a[i]
}

/// Closing keeps the cover, and so does taking the boxes.
proof fn lemma_close_covers(a: Seq<PolygonView>, b: Seq<PolygonView>)
    requires
        covers(a, b),
    ensures
        covers(close_all(a), close_all(b)),
        covers(ring_boxes(a), ring_boxes(b)),
{
    assert forall|i: int| 0 <= i < a.len() implies close_all(b).contains(
        #[trigger] close_all(a)[i],
    ) by {
        let j = lemma_covered_at(a, b, i);
        assert(close_all(b)[j] == close_all(a)[i]);
    }
    assert forall|i: int| 0 <= i < a.len() implies ring_boxes(b).contains(
        #[trigger] ring_boxes(a)[i],
    ) by {
        let j = lemma_covered_at(a, b, i);
        assert(ring_boxes(b)[j] == ring_boxes(a)[i]);
    }
}

/// Shifting keeps the cover.
proof fn lemma_shift_covers(a: Seq<PolygonView>, b: Seq<PolygonView>, dx: int, dy: int)
    requires
        covers(a, b),
    ensures
        covers(shift_all(a, dx, dy), shift_all(b, dx, dy)),
{
    assert forall|i: int| 0 <= i < a.len() implies shift_all(b, dx, dy).contains(
        #[trigger] shift_all(a, dx, dy)[i],
    ) by {
        let j = lemma_covered_at(a, b, i);
        assert(shift_all(b, dx, dy)[j] == shift_all(a, dx, dy)[i]);
    }
}

/// The union of boxes reaches no further than the union of boxes that cover
/// them.
proof fn lemma_reaches(a: Seq<Extents>, b: Seq<Extents>)
    requires
        covers(a, b),
        a.len() > 0,
    ensures
        union_of(b).min_x <= union_of(a).min_x,
        union_of(b).min_y <= union_of(a).min_y,
        union_of(b).max_x >= union_of(a).max_x,
        union_of(b).max_y >= union_of(a).max_y,
{
    lemma_union_of_tight(a);
    lemma_union_of_tight(b);
    let ax = choose|i: int| 0 <= i < a.len() && (#[trigger] a[i]).min_x == union_of(a).min_x;
    let ay = choose|i: int| 0 <= i < a.len() && (#[trigger] a[i]).min_y == union_of(a).min_y;
    let bx = choose|i: int| 0 <= i < a.len() && (#[trigger] a[i]).max_x == union_of(a).max_x;
    let by = choose|i: int| 0 <= i < a.len() && (#[trigger] a[i]).max_y == union_of(a).max_y;
    let jx = lemma_covered_at(a, b, ax);
    let jy = lemma_covered_at(a, b, ay);
    let kx = lemma_covered_at(a, b, bx);
    let ky = lemma_covered_at(a, b, by);
    assert(union_of(b).min_x <= b[jx].min_x);
    assert(union_of(b).min_y <= b[jy].min_y);
    assert(union_of(b).max_x >= b[kx].max_x);
    assert(union_of(b).max_y >= b[ky].max_y);
}

/// Boxes that cover each other have the same union.
proof fn lemma_union_covered(a: Seq<Extents>, b: Seq<Extents>)
    requires
        covers(a, b),
        covers(b, a),
    ensures
        union_of(a) == union_of(b),
{
    if a.len() == 0 {
        if b.len() > 0 {
            let j = lemma_covered_at(b, a, 0);
        }
        assert(union_of(a) == Extents::empty());
        assert(union_of(b) == Extents::empty());
    } else {
        let j = lemma_covered_at(a, b, 0);
        lemma_reaches(a, b);
        lemma_reaches(b, a);
    }
}

/// A cell on the outline of some ring of `a` is on the outline of some ring
/// of a list that covers `a`.
proof fn lemma_marks_covered(a: Seq<PolygonView>, b: Seq<PolygonView>, x: int, y: int)
    requires
        covers(a, b),
        on_rings(a, x, y),
    ensures
        on_rings(b, x, y),
{
    let i = choose|i: int| 0 <= i < a.len() && #[trigger] on_ring(a[i].points, x, y);
    let j = lemma_covered_at(a, b, i);
    assert(on_ring(b[j].points, x, y));
}

/// Rings that cover each other paint the same cells.
proof fn lemma_painted_covered(base: Raster<u64>, a: Seq<PolygonView>, b: Seq<PolygonView>)
    requires
        covers(a, b),
        covers(b, a),
    ensures
        painted(base, a) == painted(base, b),
{
    assert(painted(base, a).cells =~= painted(base, b).cells) by {
        assert forall|row: int| 0 <= row < base.rows() implies painted(base, a).cells[row]
            =~= painted(base, b).cells[row] by {
            assert forall|col: int| 0 <= col < base.cols implies painted(base, a).cells[row][col]
                == painted(base, b).cells[row][col] by {
                if on_rings(a, col, row) {
                    lemma_marks_covered(a, b, col, row);
                }
                if on_rings(b, col, row) {
                    lemma_marks_covered(b, a, col, row);
                }
            }
        }
    }
}

/// A ring outside of the canvas in `a` is one in a list that covers `a`, and
/// a shift that every ring of the covering list can take, every ring
/// of `a` can take.
proof fn lemma_fit_covered(
    a: Seq<PolygonView>,
    b: Seq<PolygonView>,
    w: int,
    h: int,
    dx: int,
    dy: int,
)
    requires
        covers(a, b),
    ensures
        any_outside(a, w, h) ==> any_outside(b, w, h),
        (forall|i: int| 0 <= i < b.len() ==> (#[trigger] b[i]).can_shift(dx, dy)) ==> (forall|
            i: int,
        |
            0 <= i < a.len() ==> (#[trigger] a[i]).can_shift(dx, dy)),
{
    if any_outside(a, w, h) {
        let i = choose|i: int| 0 <= i < a.len() && (#[trigger] a[i]).outside(w, h);
        let j = lemma_covered_at(a, b, i);
        assert(b[j].outside(w, h));
    }
    if forall|i: int| 0 <= i < b.len() ==> (#[trigger] b[i]).can_shift(dx, dy) {
        assert forall|i: int| 0 <= i < a.len() implies (#[trigger] a[i]).can_shift(dx, dy) by {
            let j = lemma_covered_at(a, b, i);
            assert(b[j].can_shift(dx, dy));
        }
    }
}

/// The cells that rasterizing sets do not depend on the order of the rings:
/// two lists that hold the same rings, in whatever order, give the same
/// canvas, and are refused together.
pub proof fn lemma_rasterized_any_order(
    canvas: Raster<u64>,
    a: Seq<PolygonView>,
    b: Seq<PolygonView>,
)
    requires
        a.to_multiset() == b.to_multiset(),
    ensures
        rasterized(canvas, a).is_some() == rasterized(canvas, b).is_some(),
        rasterized(canvas, a).is_some() ==> rasterized(canvas, a).unwrap().0 == rasterized(
            canvas,
            b,
        ).unwrap().0,
{
    lemma_same_items_cover(a, b);
    lemma_close_covers(a, b);
    lemma_close_covers(b, a);
    let ra = close_all(a);
    let rb = close_all(b);
    lemma_close_covers(ra, rb);
    lemma_close_covers(rb, ra);
    lemma_union_covered(ring_boxes(ra), ring_boxes(rb));
    let e = union_of(ring_boxes(ra));
    let w = canvas.cols as int;
    let h = canvas.rows() as int;
    lemma_fit_covered(ra, rb, w, h, -e.min_x, -e.min_y);
    lemma_fit_covered(rb, ra, w, h, -e.min_x, -e.min_y);
    lemma_painted_covered(canvas, ra, rb);
    lemma_shift_covers(ra, rb, -e.min_x, -e.min_y);
    lemma_shift_covers(rb, ra, -e.min_x, -e.min_y);
    lemma_painted_covered(
        Raster::filled(e.height() as nat, e.width() as nat, 0u64),
        shift_all(ra, -e.min_x, -e.min_y),
        shift_all(rb, -e.min_x, -e.min_y),
    );
}

} // verus!
