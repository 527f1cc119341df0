//! The contour tracer: scans a mask row by row and follows the boundary of
//! each region it meets, filling a grid of labels on the way.

use crate::geometry::{lemma_direction_round_trip, Direction, Error, Point};
use crate::labels::{grid_dim, grid_get, grid_set, grid_zeros, LabelGrid};
use crate::mask::{mask_dim, mask_get, mask_set, mask_zeros, Mask};
use crate::paths::{lemma_contours_are_rings, rings_of_foreground};
use crate::polygon::path_views;
use crate::raster::{check_alloc, fits_alloc, Raster};
use vstd::prelude::*;

verus! {

/// The value of the cell in column `x` and row `y`, or 0 where the image has
/// no such cell.
pub open spec fn value_at(image: Raster<u8>, x: int, y: int) -> u8 {
    if image.has(y, x) {
        image.at(y, x)
    } else {
        0
    }
}

/// The label of the cell in column `x` and row `y`, or 0 where the grid has
/// no such cell.
pub open spec fn label_at(labels: Raster<i8>, x: int, y: int) -> i8 {
    if labels.has(y, x) {
        labels.at(y, x)
    } else {
        0
    }
}

/// True when the cell in column `x` and row `y` exists and is not 0.
pub open spec fn is_foreground(image: Raster<u8>, x: int, y: int) -> bool {
    value_at(image, x, y) != 0
}

/// The position from `k` on, in the scan of the eight neighbours of
/// `(x, y)` that begins at direction `start`, of the first neighbour that is
/// foreground; 8 if there is none.
pub open spec fn first_hit(image: Raster<u8>, x: int, y: int, start: int, k: int) -> int
    decreases 8 - k,
{
    if k >= 8 {
        8
    } else if is_foreground(
        image,
        x + Direction::at(start + k).dx(),
        y + Direction::at(start + k).dy(),
    ) {
        k
    } else {
        first_hit(image, x, y, start, k + 1)
    }
}

/// The labels after the first `n` neighbours of `(x, y)`, in the scan that
/// begins at direction `start`, have been marked -1.
pub open spec fn stamp(labels: Raster<i8>, x: int, y: int, start: int, n: int) -> Raster<i8>
    decreases n,
{
    if n <= 0 {
        labels
    } else {
        stamp(labels, x, y, start, n - 1).put(
            y + Direction::at(start + n - 1).dy(),
            x + Direction::at(start + n - 1).dx(),
            -1i8,
        )
    }
}

/// Where one neighbour search from `(x, y)` leads.
pub struct Step {
    /// Column of the next boundary cell.
    pub x: int,
    /// Row of the next boundary cell.
    pub y: int,
    /// Position in the cyclic order of the direction that found it.
    pub heading: int,
    /// Number of background neighbours looked at before it.
    pub misses: int,
}

/// One neighbour search: the eight neighbours of `(x, y)` are looked at in
/// cyclic order, beginning at direction `heading`; the first that is
/// foreground is the next cell, and its direction the next heading. A cell
/// without any foreground neighbour stays where it is.
pub open spec fn step_from(image: Raster<u8>, x: int, y: int, heading: int) -> Step {
    let m = first_hit(image, x, y, heading, 0);
    if m < 8 {
        let d = Direction::at(heading + m);
        Step { x: x + d.dx(), y: y + d.dy(), heading: d.index(), misses: m }
    } else {
        Step { x, y, heading: Direction::at(heading).index(), misses: 8 }
    }
}

/// The value of a cell, 0 outside the image.
fn cell_of(image: &Mask, x: i64, y: i64) -> (r: u8)
    ensures
        r == value_at(image@, x as int, y as int),
        image@.wf(),
{
    let shape: (usize, usize) = mask_dim(image);
    if x >= 0 && y >= 0 && (x as i128) < shape.1 as i128 && (y as i128) < shape.0 as i128 {
        mask_get(image, y as usize, x as usize)
    } else {
        0
    }
}

/// The label of a cell, 0 outside the grid.
fn label_of(labels: &LabelGrid, x: i64, y: i64) -> (r: i8)
    ensures
        r == label_at(labels@, x as int, y as int),
        labels@.wf(),
{
    let shape: (usize, usize) = grid_dim(labels);
    if x >= 0 && y >= 0 && (x as i128) < shape.1 as i128 && (y as i128) < shape.0 as i128 {
        grid_get(labels, y as usize, x as usize)
    } else {
        0
    }
}

/// Labels a cell; outside the grid nothing happens.
fn mark(labels: &mut LabelGrid, x: i64, y: i64, value: i8)
    ensures
        final(labels)@ == old(labels)@.put(y as int, x as int, value),
        final(labels)@.wf(),
        final(labels)@.same_shape(old(labels)@),
{
    let shape: (usize, usize) = grid_dim(labels);
    if x >= 0 && y >= 0 && (x as i128) < shape.1 as i128 && (y as i128) < shape.0 as i128 {
        grid_set(labels, y as usize, x as usize, value);
    }
}

/// One neighbour search from `p_point`, beginning at `old_direction`. The
/// next boundary cell is stored in `n_point` and the direction that found it
/// is returned; every background neighbour looked at before it is marked -1
/// in `labels`. Where `p_point` has no foreground neighbour at all, all
/// eight are marked, `n_point` is `p_point` and the direction is unchanged.
pub fn tracer(
    p_point: Point,
    old_direction: Direction,
    n_point: &mut Point,
    image: &Mask,
    labels: &mut LabelGrid,
) -> (r: Direction)
    requires
        i64::MIN < p_point.x < i64::MAX,
        i64::MIN < p_point.y < i64::MAX,
    ensures
        ({
            let step = step_from(
                image@,
                p_point.x as int,
                p_point.y as int,
                old_direction.index(),
            );
            &&& final(labels)@ == stamp(
                old(labels)@,
                p_point.x as int,
                p_point.y as int,
                old_direction.index(),
                step.misses,
            )
            &&& final(n_point).x == step.x
            &&& final(n_point).y == step.y
            &&& r.index() == step.heading
        }),
        old(labels)@.wf() ==> final(labels)@.wf(),
        final(labels)@.same_shape(old(labels)@),
{
    *n_point = p_point;
    let ghost x: int = p_point.x as int;
    let ghost y: int = p_point.y as int;
    let ghost start: int = old_direction.index();
    let ghost before: Raster<i8> = labels@;
    let directions: Vec<Direction> = Direction::iter_from_direction(old_direction);
    let mut k: usize = 0;
    while k < 8
        invariant
            k <= 8,
            x == p_point.x,
            y == p_point.y,
            i64::MIN < p_point.x < i64::MAX,
            i64::MIN < p_point.y < i64::MAX,
            start == old_direction.index(),
            directions@ == Direction::cycle_from(start),
            *n_point == p_point,
            first_hit(image@, x, y, start, 0) == first_hit(image@, x, y, start, k as int),
            before == old(labels)@,
            labels@ == stamp(before, x, y, start, k as int),
            before.wf() ==> labels@.wf(),
            labels@.same_shape(before),
        decreases 8 - k,
    {
        let direction: Direction = directions[k];
        assert(direction == Direction::at(start + k));
        let tmp_point: Point = direction.to_point() + p_point;
        if cell_of(image, tmp_point.x, tmp_point.y) != 0 {
            *n_point = tmp_point;
            assert(first_hit(image@, x, y, start, k as int) == k);
            return direction;
        } else {
            mark(labels, tmp_point.x, tmp_point.y, -1);
        }
        k += 1;
    }
    proof {
        lemma_direction_round_trip(old_direction);
    }
    old_direction
}

/// What a boundary walk keeps fixed: the cell it started from, the first
/// boundary cell found from there, and the label it writes.
pub struct Course {
    pub sx: int,
    pub sy: int,
    pub tx: int,
    pub ty: int,
    pub label: i8,
}

/// The cell `(x, y)` of the framed image as a point of the image itself.
pub open spec fn unpadded(x: int, y: int) -> Point {
    Point { x: (x - 1) as i64, y: (y - 1) as i64 }
}

/// What a boundary walk leaves: the labels, the path, and whether the walk
/// met its stopping rule before its steps ran out.
pub struct Walked {
    pub labels: Raster<i8>,
    pub path: Seq<Point>,
    pub closed: bool,
}

/// The number of steps after which a boundary walk is given up: eight for
/// each cell of the image, one for each pair of a cell and a heading, capped
/// at the largest `u128`. A walk that has not met its stopping rule by then
/// has been in the same cell with the same heading twice.
pub open spec fn trace_budget(image: Raster<u8>) -> nat {
    let all = 8 * (image.rows() * image.cols);
    if all > u128::MAX {
        u128::MAX as nat
    } else {
        all as nat
    }
}

/// The rest of a boundary walk that stands at `(x, y)`, came there by
/// direction `heading`, and has `fuel` steps left. Each step is one
/// neighbour search. The walk ends when the cell before was the start and
/// the cell found is the first boundary cell again; otherwise the cell found
/// joins the path and takes the label. When the steps run out the walk is
/// left as it is, not closed.
pub open spec fn walk(
    image: Raster<u8>,
    labels: Raster<i8>,
    x: int,
    y: int,
    heading: int,
    at_start: bool,
    course: Course,
    path: Seq<Point>,
    fuel: nat,
) -> Walked
    decreases fuel,
{
    if fuel == 0 {
        Walked { labels, path, closed: false }
    } else {
        let next = step_from(image, x, y, heading);
        let swept = stamp(labels, x, y, heading, next.misses);
        if at_start && next.x == course.tx && next.y == course.ty {
            Walked { labels: swept, path, closed: true }
        } else {
            walk(
                image,
                swept.put(next.y, next.x, course.label),
                next.x,
                next.y,
                next.heading,
                next.x == course.sx && next.y == course.sy,
                course,
                path.push(unpadded(next.x, next.y)),
                (fuel - 1) as nat,
            )
        }
    }
}

/// The boundary walk that starts at `(x, y)`: the labels it leaves and the
/// path it returns, in the coordinates of the image without its frame, and
/// whether it met its stopping rule.
///
/// The first neighbour search begins at `DownRight` for an inner boundary and
/// at `UpLeft` for an outer one. A start without any foreground neighbour
/// gives the path of that one cell. The walk is given up after
/// `trace_budget` steps.
pub open spec fn trace(image: Raster<u8>, labels: Raster<i8>, x: int, y: int, label: i8, inner: bool)
    -> Walked {
    trace_within(image, labels, x, y, label, inner, trace_budget(image))
}

/// The boundary walk that starts at `(x, y)` and is given up after `fuel`
/// steps.
pub open spec fn trace_within(
    image: Raster<u8>,
    labels: Raster<i8>,
    x: int,
    y: int,
    label: i8,
    inner: bool,
    fuel: nat,
) -> Walked {
    let heading = if inner {
        Direction::DownRight.index()
    } else {
        Direction::UpLeft.index()
    };
    let first = step_from(image, x, y, heading);
    let swept = stamp(labels, x, y, heading, first.misses);
    if first.x == x && first.y == y {
        Walked { labels: swept, path: seq![unpadded(x, y)], closed: true }
    } else {
        walk(
            image,
            swept.put(first.y, first.x, label),
            first.x,
            first.y,
            first.heading,
            false,
            Course { sx: x, sy: y, tx: first.x, ty: first.y, label },
            seq![unpadded(x, y), unpadded(first.x, first.y)],
            fuel,
        )
    }
}

/// True when the image or the starting point is too extreme for the
/// coordinates of a walk to stay within the machine range.
pub open spec fn out_of_range(image: Raster<u8>, p: Point) -> bool {
    ||| image.rows() > i64::MAX
    ||| image.cols > i64::MAX
    ||| p.x <= i64::MIN
    ||| p.x >= i64::MAX
    ||| p.y <= i64::MIN
    ||| p.y >= i64::MAX
}

/// A neighbour search that finds something finds a foreground cell.
pub proof fn lemma_first_hit(image: Raster<u8>, x: int, y: int, start: int, k: int)
    requires
        0 <= k <= 8,
    ensures
        k <= first_hit(image, x, y, start, k) <= 8,
        first_hit(image, x, y, start, k) < 8 ==> is_foreground(
            image,
            x + Direction::at(start + first_hit(image, x, y, start, k)).dx(),
            y + Direction::at(start + first_hit(image, x, y, start, k)).dy(),
        ),
    decreases 8 - k,
{
    if k < 8 && !is_foreground(
        image,
        x + Direction::at(start + k).dx(),
        y + Direction::at(start + k).dy(),
    ) {
        lemma_first_hit(image, x, y, start, k + 1);
    }
}

/// The cell that a neighbour search moves to is a cell of the image, unless
/// the search stays where it is.
pub proof fn lemma_step_lands(image: Raster<u8>, x: int, y: int, heading: int)
    ensures
        ({
            let step = step_from(image, x, y, heading);
            &&& 0 <= step.misses <= 8
            &&& 0 <= step.heading < 8
            &&& step.misses < 8 ==> image.has(step.y, step.x) && is_foreground(
                image,
                step.x,
                step.y,
            )
            &&& step.misses == 8 ==> step.x == x && step.y == y
        }),
{
    lemma_first_hit(image, x, y, heading, 0);
    lemma_direction_round_trip(Direction::at(heading));
    lemma_direction_round_trip(Direction::at(heading + first_hit(image, x, y, heading, 0)));
}

/// The step budget of a walk over an image of the given shape.
fn budget_of(rows: usize, cols: usize) -> (r: u128)
    ensures
        r == (if 8 * (rows * cols) > u128::MAX {
            u128::MAX as int
        } else {
            8 * (rows * cols)
        }),
{
    assert(0 <= rows * cols <= usize::MAX * usize::MAX) by (nonlinear_arith)
        requires
            0 <= rows <= usize::MAX,
            0 <= cols <= usize::MAX,
    ;
    assert(usize::MAX * usize::MAX <= u128::MAX) by (nonlinear_arith)
        requires
            usize::MAX <= 0xffff_ffff_ffff_ffff,
    ;
    let cells: u128 = rows as u128 * cols as u128;
    if cells > u128::MAX / 8 {
        u128::MAX
    } else {
        cells * 8
    }
}

/// Follows one boundary from `p_point` and returns its path, in the
/// coordinates of the image without its frame. Every cell of the path but
/// the start takes the label `c`; every background neighbour that a search
/// looks at is marked -1. Refused where the walk never meets its stopping
/// rule, and where the image or the start is out of range.
pub fn contour_trace(
    p_point: Point,
    c: i8,
    image: &Mask,
    labels: &mut LabelGrid,
    inner: bool,
) -> (r: Result<Vec<Point>, Error>)
    ensures
        image@.wf(),
        final(labels)@.same_shape(old(labels)@),
        old(labels)@.wf() ==> final(labels)@.wf(),
        out_of_range(image@, p_point) ==> r.is_err() && r.unwrap_err() == Error::InvalidArgument
            && final(labels)@ == old(labels)@,
        !out_of_range(image@, p_point) ==> ({
            let walked = trace(image@, old(labels)@, p_point.x as int, p_point.y as int, c, inner);
            &&& final(labels)@ == walked.labels
            &&& walked.closed ==> r.is_ok() && r.unwrap()@ == walked.path
            &&& !walked.closed ==> r.is_err() && r.unwrap_err() == Error::TraceDiverged
        }),
{
    let shape: (usize, usize) = mask_dim(image);
    if shape.0 as u128 > i64::MAX as u128 || shape.1 as u128 > i64::MAX as u128 || p_point.x
        == i64::MIN || p_point.x == i64::MAX || p_point.y == i64::MIN || p_point.y == i64::MAX {
        return Err(Error::InvalidArgument);
    }
    let ghost goal: Walked = trace(
        image@,
        labels@,
        p_point.x as int,
        p_point.y as int,
        c,
        inner,
    );
    let starting_point: Point = p_point;
    let mut n_point: Point = Point::new(0, 0);
    let mut direction: Direction = if inner {
        Direction::DownRight
    } else {
        Direction::UpLeft
    };
    let mut last_point_was_s: bool = false;
    let mut path: Vec<Point> = Vec::new();
    path.push(p_point + Direction::UpLeft.to_point());
    proof {
        lemma_step_lands(image@, p_point.x as int, p_point.y as int, direction.index());
    }
    direction = tracer(p_point, direction, &mut n_point, image, labels);
    let t_point: Point = n_point;
    if t_point == starting_point {
        assert(path@ =~= seq![unpadded(p_point.x as int, p_point.y as int)]);
        return Ok(path);
    }
    path.push(t_point + Direction::UpLeft.to_point());
    mark(labels, n_point.x, n_point.y, c);
    assert(path@ =~= seq![
        unpadded(p_point.x as int, p_point.y as int),
        unpadded(t_point.x as int, t_point.y as int),
    ]);
    let ghost course: Course = Course {
        sx: p_point.x as int,
        sy: p_point.y as int,
        tx: t_point.x as int,
        ty: t_point.y as int,
        label: c,
    };
    let mut fuel: u128 = budget_of(shape.0, shape.1);
    let mut cur: Point = t_point;
    loop
        invariant
            image@.wf(),
            image@.rows() <= i64::MAX,
            image@.cols <= i64::MAX,
            labels@.same_shape(old(labels)@),
            old(labels)@.wf() ==> labels@.wf(),
            i64::MIN < cur.x < i64::MAX,
            i64::MIN < cur.y < i64::MAX,
            i64::MIN < starting_point.x < i64::MAX,
            i64::MIN < starting_point.y < i64::MAX,
            0 <= direction.index() < 8,
            starting_point == p_point,
            !out_of_range(image@, p_point),
            goal == trace(image@, old(labels)@, p_point.x as int, p_point.y as int, c, inner),
            course.sx == starting_point.x,
            course.sy == starting_point.y,
            course.tx == t_point.x,
            course.ty == t_point.y,
            course.label == c,
            goal == walk(
                image@,
                labels@,
                cur.x as int,
                cur.y as int,
                direction.index(),
                last_point_was_s,
                course,
                path@,
                fuel as nat,
            ),
        decreases fuel,
    {
        if fuel == 0 {
            return Err(Error::TraceDiverged);
        }
        fuel -= 1;
        proof {
            lemma_step_lands(image@, cur.x as int, cur.y as int, direction.index());
        }
        direction = tracer(cur, direction, &mut n_point, image, labels);
        if last_point_was_s && n_point == t_point {
            return Ok(path);
        }
        path.push(n_point + Direction::UpLeft.to_point());
        mark(labels, n_point.x, n_point.y, c);
        last_point_was_s = n_point == starting_point;
        cur = n_point;
    }
}

/// The state of a scan: the labels so far, the id that the next outer
/// contour will get, and the paths found so far.
pub struct Scan {
    pub labels: Raster<i8>,
    pub next_id: int,
    pub outer: Seq<Seq<Point>>,
    pub inner: Seq<Seq<Point>>,
}

/// The largest contour id.
pub open spec fn last_id() -> int {
    127
}

/// True when the foreground cell `(x, y)` begins a new outer contour: it has
/// no label and the cell above it is background.
pub open spec fn opens_outer(image: Raster<u8>, s: Scan, x: int, y: int) -> bool {
    label_at(s.labels, x, y) == 0 && !is_foreground(image, x, y - 1)
}

/// True when the foreground cell `(x, y)` begins an inner contour: the cell
/// below it is background that no walk has marked yet.
pub open spec fn opens_inner(image: Raster<u8>, s: Scan, x: int, y: int) -> bool {
    !is_foreground(image, x, y + 1) && label_at(s.labels, x, y + 1) != -1
}

/// The scan after a new outer contour has been opened at `(x, y)`: the cell
/// takes the next id, the boundary is walked, the path joins the outer
/// paths and the id moves on. Refused when the ids have run out or the walk
/// does not end.
pub open spec fn open_outer(image: Raster<u8>, s: Scan, x: int, y: int) -> Result<Scan, Error> {
    if s.next_id > last_id() {
        Err(Error::CapacityExceeded)
    } else {
        let walked = trace(
            image,
            s.labels.put(y, x, s.next_id as i8),
            x,
            y,
            s.next_id as i8,
            false,
        );
        if walked.closed {
            Ok(
                Scan {
                    labels: walked.labels,
                    next_id: s.next_id + 1,
                    outer: s.outer.push(walked.path),
                    inner: s.inner,
                },
            )
        } else {
            Err(Error::TraceDiverged)
        }
    }
}

/// The label that an inner contour opened at `(x, y)` writes: the cell's own
/// label if it has one, otherwise the label of the cell to its left.
pub open spec fn inner_label(labels: Raster<i8>, x: int, y: int) -> i8 {
    if label_at(labels, x, y) != 0 {
        label_at(labels, x, y)
    } else {
        label_at(labels, x - 1, y)
    }
}

/// The scan after an inner contour has been opened at `(x, y)`: the boundary
/// is walked and the path joins the inner paths. Refused when the walk does
/// not end.
pub open spec fn open_inner(image: Raster<u8>, s: Scan, x: int, y: int) -> Result<Scan, Error> {
    let walked = trace(image, s.labels, x, y, inner_label(s.labels, x, y), true);
    if walked.closed {
        Ok(
            Scan {
                labels: walked.labels,
                next_id: s.next_id,
                outer: s.outer,
                inner: s.inner.push(walked.path),
            },
        )
    } else {
        Err(Error::TraceDiverged)
    }
}

/// The scan after the cell `(x, y)` has been left without opening a contour:
/// if it has no label yet, it takes the label of the cell to its left.
pub open spec fn propagate(s: Scan, x: int, y: int) -> Scan {
    if label_at(s.labels, x, y) == 0 {
        Scan { labels: s.labels.put(y, x, label_at(s.labels, x - 1, y)), ..s }
    } else {
        s
    }
}

/// The scan after the cell `(x, y)` has been visited. A background cell
/// changes nothing. A foreground cell may open an outer contour, then an
/// inner one, and where it opens neither it takes over its left
/// neighbour's label.
#[verifier::opaque]
pub open spec fn visit(image: Raster<u8>, s: Scan, x: int, y: int) -> Result<Scan, Error> {
    if !is_foreground(image, x, y) {
        Ok(s)
    } else {
        let after_outer = if opens_outer(image, s, x, y) {
            open_outer(image, s, x, y)
        } else {
            Ok(s)
        };
        match after_outer {
            Err(e) => Err(e),
            Ok(s1) => if opens_inner(image, s1, x, y) {
                open_inner(image, s1, x, y)
            } else if opens_outer(image, s, x, y) {
                Ok(s1)
            } else {
                Ok(propagate(s1, x, y))
            },
        }
    }
}

/// The scan after the cells in columns 1 to `n` of row `y` have been
/// visited, from left to right.
pub open spec fn scan_row(image: Raster<u8>, s: Scan, y: int, n: int) -> Result<Scan, Error>
    decreases n,
{
    if n <= 0 {
        Ok(s)
    } else {
        match scan_row(image, s, y, n - 1) {
            Ok(t) => visit(image, t, n, y),
            Err(e) => Err(e),
        }
    }
}

/// The scan after rows 1 to `m` have been visited, from top to bottom, each
/// in its columns 1 to `width`.
pub open spec fn scan_rows(image: Raster<u8>, s: Scan, m: int, width: int) -> Result<Scan, Error>
    decreases m,
{
    if m <= 0 {
        Ok(s)
    } else {
        match scan_rows(image, s, m - 1, width) {
            Ok(t) => scan_row(image, t, m, width),
            Err(e) => Err(e),
        }
    }
}

/// The image with a frame of one background cell on every side.
pub open spec fn framed(image: Raster<u8>) -> Raster<u8> {
    Raster {
        cells: Seq::new(
            image.rows() + 2,
            |r: int|
                Seq::new(
                    image.cols + 2,
                    |c: int|
                        if 1 <= r <= image.rows() && 1 <= c <= image.cols {
                            image.cells[r - 1][c - 1]
                        } else {
                            0u8
                        },
                ),
        ),
        cols: image.cols + 2,
    }
}

/// The grid without its outermost cells on every side.
pub open spec fn cropped(labels: Raster<i8>) -> Raster<i8> {
    Raster {
        cells: Seq::new(
            (labels.rows() - 2) as nat,
            |r: int| Seq::new((labels.cols - 2) as nat, |c: int| labels.cells[r + 1][c + 1]),
        ),
        cols: (labels.cols - 2) as nat,
    }
}

/// True when the framed image can be allocated.
pub open spec fn frame_fits(image: Raster<u8>) -> bool {
    fits_alloc(image.rows() + 2 as int, image.cols + 2 as int, 1)
}

/// The scan before any cell has been visited: no labels, no paths, and 1 as
/// the first contour id.
pub open spec fn fresh_scan(rows: nat, cols: nat) -> Scan {
    Scan {
        labels: Raster::filled(rows, cols, 0i8),
        next_id: 1,
        outer: Seq::empty(),
        inner: Seq::empty(),
    }
}

/// The label grid, the outer paths and the inner paths of an image: what the
/// row-by-row scan of the framed image leaves, the labels without the frame.
/// Refused where the framed image cannot be allocated, where the contour ids
/// run out, and where a boundary walk does not end.
pub open spec fn contours_of(image: Raster<u8>) -> Result<
    (Raster<i8>, Seq<Seq<Point>>, Seq<Seq<Point>>),
    Error,
> {
    if !frame_fits(image) {
        Err(Error::InvalidArgument)
    } else {
        match scan_rows(
            framed(image),
            fresh_scan(image.rows() + 2, image.cols + 2),
            image.rows() as int,
            image.cols as int,
        ) {
            Ok(s) => Ok((cropped(s.labels), s.outer, s.inner)),
            Err(e) => Err(e),
        }
    }
}

/// True when every cell of the image is 0.
pub open spec fn all_background(image: Raster<u8>) -> bool {
    forall|r: int, c: int| image.has(r, c) ==> #[trigger] image.at(r, c) == 0
}

/// Once a row has been refused, visiting more of its cells does not change
/// that.
pub proof fn lemma_scan_row_sticks(image: Raster<u8>, s: Scan, y: int, n: int, m: int)
    requires
        0 <= n <= m,
        scan_row(image, s, y, n).is_err(),
    ensures
        scan_row(image, s, y, m) == scan_row(image, s, y, n),
    decreases m - n,
{
    if n < m {
        lemma_scan_row_sticks(image, s, y, n, m - 1);
    }
}

/// Once a scan has been refused, visiting more rows does not change that.
pub proof fn lemma_scan_rows_sticks(image: Raster<u8>, s: Scan, n: int, m: int, width: int)
    requires
        0 <= n <= m,
        scan_rows(image, s, n, width).is_err(),
    ensures
        scan_rows(image, s, m, width) == scan_rows(image, s, n, width),
    decreases m - n,
{
    if n < m {
        lemma_scan_rows_sticks(image, s, n, m - 1, width);
    }
}

/// A scan of an image without foreground changes nothing.
pub proof fn lemma_scan_quiet(image: Raster<u8>, s: Scan, m: int, width: int)
    requires
        all_background(image),
    ensures
        scan_rows(image, s, m, width) == Ok::<Scan, Error>(s),
    decreases m,
{
    if m > 0 {
        lemma_scan_quiet(image, s, m - 1, width);
        lemma_scan_row_quiet(image, s, m, width);
    }
}

/// A scan of a row without foreground changes nothing.
pub proof fn lemma_scan_row_quiet(image: Raster<u8>, s: Scan, y: int, n: int)
    requires
        all_background(image),
    ensures
        scan_row(image, s, y, n) == Ok::<Scan, Error>(s),
    decreases n,
{
    if n > 0 {
        reveal(visit);
        lemma_scan_row_quiet(image, s, y, n - 1);
        if image.has(y, n) {
            assert(image.at(y, n) == 0);
        }
    }
}

/// An image without foreground has an all-zero label grid of its own shape
/// and no paths, provided its framed copy can be allocated.
pub proof fn lemma_background_contours(image: Raster<u8>)
    requires
        image.wf(),
        all_background(image),
        frame_fits(image),
    ensures
        contours_of(image) == Ok::<(Raster<i8>, Seq<Seq<Point>>, Seq<Seq<Point>>), Error>(
            (
                Raster::filled(image.rows(), image.cols, 0i8),
                Seq::<Seq<Point>>::empty(),
                Seq::<Seq<Point>>::empty(),
            ),
        ),
{
    let frame = framed(image);
    assert(all_background(frame)) by {
        assert forall|r: int, c: int| frame.has(r, c) implies #[trigger] frame.at(r, c) == 0 by {
            if 1 <= r <= image.rows() && 1 <= c <= image.cols {
                assert(image.has(r - 1, c - 1));
                assert(image.at(r - 1, c - 1) == 0);
            }
        }
    }
    let start = fresh_scan(image.rows() + 2, image.cols + 2);
    lemma_scan_quiet(frame, start, image.rows() as int, image.cols as int);
    assert(cropped(start.labels).cells =~~= Raster::filled(image.rows(), image.cols, 0i8).cells);
}

/// The scan that the working values of the tracer stand for.
pub open spec fn scan_of(
    labels: LabelGrid,
    next_id: u8,
    outer: Vec<Vec<Point>>,
    inner: Vec<Vec<Point>>,
) -> Scan {
    Scan {
        labels: labels@,
        next_id: next_id as int,
        outer: path_views(outer@),
        inner: path_views(inner@),
    }
}

/// Visits the cell in column `x` and row `y` of the framed image.
fn visit_cell(
    x: usize,
    y: usize,
    image: &Mask,
    labels: &mut LabelGrid,
    c: &mut u8,
    outer_paths: &mut Vec<Vec<Point>>,
    inner_paths: &mut Vec<Vec<Point>>,
) -> (r: Result<(), Error>)
    requires
        1 <= x < i64::MAX,
        1 <= y < i64::MAX,
        image@.rows() <= i64::MAX,
        image@.cols <= i64::MAX,
        old(labels)@.wf(),
        1 <= *old(c) <= 128,
    ensures
        final(labels)@.wf(),
        final(labels)@.same_shape(old(labels)@),
        1 <= *final(c) <= 128,
        match visit(
            image@,
            scan_of(*old(labels), *old(c), *old(outer_paths), *old(inner_paths)),
            x as int,
            y as int,
        ) {
            Ok(s) => r.is_ok() && scan_of(
                *final(labels),
                *final(c),
                *final(outer_paths),
                *final(inner_paths),
            ) == s,
            Err(e) => r.is_err() && r.unwrap_err() == e,
        },
{
    proof {
        reveal(visit);
    }
    let px: i64 = x as i64;
    let py: i64 = y as i64;
    let point: Point = Point::new(px, py);
    if cell_of(image, px, py) == 0 {
        return Ok(());
    }
    let ghost start: Scan = scan_of(*labels, *c, *outer_paths, *inner_paths);
    let mut handled: bool = false;
    if label_of(labels, px, py) == 0 && cell_of(image, px, py - 1) == 0 {
        if *c > 127 {
            return Err(Error::CapacityExceeded);
        }
        let id: i8 = *c as i8;
        mark(labels, px, py, id);
        let path: Vec<Point> = match contour_trace(point, id, image, labels, false) {
            Ok(path) => path,
            Err(e) => {
                return Err(e);
            },
        };
        outer_paths.push(path);
        assert(path_views(outer_paths@) =~= start.outer.push(path@));
        *c += 1;
        handled = true;
    }
    let ghost middle: Scan = scan_of(*labels, *c, *outer_paths, *inner_paths);
    if cell_of(image, px, py + 1) == 0 && label_of(labels, px, py + 1) != -1 {
        let own: i8 = label_of(labels, px, py);
        let label: i8 = if own != 0 {
            own
        } else {
            label_of(labels, px - 1, py)
        };
        let path: Vec<Point> = match contour_trace(point, label, image, labels, true) {
            Ok(path) => path,
            Err(e) => {
                return Err(e);
            },
        };
        inner_paths.push(path);
        assert(path_views(inner_paths@) =~= middle.inner.push(path@));
        handled = true;
    }
    if !handled && label_of(labels, px, py) == 0 {
        let west: i8 = label_of(labels, px - 1, py);
        mark(labels, px, py, west);
    }
    Ok(())
}

/// A copy of `image` with a frame of one background cell on every side.
fn frame_of(image: &Mask, height: usize, width: usize) -> (r: Mask)
    requires
        image@.wf(),
        height == image@.rows(),
        width == image@.cols,
        frame_fits(image@),
    ensures
        r@ == framed(image@),
        r@.wf(),
{
    let mut padded_image: Mask = mask_zeros(height + 2, width + 2);
    let ghost blank: Raster<u8> = padded_image@;
    let mut y: usize = 0;
    while y < height
        invariant
            y <= height,
            image@.wf(),
            height == image@.rows(),
            width == image@.cols,
            frame_fits(image@),
            padded_image@.wf(),
            padded_image@.rows() == height + 2,
            padded_image@.cols == width + 2,
            forall|r: int, c: int|
                padded_image@.has(r, c) ==> #[trigger] padded_image@.at(r, c) == if 1 <= r <= y
                    && 1 <= c <= width {
                    image@.at(r - 1, c - 1)
                } else {
                    0u8
                },
        decreases height - y,
    {
        let mut x: usize = 0;
        while x < width
            invariant
                y < height,
                x <= width,
                image@.wf(),
                height == image@.rows(),
                width == image@.cols,
                frame_fits(image@),
                padded_image@.wf(),
                padded_image@.rows() == height + 2,
                padded_image@.cols == width + 2,
                forall|r: int, c: int|
                    padded_image@.has(r, c) ==> #[trigger] padded_image@.at(r, c) == if (1 <= r
                        <= y && 1 <= c <= width) || (r == y + 1 && 1 <= c <= x) {
                        image@.at(r - 1, c - 1)
                    } else {
                        0u8
                    },
            decreases width - x,
        {
            let ghost before: Raster<u8> = padded_image@;
            let value: u8 = mask_get(image, y, x);
            mask_set(&mut padded_image, y + 1, x + 1, value);
            proof {
                assert forall|r: int, c: int| padded_image@.has(r, c) implies #[trigger]
                    padded_image@.at(r, c) == if (1 <= r <= y && 1 <= c <= width) || (r == y + 1
                    && 1 <= c <= x + 1) {
                    image@.at(r - 1, c - 1)
                } else {
                    0u8
                } by {
                    assert(before.has(r, c));
                    assert(before.cells[r].len() == before.cols);
                    if !(r == y + 1 && c == x + 1) {
                        assert(padded_image@.at(r, c) == before.at(r, c));
                    }
                }
            }
            x += 1;
        }
        y += 1;
    }
    proof {
        assert(padded_image@.cells =~= framed(image@).cells) by {
            assert forall|r: int| 0 <= r < padded_image@.cells.len() implies padded_image@.cells[r]
                =~= framed(image@).cells[r] by {
                assert forall|c: int| 0 <= c < padded_image@.cells[r].len() implies
                    padded_image@.cells[r][c] == framed(image@).cells[r][c] by {
                    assert(padded_image@.has(r, c));
                    assert(padded_image@.at(r, c) == padded_image@.cells[r][c]);
                }
            }
        }
    }
    padded_image
}

/// A copy of `labels` without its outermost cells on every side.
fn crop_of(labels: &LabelGrid, height: usize, width: usize) -> (r: LabelGrid)
    requires
        labels@.wf(),
        labels@.rows() == height + 2,
        labels@.cols == width + 2,
        fits_alloc(height + 2 as int, width + 2 as int, 1),
    ensures
        r@ == cropped(labels@),
        r@.wf(),
        r@.rows() == height,
        r@.cols == width,
{
    assert(fits_alloc(height as int, width as int, 1)) by (nonlinear_arith)
        requires
            fits_alloc(height + 2 as int, width + 2 as int, 1),
            height >= 0,
            width >= 0,
    ;
    let mut out: LabelGrid = grid_zeros(height, width);
    let mut y: usize = 0;
    while y < height
        invariant
            y <= height,
            labels@.wf(),
            labels@.rows() == height + 2,
            labels@.cols == width + 2,
            out@.wf(),
            out@.rows() == height,
            out@.cols == width,
            forall|r: int, c: int|
                0 <= r < y && 0 <= c < width ==> #[trigger] out@.at(r, c) == labels@.at(
                    r + 1,
                    c + 1,
                ),
        decreases height - y,
    {
        let mut x: usize = 0;
        while x < width
            invariant
                y < height,
                x <= width,
                labels@.wf(),
                labels@.rows() == height + 2,
                labels@.cols == width + 2,
                out@.wf(),
                out@.rows() == height,
                out@.cols == width,
                forall|r: int, c: int|
                    (0 <= r < y && 0 <= c < width) || (r == y && 0 <= c < x) ==> #[trigger] out@.at(
                        r,
                        c,
                    ) == labels@.at(r + 1, c + 1),
            decreases width - x,
        {
            let ghost before: Raster<i8> = out@;
            let value: i8 = grid_get(labels, y + 1, x + 1);
            grid_set(&mut out, y, x, value);
            proof {
                assert forall|r: int, c: int|
                    (0 <= r < y && 0 <= c < width) || (r == y && 0 <= c < x + 1) implies #[trigger]
                    out@.at(r, c) == labels@.at(r + 1, c + 1) by {
                    assert(before.has(r, c));
                    assert(before.cells[r].len() == before.cols);
                    if !(r == y && c == x) {
                        assert(out@.at(r, c) == before.at(r, c));
                    }
                }
            }
            x += 1;
        }
        y += 1;
    }
    proof {
        assert(out@.cells =~= cropped(labels@).cells) by {
            assert forall|r: int| 0 <= r < out@.cells.len() implies out@.cells[r] =~= cropped(
                labels@,
            ).cells[r] by {
                assert forall|c: int| 0 <= c < out@.cells[r].len() implies out@.cells[r][c]
                    == cropped(labels@).cells[r][c] by {
                    assert(out@.at(r, c) == out@.cells[r][c]);
                }
            }
        }
    }
    out
}

/// Reads the boundaries out of `image`: the grid of labels, of the shape of
/// `image`, the paths of the outer boundaries and the paths of the inner
/// ones, each list in the order in which the row-by-row scan came upon them.
pub fn find_contours_rs(image: Mask) -> (r: Result<
    (LabelGrid, Vec<Vec<Point>>, Vec<Vec<Point>>),
    Error,
>)
    ensures
        image@.wf(),
        match contours_of(image@) {
            Ok((labels, outer, inner)) => r.is_ok() && r.unwrap().0@ == labels && path_views(
                r.unwrap().1@,
            ) == outer && path_views(r.unwrap().2@) == inner,
            Err(e) => r.is_err() && r.unwrap_err() == e,
        },
        r.is_ok() ==> r.unwrap().0@.wf() && r.unwrap().0@.same_shape(image@),
        r.is_ok() ==> rings_of_foreground(image@, path_views(r.unwrap().1@))
            && rings_of_foreground(image@, path_views(r.unwrap().2@)),
        all_background(image@) && frame_fits(image@) ==> r.is_ok() && r.unwrap().0@
            == Raster::filled(image@.rows(), image@.cols, 0i8) && r.unwrap().1@.len() == 0
            && r.unwrap().2@.len() == 0,
{
    let shape: (usize, usize) = mask_dim(&image);
    let height: usize = shape.0;
    let width: usize = shape.1;
    proof {
        if all_background(image@) && frame_fits(image@) {
            lemma_background_contours(image@);
        }
        lemma_contours_are_rings(image@);
    }
    if height > usize::MAX - 2 || width > usize::MAX - 2 {
        return Err(Error::InvalidArgument);
    }
    if !check_alloc(height + 2, width + 2, 1) {
        return Err(Error::InvalidArgument);
    }
    let padded_image: Mask = frame_of(&image, height, width);
    let mut labels: LabelGrid = grid_zeros(height + 2, width + 2);
    let mut inner_paths: Vec<Vec<Point>> = Vec::new();
    let mut outer_paths: Vec<Vec<Point>> = Vec::new();
    let mut c: u8 = 1;
    let ghost frame: Raster<u8> = padded_image@;
    let ghost first: Scan = fresh_scan((height + 2) as nat, (width + 2) as nat);
    let ghost goal: Result<Scan, Error> = scan_rows(frame, first, height as int, width as int);
    let ghost answer: Result<(Raster<i8>, Seq<Seq<Point>>, Seq<Seq<Point>>), Error> = contours_of(
        image@,
    );
    assert(scan_of(labels, c, outer_paths, inner_paths).outer =~= first.outer);
    assert(scan_of(labels, c, outer_paths, inner_paths).inner =~= first.inner);
    assert(scan_of(labels, c, outer_paths, inner_paths) == first);
    let mut y: usize = 1;
    while y <= height
        invariant
            1 <= y <= height + 1,
            height <= usize::MAX - 2,
            width <= usize::MAX - 2,
            image@.wf(),
            answer == contours_of(image@),
            all_background(image@) && frame_fits(image@) ==> answer.is_ok(),
            (match goal {
                Err(e) => answer == Err::<(Raster<i8>, Seq<Seq<Point>>, Seq<Seq<Point>>), Error>(e),
                Ok(_) => true,
            }),
            height + 2 <= i64::MAX,
            width + 2 <= i64::MAX,
            padded_image@ == frame,
            frame.rows() == height + 2,
            frame.cols == width + 2,
            goal == scan_rows(frame, first, height as int, width as int),
            labels@.wf(),
            labels@.rows() == height + 2,
            labels@.cols == width + 2,
            1 <= c <= 128,
            scan_rows(frame, first, y - 1, width as int) == Ok::<Scan, Error>(
                scan_of(labels, c, outer_paths, inner_paths),
            ),
        ensures
            goal == Ok::<Scan, Error>(scan_of(labels, c, outer_paths, inner_paths)),
            labels@.wf(),
            labels@.rows() == height + 2,
            labels@.cols == width + 2,
        decreases height + 1 - y,
    {
        let ghost row_start: Scan = scan_of(labels, c, outer_paths, inner_paths);
        let ghost row_goal: Result<Scan, Error> = scan_row(
            frame,
            row_start,
            y as int,
            width as int,
        );
        let mut x: usize = 1;
        while x <= width
            invariant
                1 <= y <= height,
                1 <= x <= width + 1,
                height <= usize::MAX - 2,
                width <= usize::MAX - 2,
                image@.wf(),
                answer == contours_of(image@),
                all_background(image@) && frame_fits(image@) ==> answer.is_ok(),
                (match goal {
                    Err(e) => answer == Err::<
                        (Raster<i8>, Seq<Seq<Point>>, Seq<Seq<Point>>),
                        Error,
                    >(e),
                    Ok(_) => true,
                }),
                goal == scan_rows(frame, first, height as int, width as int),
                scan_rows(frame, first, y - 1, width as int) == Ok::<Scan, Error>(row_start),
                height + 2 <= i64::MAX,
                width + 2 <= i64::MAX,
                padded_image@ == frame,
                frame.rows() == height + 2,
                frame.cols == width + 2,
                row_goal == scan_row(frame, row_start, y as int, width as int),
                labels@.wf(),
                labels@.rows() == height + 2,
                labels@.cols == width + 2,
                1 <= c <= 128,
                scan_row(frame, row_start, y as int, x - 1) == Ok::<Scan, Error>(
                    scan_of(labels, c, outer_paths, inner_paths),
                ),
            ensures
                row_goal == Ok::<Scan, Error>(scan_of(labels, c, outer_paths, inner_paths)),
                labels@.wf(),
                labels@.rows() == height + 2,
                labels@.cols == width + 2,
                1 <= c <= 128,
            decreases width + 1 - x,
        {
            let ghost here: Scan = scan_of(labels, c, outer_paths, inner_paths);
            let visited: Result<(), Error> = visit_cell(
                x,
                y,
                &padded_image,
                &mut labels,
                &mut c,
                &mut outer_paths,
                &mut inner_paths,
            );
            proof {
                assert(scan_row(frame, row_start, y as int, x as int) == visit(
                    frame,
                    here,
                    x as int,
                    y as int,
                ));
            }
            match visited {
                Ok(()) => {},
                Err(e) => {
                    proof {
                        lemma_scan_row_sticks(frame, row_start, y as int, x as int, width as int);
                        assert(row_goal == Err::<Scan, Error>(e));
                        assert(scan_rows(frame, first, y as int, width as int) == row_goal);
                        lemma_scan_rows_sticks(frame, first, y as int, height as int, width as int);
                        assert(goal == Err::<Scan, Error>(e));
                    }
                    return Err(e);
                },
            }
            x += 1;
        }
        assert(scan_rows(frame, first, y as int, width as int) == row_goal);
        y += 1;
    }
    let out: LabelGrid = crop_of(&labels, height, width);
    Ok((out, outer_paths, inner_paths))
}

/// The points of all the paths, one path after another.
pub open spec fn joined(paths: Seq<Seq<Point>>) -> Seq<Point>
    decreases paths.len(),
{
    if paths.len() == 0 {
        Seq::empty()
    } else {
        joined(paths.drop_last()) + paths.last()
    }
}

/// Each point as the pair of its coordinates, `x` first.
pub open spec fn pairs_of(points: Seq<Point>) -> Seq<Seq<i64>> {
    Seq::new(points.len(), |i: int| seq![points[i].x, points[i].y])
}

/// The contents of a list of coordinate pairs.
pub open spec fn pair_views(pairs: Seq<Vec<i64>>) -> Seq<Seq<i64>> {
    Seq::new(pairs.len(), |i: int| pairs[i]@)
}

/// The points of all the paths, one path after another, each as the pair of
/// its coordinates.
pub fn flatten_paths(paths: &Vec<Vec<Point>>) -> (r: Vec<Vec<i64>>)
    ensures
        pair_views(r@) == pairs_of(joined(path_views(paths@))),
{
    let ghost lists: Seq<Seq<Point>> = path_views(paths@);
    let mut pairs: Vec<Vec<i64>> = Vec::new();
    let mut i: usize = 0;
    assert(joined(lists.take(0)) =~= Seq::<Point>::empty());
    assert(pair_views(pairs@) =~= pairs_of(joined(lists.take(0))));
    while i < paths.len()
        invariant
            i <= paths@.len(),
            lists == path_views(paths@),
            pair_views(pairs@) == pairs_of(joined(lists.take(i as int))),
        decreases paths@.len() - i,
    {
        let path: &Vec<Point> = &paths[i];
        let ghost done: Seq<Point> = joined(lists.take(i as int));
        let mut k: usize = 0;
        while k < path.len()
            invariant
                k <= path@.len(),
                pair_views(pairs@) == pairs_of(done + path@.take(k as int)),
            decreases path@.len() - k,
        {
            let pair: Vec<i64> = path[k].to_tuple();
            let ghost earlier: Seq<Vec<i64>> = pairs@;
            let ghost so_far: Seq<Point> = done + path@.take(k as int);
            pairs.push(pair);
            proof {
                assert forall|j: int| 0 <= j < earlier.len() implies pair_views(pairs@)[j]
                    == pairs_of(so_far)[j] by {
                    assert(pair_views(earlier)[j] == pairs_of(so_far)[j]);
                }
                assert(pair_views(pairs@)[earlier.len() as int] == pair@);
                assert(path@.take(k + 1) =~= path@.take(k as int).push(path@[k as int]));
                assert(done + path@.take(k + 1) =~= (done + path@.take(k as int)).push(
                    path@[k as int],
                ));
                let grown: Seq<Point> = done + path@.take(k + 1);
                assert(pair_views(earlier).len() == pairs_of(so_far).len());
                assert(grown.len() == so_far.len() + 1);
                assert forall|j: int| 0 <= j < grown.len() implies pair_views(pairs@)[j]
                    == pairs_of(grown)[j] by {
                    if j < so_far.len() {
                        assert(grown[j] == so_far[j]);
                        assert(pairs_of(so_far)[j] == pairs_of(grown)[j]);
                    } else {
                        assert(grown[j] == path@[k as int]);
                    }
                }
                assert(pair_views(pairs@) =~= pairs_of(grown));
            }
            k += 1;
        }
        proof {
            assert(path@.take(k as int) =~= path@);
            assert(lists.take(i + 1).drop_last() =~= lists.take(i as int));
            assert(lists.take(i + 1).last() == path@);
        }
        i += 1;
    }
    assert(lists.take(i as int) =~= lists);
    pairs
}

/// Reads the boundaries out of `image` and returns the grid of labels, the
/// points of all outer paths and the points of all inner paths, each point
/// as the pair of its coordinates.
pub fn find_contours(image: Mask) -> (r: Result<(LabelGrid, Vec<Vec<i64>>, Vec<Vec<i64>>), Error>)
    ensures
        match contours_of(image@) {
            Ok((labels, outer, inner)) => r.is_ok() && r.unwrap().0@ == labels && pair_views(
                r.unwrap().1@,
            ) == pairs_of(joined(outer)) && pair_views(r.unwrap().2@) == pairs_of(joined(inner)),
            Err(e) => r.is_err() && r.unwrap_err() == e,
        },
{
    match find_contours_rs(image) {
        Ok((labels, outer_paths, inner_paths)) => {
            let outer: Vec<Vec<i64>> = flatten_paths(&outer_paths);
            let inner: Vec<Vec<i64>> = flatten_paths(&inner_paths);
            Ok((labels, outer, inner))
        },
        Err(e) => Err(e),
    }
}

} // verus!
