//! What holds of every path that the tracer returns: it is a closed ring,
//! and it runs over foreground cells only.

use crate::contours::{
    contours_of,
    frame_fits,
    framed,
    fresh_scan,
    inner_label,
    is_foreground,
    lemma_step_lands,
    open_outer,
    opens_inner,
    opens_outer,
    scan_row,
    scan_rows,
    stamp,
    step_from,
    trace,
    trace_budget,
    trace_within,
    unpadded,
    visit,
    walk,
    Course,
    Scan,
};
use crate::geometry::{Direction, Point};
use crate::raster::Raster;
use vstd::prelude::*;

verus! {

/// True when a path is a closed ring: it has a point, and its first point
/// is its last.
pub open spec fn is_ring(path: Seq<Point>) -> bool {
    path.len() >= 1 && path.first() == path.last()
}

/// True when every point of a path, given in the coordinates of the image
/// without its frame, is a foreground cell of the framed image `frame`.
pub open spec fn on_foreground(frame: Raster<u8>, path: Seq<Point>) -> bool {
    forall|i: int| 0 <= i < path.len() ==> is_foreground(frame, (#[trigger] path[i]).x + 1, path[i].y + 1)
}

/// True when every path is a closed ring over foreground cells.
pub open spec fn all_sound(frame: Raster<u8>, paths: Seq<Seq<Point>>) -> bool {
    forall|i: int|
        0 <= i < paths.len() ==> is_ring(#[trigger] paths[i]) && on_foreground(frame, paths[i])
}

/// True when the image is small enough for the coordinates of its cells to
/// be machine values.
pub open spec fn in_range(frame: Raster<u8>) -> bool {
    frame.rows() <= i64::MAX && frame.cols <= i64::MAX
}

/// A walk that closes returns a closed ring over foreground cells.
pub proof fn lemma_walk_is_sound(
    frame: Raster<u8>,
    labels: Raster<i8>,
    x: int,
    y: int,
    heading: int,
    course: Course,
    path: Seq<Point>,
    fuel: nat,
)
    requires
        in_range(frame),
        is_foreground(frame, x, y),
        path.len() >= 1,
        path.first() == unpadded(course.sx, course.sy),
        path.last() == unpadded(x, y),
        on_foreground(frame, path),
    ensures
        ({
            let walked = walk(
                frame,
                labels,
                x,
                y,
                heading,
                x == course.sx && y == course.sy,
                course,
                path,
                fuel,
            );
            walked.closed ==> is_ring(walked.path) && on_foreground(frame, walked.path)
        }),
    decreases fuel,
{
    if fuel > 0 {
        let next = step_from(frame, x, y, heading);
        lemma_step_lands(frame, x, y, heading);
        let at_start = x == course.sx && y == course.sy;
        if !(at_start && next.x == course.tx && next.y == course.ty) {
            let swept = stamp(labels, x, y, heading, next.misses);
            let longer = path.push(unpadded(next.x, next.y));
            assert(is_foreground(frame, next.x, next.y));
            assert forall|i: int| 0 <= i < longer.len() implies is_foreground(
                frame,
                (#[trigger] longer[i]).x + 1,
                longer[i].y + 1,
            ) by {
                if i < path.len() {
                    assert(longer[i] == path[i]);
                }
            }
            assert(longer.first() == path.first());
            lemma_walk_is_sound(
                frame,
                swept.put(next.y, next.x, course.label),
                next.x,
                next.y,
                next.heading,
                course,
                longer,
                (fuel - 1) as nat,
            );
        }
    }
}

/// A boundary walk from a foreground cell that closes returns a closed ring
/// over foreground cells.
pub proof fn lemma_trace_is_sound(
    frame: Raster<u8>,
    labels: Raster<i8>,
    x: int,
    y: int,
    label: i8,
    inner: bool,
    fuel: nat,
)
    requires
        in_range(frame),
        is_foreground(frame, x, y),
    ensures
        ({
            let walked = trace_within(frame, labels, x, y, label, inner, fuel);
            walked.closed ==> is_ring(walked.path) && on_foreground(frame, walked.path)
        }),
{
    let heading = if inner {
        Direction::DownRight.index()
    } else {
        Direction::UpLeft.index()
    };
    let first = step_from(frame, x, y, heading);
    lemma_step_lands(frame, x, y, heading);
    if !(first.x == x && first.y == y) {
        let swept = stamp(labels, x, y, heading, first.misses);
        let path = seq![unpadded(x, y), unpadded(first.x, first.y)];
        let course = Course { sx: x, sy: y, tx: first.x, ty: first.y, label };
        assert(path[0] == unpadded(x, y) && path[1] == unpadded(first.x, first.y));
        lemma_walk_is_sound(
            frame,
            swept.put(first.y, first.x, label),
            first.x,
            first.y,
            first.heading,
            course,
            path,
            fuel,
        );
    } else {
        let path = seq![unpadded(x, y)];
        assert(path[0] == unpadded(x, y));
    }
}

/// One more sound path keeps a list of paths sound.
proof fn lemma_push_sound(frame: Raster<u8>, paths: Seq<Seq<Point>>, path: Seq<Point>)
    requires
        all_sound(frame, paths),
        is_ring(path),
        on_foreground(frame, path),
    ensures
        all_sound(frame, paths.push(path)),
{
    assert forall|i: int| 0 <= i < paths.push(path).len() implies is_ring(
        #[trigger] paths.push(path)[i],
    ) && on_foreground(frame, paths.push(path)[i]) by {
        if i < paths.len() {
            assert(paths.push(path)[i] == paths[i]);
        }
    }
}

/// Visiting a cell keeps the paths of a scan sound.
pub proof fn lemma_visit_is_sound(frame: Raster<u8>, s: Scan, x: int, y: int)
    requires
        in_range(frame),
        all_sound(frame, s.outer),
        all_sound(frame, s.inner),
    ensures
        match visit(frame, s, x, y) {
            Ok(t) => all_sound(frame, t.outer) && all_sound(frame, t.inner),
            Err(_) => true,
        },
{
    reveal(visit);
    if is_foreground(frame, x, y) {
        let after_outer = if opens_outer(frame, s, x, y) {
            open_outer(frame, s, x, y)
        } else {
            Ok(s)
        };
        if opens_outer(frame, s, x, y) && s.next_id <= 127 {
            let id = s.next_id as i8;
            lemma_trace_is_sound(
                frame,
                s.labels.put(y, x, id),
                x,
                y,
                id,
                false,
                trace_budget(frame),
            );
            let walked = trace(frame, s.labels.put(y, x, id), x, y, id, false);
            if walked.closed {
                lemma_push_sound(frame, s.outer, walked.path);
            }
        }
        match after_outer {
            Ok(s1) => {
                if opens_inner(frame, s1, x, y) {
                    let label = inner_label(s1.labels, x, y);
                    lemma_trace_is_sound(
                        frame,
                        s1.labels,
                        x,
                        y,
                        label,
                        true,
                        trace_budget(frame),
                    );
                    let walked = trace(frame, s1.labels, x, y, label, true);
                    if walked.closed {
                        lemma_push_sound(frame, s1.inner, walked.path);
                    }
                }
            },
            Err(_) => {},
        }
    }
}

/// Scanning a row keeps the paths of a scan sound.
pub proof fn lemma_scan_row_is_sound(frame: Raster<u8>, s: Scan, y: int, n: int)
    requires
        in_range(frame),
        all_sound(frame, s.outer),
        all_sound(frame, s.inner),
    ensures
        match scan_row(frame, s, y, n) {
            Ok(t) => all_sound(frame, t.outer) && all_sound(frame, t.inner),
            Err(_) => true,
        },
    decreases n,
{
    if n > 0 {
        lemma_scan_row_is_sound(frame, s, y, n - 1);
        match scan_row(frame, s, y, n - 1) {
            Ok(t) => {
                lemma_visit_is_sound(frame, t, n, y);
            },
            Err(_) => {},
        }
    }
}

/// Scanning rows keeps the paths of a scan sound.
pub proof fn lemma_scan_rows_is_sound(frame: Raster<u8>, s: Scan, m: int, width: int)
    requires
        in_range(frame),
        all_sound(frame, s.outer),
        all_sound(frame, s.inner),
    ensures
        match scan_rows(frame, s, m, width) {
            Ok(t) => all_sound(frame, t.outer) && all_sound(frame, t.inner),
            Err(_) => true,
        },
    decreases m,
{
    if m > 0 {
        lemma_scan_rows_is_sound(frame, s, m - 1, width);
        match scan_rows(frame, s, m - 1, width) {
            Ok(t) => {
                lemma_scan_row_is_sound(frame, t, m, width);
            },
            Err(_) => {},
        }
    }
}

/// True when every path is a closed ring whose points are foreground cells
/// of `image`.
pub open spec fn rings_of_foreground(image: Raster<u8>, paths: Seq<Seq<Point>>) -> bool {
    forall|i: int|
        0 <= i < paths.len() ==> is_ring(#[trigger] paths[i]) && forall|k: int|
            0 <= k < paths[i].len() ==> is_foreground(image, (#[trigger] paths[i][k]).x as int, paths[i][k].y as int)
}

/// Every path that the tracer returns, outer or inner, is a closed ring, and
/// each of its points is a foreground cell of the image.
pub proof fn lemma_contours_are_rings(image: Raster<u8>)
    requires
        image.wf(),
    ensures
        match contours_of(image) {
            Ok((labels, outer, inner)) => rings_of_foreground(image, outer) && rings_of_foreground(
                image,
                inner,
            ),
            Err(_) => true,
        },
{
    if frame_fits(image) {
        let frame = framed(image);
        let start = fresh_scan(image.rows() + 2, image.cols + 2);
        lemma_scan_rows_is_sound(frame, start, image.rows() as int, image.cols as int);
        match scan_rows(frame, start, image.rows() as int, image.cols as int) {
            Ok(s) => {
                lemma_unframed(image, s.outer);
                lemma_unframed(image, s.inner);
            },
            Err(_) => {},
        }
    }
}

/// Paths that are sound on the framed image are rings of foreground cells of
/// the image itself.
proof fn lemma_unframed(image: Raster<u8>, paths: Seq<Seq<Point>>)
    requires
        image.wf(),
        all_sound(framed(image), paths),
    ensures
        rings_of_foreground(image, paths),
{
    let frame = framed(image);
    assert forall|i: int| 0 <= i < paths.len() implies is_ring(#[trigger] paths[i]) && forall|
        k: int,
    |
        0 <= k < paths[i].len() ==> is_foreground(
            image,
            (#[trigger] paths[i][k]).x as int,
            paths[i][k].y as int,
        ) by {
        assert(on_foreground(frame, paths[i]));
        assert forall|k: int| 0 <= k < paths[i].len() implies is_foreground(
            image,
            (#[trigger] paths[i][k]).x as int,
            paths[i][k].y as int,
        ) by {
            let p = paths[i][k];
            assert(is_foreground(frame, p.x + 1, p.y + 1));
            assert(frame.has(p.y + 1, p.x + 1));
            assert(frame.at(p.y + 1, p.x + 1) != 0);
            assert(image.has(p.y as int, p.x as int));
        }
    }
}

} // verus!
