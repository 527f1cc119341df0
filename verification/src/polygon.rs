//! Rings of points with a cached bounding box and a reversible shift.

use crate::geometry::{bounds_of, lemma_bounds_of_tight, union_of, Error, Extents, Point};
use vstd::prelude::*;

verus! {

/// An ordered ring of at least one point, together with its bounding box,
/// whether it is closed, and the shift applied to it so far.
#[derive(Debug, Clone)]
pub struct Polygon {
    points: Vec<Point>,
    extents: Extents,
    valid: bool,
    shifted: bool,
    offset: Point,
}

/// What a `Polygon` holds, as plain mathematical values.
pub struct PolygonView {
    pub points: Seq<Point>,
    pub extents: Extents,
    pub valid: bool,
    pub shifted: bool,
    pub offset: Point,
}

/// Each point of `points` shifted by `(dx, dy)`.
pub open spec fn shift_points(points: Seq<Point>, dx: int, dy: int) -> Seq<Point> {
    Seq::new(points.len(), |i: int| points[i].shifted_by(dx, dy))
}

impl PolygonView {
    /// The invariant of a ring: it has a point, the cached box is the box of
    /// its points, `valid` says whether it is closed, `shifted` says whether
    /// the accumulated offset is non-zero, and undoing the offset stays
    /// within the machine range.
    pub open spec fn wf(self) -> bool {
        &&& self.points.len() >= 1
        &&& self.extents == bounds_of(self.points)
        &&& self.valid == (self.points.first() == self.points.last())
        &&& self.shifted == (self.offset != Point { x: 0, y: 0 })
        &&& self.extents.can_shift(-self.offset.x, -self.offset.y)
    }

    /// The ring as it is right after construction from `points`.
    pub open spec fn of_points(points: Seq<Point>) -> PolygonView {
        PolygonView {
            points,
            extents: bounds_of(points),
            valid: points.first() == points.last(),
            shifted: false,
            offset: Point { x: 0, y: 0 },
        }
    }

    /// The ring with a copy of its first point appended, unless it is closed
    /// already.
    pub open spec fn closed(self) -> PolygonView {
        if self.valid {
            self
        } else {
            PolygonView { points: self.points.push(self.points.first()), valid: true, ..self }
        }
    }

    /// True when the box and the accumulated offset can both take a further
    /// shift by `(dx, dy)`.
    pub open spec fn can_shift(self, dx: int, dy: int) -> bool {
        self.extents.can_shift(dx, dy) && self.offset.can_shift(dx, dy)
    }

    /// The ring shifted by `(dx, dy)`.
    pub open spec fn shifted_by(self, dx: int, dy: int) -> PolygonView {
        let offset = self.offset.shifted_by(dx, dy);
        PolygonView {
            points: shift_points(self.points, dx, dy),
            extents: self.extents.shifted_by(dx, dy),
            valid: self.valid,
            shifted: offset != (Point { x: 0, y: 0 }),
            offset,
        }
    }

    /// The ring moved back to where it was before any shift.
    pub open spec fn corrected(self) -> PolygonView {
        self.shifted_by(-self.offset.x, -self.offset.y)
    }

    /// True when the ring's box falls partly outside
    /// `[0, width) x [0, height)`.
    pub open spec fn outside(self, width: int, height: int) -> bool {
        self.extents.outside(width, height)
    }
}

/// Shifting the points of a non-empty sequence shifts its bounding
/// box.
pub proof fn lemma_bounds_of_shift(points: Seq<Point>, dx: int, dy: int)
    requires
        points.len() > 0,
        bounds_of(points).can_shift(dx, dy),
    ensures
        bounds_of(shift_points(points, dx, dy)) == bounds_of(points).shifted_by(dx, dy),
    decreases points.len(),
{
    let moved = shift_points(points, dx, dy);
    let front = points.drop_last();
    assert(moved.drop_last() =~= shift_points(front, dx, dy));
    assert(moved.last() == points.last().shifted_by(dx, dy));
    lemma_bounds_of_tight(points);
    assert(bounds_of(points).holds(points[points.len() - 1]));
    if front.len() == 0 {
        assert(bounds_of(front) == Extents::empty());
        assert(bounds_of(moved.drop_last()) == Extents::empty());
    } else {
        lemma_bounds_of_tight(front);
        assert(bounds_of(front).holds(front[0]));
        lemma_bounds_of_shift(front, dx, dy);
    }
}

/// A shift followed by the correction leaves a ring that had no
/// offset exactly as it was: the same points, the same box, and not shifted.
pub proof fn lemma_shift_then_correct(p: PolygonView, dx: int, dy: int)
    requires
        p.wf(),
        !p.shifted,
        p.can_shift(dx, dy),
    ensures
        p.shifted_by(dx, dy).corrected().points == p.points,
        p.shifted_by(dx, dy).corrected().extents == p.extents,
        !p.shifted_by(dx, dy).corrected().shifted,
        p.shifted_by(dx, dy).corrected() == p,
{
    lemma_shift_then_correct_any(p, dx, dy);
    lemma_correct_unshifted(p);
}

/// However far a ring has been shifted already, one more shift
/// followed by the correction gives what the correction alone gives.
pub proof fn lemma_shift_then_correct_any(p: PolygonView, dx: int, dy: int)
    requires
        p.wf(),
        p.can_shift(dx, dy),
    ensures
        p.shifted_by(dx, dy).corrected() == p.corrected(),
{
    let q = p.shifted_by(dx, dy);
    lemma_bounds_of_tight(p.points);
    assert(q.corrected().points =~= p.corrected().points) by {
        assert forall|i: int| 0 <= i < p.points.len() implies q.corrected().points[i]
            == p.corrected().points[i] by {
            assert(p.extents.holds(p.points[i]));
        }
    }
}

/// The correction of a ring without offset changes nothing.
pub proof fn lemma_correct_unshifted(p: PolygonView)
    requires
        p.wf(),
        !p.shifted,
    ensures
        p.corrected() == p,
{
    assert(p.corrected().points =~= p.points);
}

/// A shift that fits keeps the invariant of a ring.
pub proof fn lemma_shift_keeps_wf(p: PolygonView, dx: int, dy: int)
    requires
        p.wf(),
        p.can_shift(dx, dy),
    ensures
        p.shifted_by(dx, dy).wf(),
{
    let q = p.shifted_by(dx, dy);
    lemma_bounds_of_shift(p.points, dx, dy);
    lemma_bounds_of_tight(p.points);
    let last = p.points.len() - 1;
    assert(p.extents.holds(p.points[0]));
    assert(p.extents.holds(p.points[last]));
    assert(q.points.first() == p.points[0].shifted_by(dx, dy));
    assert(q.points.last() == p.points[last].shifted_by(dx, dy));
}

/// Closing keeps the invariant of a ring.
pub proof fn lemma_close_keeps_wf(p: PolygonView)
    requires
        p.wf(),
    ensures
        p.closed().wf(),
        p.closed().valid,
        p.closed().closed() == p.closed(),
{
    if !p.valid {
        let q = p.closed();
        assert(q.points.drop_last() =~= p.points);
        lemma_bounds_of_tight(p.points);
        assert(p.extents.holds(p.points[0]));
    }
}

impl View for Polygon {
    type V = PolygonView;

    closed spec fn view(&self) -> PolygonView {
        PolygonView {
            points: self.points@,
            extents: self.extents,
            valid: self.valid,
            shifted: self.shifted,
            offset: self.offset,
        }
    }
}

impl Polygon {
    /// The invariant that every constructor establishes and every method
    /// keeps.
    pub open spec fn wf(&self) -> bool {
        self@.wf()
    }

    /// Builds a ring from its points; an empty list is refused.
    pub fn new(points: Vec<Point>) -> (r: Result<Polygon, Error>)
        ensures
            points@.len() == 0 ==> r == Err::<Polygon, Error>(Error::InvalidArgument),
            points@.len() > 0 ==> r.is_ok() && r.unwrap()@ == PolygonView::of_points(points@)
                && r.unwrap().wf(),
    {
        if points.len() == 0 {
            return Err(Error::InvalidArgument);
        }
        let extents: Extents = Polygon::get_extents(&points);
        let first: Point = points[0];
        let last: Point = points[points.len() - 1];
        let valid: bool = first.x == last.x && first.y == last.y;
        Ok(Polygon { points, extents, valid, shifted: false, offset: Point { x: 0, y: 0 } })
    }

    /// Appends a copy of the first point unless the ring is closed already.
    pub fn close(&mut self)
        requires
            old(self).wf(),
        ensures
            final(self)@ == old(self)@.closed(),
            final(self).wf(),
            final(self)@.valid,
    {
        proof {
            lemma_close_keeps_wf(self@);
        }
        if self.points.len() > 0 {
            let first: Point = self.points[0];
            let last: Point = self.points[self.points.len() - 1];
            if first != last {
                self.points.push(first);
                self.valid = true;
            }
        }
    }

    pub fn as_mut(&mut self) -> (r: &mut Self)
        ensures
            *r == *old(self),
            *final(self) == *final(r),
    {
        self
    }

    pub fn points(&self) -> (r: &Vec<Point>)
        ensures
            r@ == self@.points,
    {
        &self.points
    }

    pub fn valid(&self) -> (r: bool)
        ensures
            r == self@.valid,
    {
        self.valid
    }

    pub fn extents(&self) -> (r: Extents)
        ensures
            r == self@.extents,
    {
        self.extents
    }

    /// True when the shift applied so far is not zero.
    pub fn shifted(&self) -> (r: bool)
        ensures
            r == self@.shifted,
    {
        self.shifted
    }

    /// The shift applied so far.
    pub fn offset(&self) -> (r: Point)
        ensures
            r == self@.offset,
    {
        self.offset
    }

    /// The bounding box of `points`, by one scan.
    pub fn get_extents(points: &Vec<Point>) -> (r: Extents)
        ensures
            r == bounds_of(points@),
    {
        let mut min_x: i64 = i64::MAX;
        let mut min_y: i64 = i64::MAX;
        let mut max_x: i64 = i64::MIN;
        let mut max_y: i64 = i64::MIN;
        let mut i: usize = 0;
        while i < points.len()
            invariant
                i <= points@.len(),
                (Extents { min_x, min_y, max_x, max_y }) == bounds_of(points@.take(i as int)),
            decreases points@.len() - i,
        {
            let point: Point = points[i];
            proof {
                assert(points@.take(i + 1).drop_last() =~= points@.take(i as int));
                assert(points@.take(i + 1).last() == point);
            }
            if point.x < min_x {
                min_x = point.x;
            }
            if point.y < min_y {
                min_y = point.y;
            }
            if point.x > max_x {
                max_x = point.x;
            }
            if point.y > max_y {
                max_y = point.y;
            }
            i += 1;
        }
        assert(points@.take(i as int) =~= points@);
        Extents { min_x, min_y, max_x, max_y }
    }

    /// True when `shift(x, y)` would succeed.
    pub fn can_shift(&self, x: i64, y: i64) -> (r: bool)
        ensures
            r == self@.can_shift(x as int, y as int),
    {
        self.extents.min_x.checked_add(x).is_some() && self.extents.max_x.checked_add(x).is_some()
            && self.extents.min_y.checked_add(y).is_some() && self.extents.max_y.checked_add(
            y,
        ).is_some() && self.offset.x.checked_add(x).is_some() && self.offset.y.checked_add(
            y,
        ).is_some()
    }

    /// Shifts every point and the box by `(x, y)` and adds `(x, y)` to
    /// the accumulated offset. Where the box or the offset would leave the
    /// machine range, the ring is left untouched and the call is refused.
    pub fn shift(&mut self, x: i64, y: i64) -> (r: Result<(), Error>)
        requires
            old(self).wf(),
        ensures
            final(self).wf(),
            old(self)@.can_shift(x as int, y as int) ==> r == Ok::<(), Error>(()) && final(self)@
                == old(self)@.shifted_by(x as int, y as int),
            !old(self)@.can_shift(x as int, y as int) ==> r == Err::<(), Error>(
                Error::InvalidArgument,
            ) && final(self)@ == old(self)@,
    {
        if !self.can_shift(x, y) {
            return Err(Error::InvalidArgument);
        }
        proof {
            lemma_shift_keeps_wf(self@, x as int, y as int);
            lemma_bounds_of_tight(self@.points);
        }
        let ghost before: Seq<Point> = self.points@;
        let n: usize = self.points.len();
        let mut i: usize = 0;
        while i < n
            invariant
                i <= n,
                n == before.len(),
                self.points@.len() == n,
                self.extents == old(self).extents,
                self.offset == old(self).offset,
                self.valid == old(self).valid,
                self.extents.can_shift(x as int, y as int),
                forall|j: int| 0 <= j < n ==> self.extents.holds(#[trigger] before[j]),
                forall|j: int| 0 <= j < i ==> self.points@[j] == before[j].shifted_by(x as int, y as int),
                forall|j: int| i <= j < n ==> self.points@[j] == before[j],
            decreases n - i,
        {
            let point: Point = self.points[i];
            assert(self.extents.holds(before[i as int]));
            self.points.set(i, Point { x: point.x + x, y: point.y + y });
            i += 1;
        }
        assert(self.points@ =~= shift_points(before, x as int, y as int));
        self.extents = Extents {
            min_x: self.extents.min_x + x,
            min_y: self.extents.min_y + y,
            max_x: self.extents.max_x + x,
            max_y: self.extents.max_y + y,
        };
        self.offset = Point { x: self.offset.x + x, y: self.offset.y + y };
        self.shifted = !(self.offset.x == 0 && self.offset.y == 0);
        Ok(())
    }

    /// Moves a shifted ring back to where it was before any shift, in
    /// one step, and clears the accumulated offset.
    pub fn correct(&mut self)
        requires
            old(self).wf(),
        ensures
            final(self).wf(),
            final(self)@ == old(self)@.corrected(),
            final(self)@.offset == (Point { x: 0, y: 0 }),
            !final(self)@.shifted,
    {
        let ghost dx: int = -self.offset.x;
        let ghost dy: int = -self.offset.y;
        proof {
            lemma_bounds_of_tight(self@.points);
            lemma_bounds_of_shift(self@.points, dx, dy);
            let last = self@.points.len() - 1;
            assert(self@.extents.holds(self@.points[0]));
            assert(self@.extents.holds(self@.points[last]));
            assert(self@.corrected().points.first() == self@.points[0].shifted_by(dx, dy));
            assert(self@.corrected().points.last() == self@.points[last].shifted_by(dx, dy));
        }
        if self.shifted {
            let ghost before: Seq<Point> = self.points@;
            let back: Point = self.offset;
            let n: usize = self.points.len();
            let mut i: usize = 0;
            while i < n
                invariant
                    i <= n,
                    n == before.len(),
                    self.points@.len() == n,
                    self.extents == old(self).extents,
                    self.offset == old(self).offset,
                    self.valid == old(self).valid,
                    back == self.offset,
                    dx == -back.x,
                    dy == -back.y,
                    self.extents.can_shift(dx, dy),
                    forall|j: int| 0 <= j < n ==> self.extents.holds(#[trigger] before[j]),
                    forall|j: int| 0 <= j < i ==> self.points@[j] == before[j].shifted_by(dx, dy),
                    forall|j: int| i <= j < n ==> self.points@[j] == before[j],
                decreases n - i,
            {
                let point: Point = self.points[i];
                assert(self.extents.holds(before[i as int]));
                self.points.set(i, Point { x: point.x - back.x, y: point.y - back.y });
                i += 1;
            }
            assert(self.points@ =~= shift_points(before, dx, dy));
            self.extents = Extents {
                min_x: self.extents.min_x - back.x,
                min_y: self.extents.min_y - back.y,
                max_x: self.extents.max_x - back.x,
                max_y: self.extents.max_y - back.y,
            };
            self.offset = Point { x: 0, y: 0 };
            self.shifted = false;
        } else {
            assert(self.points@ =~= shift_points(self.points@, dx, dy));
        }
    }

    /// True when the ring's box falls partly outside
    /// `[0, width) x [0, height)`.
    pub fn out_of_bounds(&self, width: usize, height: usize) -> (r: bool)
        ensures
            r == self@.outside(width as int, height as int),
    {
        self.extents.min_x < 0 || self.extents.min_y < 0 || self.extents.max_x as i128
            >= width as i128 || self.extents.max_y as i128 >= height as i128
    }
}

/// An ordered collection of rings with the box that spans all of them.
pub struct ComplexPolygon {
    polygons: Vec<Polygon>,
    extents: Extents,
    valid: bool,
    shifted: bool,
    offset: Point,
}

/// What a `ComplexPolygon` holds, as plain mathematical values.
pub struct ComplexPolygonView {
    pub polygons: Seq<PolygonView>,
    pub extents: Extents,
    pub valid: bool,
    pub shifted: bool,
    pub offset: Point,
}

/// The views of a sequence of rings.
pub open spec fn ring_views(polygons: Seq<Polygon>) -> Seq<PolygonView> {
    Seq::new(polygons.len(), |i: int| polygons[i]@)
}

/// The boxes of a sequence of rings.
pub open spec fn ring_boxes(rings: Seq<PolygonView>) -> Seq<Extents> {
    Seq::new(rings.len(), |i: int| rings[i].extents)
}

/// The point lists of a list of paths.
pub open spec fn path_views(paths: Seq<Vec<Point>>) -> Seq<Seq<Point>> {
    Seq::new(paths.len(), |i: int| paths[i]@)
}

/// True when a point list is a closed ring: first point equal to last.
pub open spec fn is_closed_path(points: Seq<Point>) -> bool {
    points.first() == points.last()
}

impl ComplexPolygonView {
    /// The collection built from `paths`: one ring per path, each closed if
    /// it was not, the box spanning all rings, and `valid` exactly when no
    /// path needed closing.
    pub open spec fn of_paths(paths: Seq<Seq<Point>>) -> ComplexPolygonView {
        let polygons = Seq::new(paths.len(), |i: int| PolygonView::of_points(paths[i]).closed());
        ComplexPolygonView {
            polygons,
            extents: union_of(ring_boxes(polygons)),
            valid: forall|i: int| 0 <= i < paths.len() ==> is_closed_path(#[trigger] paths[i]),
            shifted: false,
            offset: Point { x: 0, y: 0 },
        }
    }

    /// Every ring is well formed and closed, and the cached box spans them.
    pub open spec fn wf(self) -> bool {
        &&& forall|i: int|
            0 <= i < self.polygons.len() ==> (#[trigger] self.polygons[i]).wf()
                && self.polygons[i].valid
        &&& self.extents == union_of(ring_boxes(self.polygons))
    }
}

impl View for ComplexPolygon {
    type V = ComplexPolygonView;

    closed spec fn view(&self) -> ComplexPolygonView {
        ComplexPolygonView {
            polygons: ring_views(self.polygons@),
            extents: self.extents,
            valid: self.valid,
            shifted: self.shifted,
            offset: self.offset,
        }
    }
}

/// An element-by-element copy of a point list.
pub(crate) fn copy_points(points: &Vec<Point>) -> (r: Vec<Point>)
    ensures
        r@ == points@,
{
    let mut copy: Vec<Point> = Vec::new();
    let mut i: usize = 0;
    while i < points.len()
        invariant
            i <= points@.len(),
            copy@ == points@.take(i as int),
        decreases points@.len() - i,
    {
        copy.push(points[i]);
        assert(points@.take(i + 1) =~= points@.take(i as int).push(points@[i as int]));
        i += 1;
    }
    assert(points@.take(i as int) =~= points@);
    copy
}

impl ComplexPolygon {
    /// The invariant that `from_paths` establishes.
    pub open spec fn wf(&self) -> bool {
        self@.wf()
    }

    /// Builds one ring per path. A path that is not closed is closed, and
    /// the collection then counts as not valid. An empty path is refused.
    pub fn from_paths(paths: Vec<Vec<Point>>) -> (r: Result<ComplexPolygon, Error>)
        ensures
            (exists|i: int| 0 <= i < paths@.len() && (#[trigger] paths@[i])@.len() == 0) ==> r
                == Err::<ComplexPolygon, Error>(Error::InvalidArgument),
            (forall|i: int| 0 <= i < paths@.len() ==> (#[trigger] paths@[i])@.len() > 0)
                ==> r.is_ok() && r.unwrap()@ == ComplexPolygonView::of_paths(path_views(paths@))
                && r.unwrap().wf(),
    {
        let ghost lists: Seq<Seq<Point>> = path_views(paths@);
        let ghost target: ComplexPolygonView = ComplexPolygonView::of_paths(lists);
        let mut polygons: Vec<Polygon> = Vec::new();
        let mut extents: Extents = Extents {
            min_x: i64::MAX,
            min_y: i64::MAX,
            max_x: i64::MIN,
            max_y: i64::MIN,
        };
        let mut valid: bool = true;
        let mut k: usize = 0;
        while k < paths.len()
            invariant
                k <= paths@.len(),
                lists == path_views(paths@),
                target == ComplexPolygonView::of_paths(lists),
                forall|i: int| 0 <= i < k ==> (#[trigger] paths@[i])@.len() > 0,
                ring_views(polygons@) == target.polygons.take(k as int),
                forall|i: int|
                    0 <= i < k ==> (#[trigger] ring_views(polygons@)[i]).wf() && ring_views(
                        polygons@,
                    )[i].valid,
                extents == union_of(ring_boxes(target.polygons.take(k as int))),
                valid == (forall|i: int| 0 <= i < k ==> is_closed_path(#[trigger] lists[i])),
            decreases paths@.len() - k,
        {
            let path: Vec<Point> = copy_points(&paths[k]);
            let mut polygon: Polygon = match Polygon::new(path) {
                Ok(polygon) => polygon,
                Err(e) => {
                    assert(paths@[k as int]@.len() == 0);
                    return Err(e);
                },
            };
            assert(lists[k as int] == paths@[k as int]@);
            if !polygon.valid() {
                valid = false;
                polygon.close();
            }
            proof {
                lemma_close_keeps_wf(PolygonView::of_points(lists[k as int]));
                let rings = target.polygons.take(k + 1);
                assert(polygon@ == target.polygons[k as int]);
                assert(ring_boxes(rings).drop_last() =~= ring_boxes(target.polygons.take(k as int)));
                assert(ring_boxes(rings).last() == polygon@.extents);
            }
            let ring: Extents = polygon.extents();
            if ring.min_x < extents.min_x {
                extents.min_x = ring.min_x;
            }
            if ring.min_y < extents.min_y {
                extents.min_y = ring.min_y;
            }
            if ring.max_x > extents.max_x {
                extents.max_x = ring.max_x;
            }
            if ring.max_y > extents.max_y {
                extents.max_y = ring.max_y;
            }
            polygons.push(polygon);
            assert(ring_views(polygons@) =~= target.polygons.take(k + 1));
            k += 1;
        }
        assert(target.polygons.take(k as int) =~= target.polygons);
        Ok(ComplexPolygon { polygons, extents, valid, shifted: false, offset: Point { x: 0, y: 0 } })
    }

    pub fn polygons(&self) -> (r: &Vec<Polygon>)
        ensures
            ring_views(r@) == self@.polygons,
    {
        &self.polygons
    }

    pub fn valid(&self) -> (r: bool)
        ensures
            r == self@.valid,
    {
        self.valid
    }

    pub fn extents(&self) -> (r: Extents)
        ensures
            r == self@.extents,
    {
        self.extents
    }
}

} // verus!
