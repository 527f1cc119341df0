//! Integer points, bounding boxes and the eight compass directions.

use vstd::prelude::*;

verus! {

/// Why an operation was refused.
#[derive(Debug, Clone, Copy, PartialEq, Eq, Structural)]
pub enum Error {
    /// An empty ring, or coordinates so extreme that the arithmetic on them
    /// leaves the machine range.
    InvalidArgument,
    /// More outer contours than there are contour ids.
    CapacityExceeded,
    /// A boundary walk that never meets its stopping rule.
    TraceDiverged,
}

/// A grid position.
#[derive(Debug, Clone, Copy, PartialEq, Eq, Structural)]
pub struct Point {
    pub x: i64,
    pub y: i64,
}

/// True when `v` is a value of `i64`.
pub open spec fn fits_i64(v: int) -> bool {
    i64::MIN <= v <= i64::MAX
}

impl Point {
    /// True when shifting by `(dx, dy)` stays within the machine range.
    pub open spec fn can_shift(self, dx: int, dy: int) -> bool {
        fits_i64(self.x + dx) && fits_i64(self.y + dy)
    }

    /// The point shifted by `(dx, dy)`.
    pub open spec fn shifted_by(self, dx: int, dy: int) -> Point {
        Point { x: (self.x + dx) as i64, y: (self.y + dy) as i64 }
    }

    /// Half-open bounds test against a `width` by `height` raster.
    pub open spec fn outside(self, width: int, height: int) -> bool {
        self.x < 0 || self.y < 0 || self.x >= width || self.y >= height
    }

    pub fn new(x: i64, y: i64) -> (r: Self)
        ensures
            r == (Point { x, y }),
    {
        Self { x, y }
    }

    pub fn to_tuple(&self) -> (r: Vec<i64>)
        ensures
            r@ == seq![self.x, self.y],
    {
        let mut pair: Vec<i64> = Vec::new();
        pair.push(self.x);
        pair.push(self.y);
        assert(pair@ =~= seq![self.x, self.y]);
        pair
    }

    /// Shifts the point in place, or refuses and leaves it untouched when
    /// a coordinate would leave the machine range.
    pub fn shift(&mut self, x: i64, y: i64) -> (r: Result<(), Error>)
        ensures
            old(self).can_shift(x as int, y as int) ==> r == Ok::<(), Error>(()) && *final(self)
                == old(self).shifted_by(x as int, y as int),
            !old(self).can_shift(x as int, y as int) ==> r == Err::<(), Error>(
                Error::InvalidArgument,
            ) && *final(self) == *old(self),
    {
        match self.shift_clone(x, y) {
            Ok(moved) => {
                *self = moved;
                Ok(())
            },
            Err(e) => Err(e),
        }
    }

    /// The shifted point, or a refusal when a coordinate would leave the
    /// machine range.
    pub fn shift_clone(&self, x: i64, y: i64) -> (r: Result<Point, Error>)
        ensures
            self.can_shift(x as int, y as int) ==> r == Ok::<Point, Error>(
                self.shifted_by(x as int, y as int),
            ),
            !self.can_shift(x as int, y as int) ==> r == Err::<Point, Error>(
                Error::InvalidArgument,
            ),
    {
        match (self.x.checked_add(x), self.y.checked_add(y)) {
            (Some(nx), Some(ny)) => Ok(Point { x: nx, y: ny }),
            _ => Err(Error::InvalidArgument),
        }
    }

    pub fn out_of_bounds(self, width: usize, height: usize) -> (r: bool)
        ensures
            r == self.outside(width as int, height as int),
    {
        self.x < 0 || self.y < 0 || self.x as i128 >= width as i128 || self.y as i128
            >= height as i128
    }

    pub fn as_mut(&mut self) -> (r: &mut Self)
        ensures
            *r == *old(self),
            *final(self) == *final(r),
    {
        self
    }
}

impl core::ops::Add for Point {
    type Output = Point;

    /// The sum of two points, coordinate by coordinate.
    fn add(self, other: Point) -> (r: Point) {
        Point { x: self.x + other.x, y: self.y + other.y }
    }
}

impl vstd::std_specs::ops::AddSpecImpl for Point {
    open spec fn obeys_add_spec() -> bool {
        true
    }

    open spec fn add_req(self, other: Point) -> bool {
        self.can_shift(other.x as int, other.y as int)
    }

    open spec fn add_spec(self, other: Point) -> Point {
        self.shifted_by(other.x as int, other.y as int)
    }
}

/// An axis-aligned bounding box, inclusive on every side.
#[derive(Debug, Clone, Copy, PartialEq, Eq, Structural)]
pub struct Extents {
    pub min_x: i64,
    pub min_y: i64,
    pub max_x: i64,
    pub max_y: i64,
}

impl Extents {
    /// The box of no points at all: every minimum at the top of the range,
    /// every maximum at the bottom.
    pub open spec fn empty() -> Extents {
        Extents { min_x: i64::MAX, min_y: i64::MAX, max_x: i64::MIN, max_y: i64::MIN }
    }

    /// The smallest box that holds both `self` and `other`.
    pub open spec fn union(self, other: Extents) -> Extents {
        Extents {
            min_x: if other.min_x < self.min_x { other.min_x } else { self.min_x },
            min_y: if other.min_y < self.min_y { other.min_y } else { self.min_y },
            max_x: if other.max_x > self.max_x { other.max_x } else { self.max_x },
            max_y: if other.max_y > self.max_y { other.max_y } else { self.max_y },
        }
    }

    /// The box of the single point `p`.
    pub open spec fn of_point(p: Point) -> Extents {
        Extents { min_x: p.x, min_y: p.y, max_x: p.x, max_y: p.y }
    }

    /// True when `p` lies inside the box.
    pub open spec fn holds(self, p: Point) -> bool {
        self.min_x <= p.x <= self.max_x && self.min_y <= p.y <= self.max_y
    }

    /// True when shifting by `(dx, dy)` stays within the machine range.
    pub open spec fn can_shift(self, dx: int, dy: int) -> bool {
        &&& fits_i64(self.min_x + dx)
        &&& fits_i64(self.max_x + dx)
        &&& fits_i64(self.min_y + dy)
        &&& fits_i64(self.max_y + dy)
    }

    /// The box shifted by `(dx, dy)`.
    pub open spec fn shifted_by(self, dx: int, dy: int) -> Extents {
        Extents {
            min_x: (self.min_x + dx) as i64,
            min_y: (self.min_y + dy) as i64,
            max_x: (self.max_x + dx) as i64,
            max_y: (self.max_y + dy) as i64,
        }
    }

    /// True when the box falls partly outside `[0, width) x [0, height)`.
    pub open spec fn outside(self, width: int, height: int) -> bool {
        self.min_x < 0 || self.min_y < 0 || self.max_x >= width || self.max_y >= height
    }

    /// Number of columns the box spans.
    pub open spec fn width(self) -> int {
        self.max_x - self.min_x + 1
    }

    /// Number of rows the box spans.
    pub open spec fn height(self) -> int {
        self.max_y - self.min_y + 1
    }
}

/// The bounding box of a sequence of points, built up point by point from the
/// empty box.
pub open spec fn bounds_of(points: Seq<Point>) -> Extents
    decreases points.len(),
{
    if points.len() == 0 {
        Extents::empty()
    } else {
        bounds_of(points.drop_last()).union(Extents::of_point(points.last()))
    }
}

/// The union of a sequence of boxes, starting from the empty box.
pub open spec fn union_of(boxes: Seq<Extents>) -> Extents
    decreases boxes.len(),
{
    if boxes.len() == 0 {
        Extents::empty()
    } else {
        union_of(boxes.drop_last()).union(boxes.last())
    }
}

/// Every point of a sequence lies inside the sequence's bounding box, and
/// each side of the box of a non-empty sequence is touched by some point.
pub proof fn lemma_bounds_of_tight(points: Seq<Point>)
    ensures
        forall|i: int| 0 <= i < points.len() ==> bounds_of(points).holds(#[trigger] points[i]),
        points.len() > 0 ==> {
            &&& exists|i: int| 0 <= i < points.len() && #[trigger] points[i].x == bounds_of(points).min_x
            &&& exists|i: int| 0 <= i < points.len() && #[trigger] points[i].y == bounds_of(points).min_y
            &&& exists|i: int| 0 <= i < points.len() && #[trigger] points[i].x == bounds_of(points).max_x
            &&& exists|i: int| 0 <= i < points.len() && #[trigger] points[i].y == bounds_of(points).max_y
        },
    decreases points.len(),
{
    if points.len() > 0 {
        let front = points.drop_last();
        let last = points.last();
        let whole = bounds_of(points);
        lemma_bounds_of_tight(front);
        assert forall|i: int| 0 <= i < points.len() implies whole.holds(#[trigger] points[i]) by {
            if i < front.len() {
                assert(front[i] == points[i]);
                assert(bounds_of(front).holds(front[i]));
            }
        }
        let n = points.len() - 1;
        assert(points[n] == last);
        if front.len() == 0 {
            assert(bounds_of(front) == Extents::empty());
            assert(points[n].x == whole.min_x);
            assert(points[n].y == whole.min_y);
            assert(points[n].x == whole.max_x);
            assert(points[n].y == whole.max_y);
        } else {
            let ax = choose|i: int| 0 <= i < front.len() && #[trigger] front[i].x == bounds_of(front).min_x;
            let ay = choose|i: int| 0 <= i < front.len() && #[trigger] front[i].y == bounds_of(front).min_y;
            let bx = choose|i: int| 0 <= i < front.len() && #[trigger] front[i].x == bounds_of(front).max_x;
            let by = choose|i: int| 0 <= i < front.len() && #[trigger] front[i].y == bounds_of(front).max_y;
            assert(front[ax] == points[ax] && front[ay] == points[ay] && front[bx] == points[bx]
                && front[by] == points[by]);
            let wx = if last.x < bounds_of(front).min_x { n } else { ax };
            let wy = if last.y < bounds_of(front).min_y { n } else { ay };
            let vx = if last.x > bounds_of(front).max_x { n } else { bx };
            let vy = if last.y > bounds_of(front).max_y { n } else { by };
            assert(points[wx].x == whole.min_x);
            assert(points[wy].y == whole.min_y);
            assert(points[vx].x == whole.max_x);
            assert(points[vy].y == whole.max_y);
        }
    }
}

/// The union of a sequence of boxes reaches at least as far as each of them
/// on every side, and each side of the union of a non-empty sequence is a
/// side of one of them.
pub proof fn lemma_union_of_tight(boxes: Seq<Extents>)
    ensures
        forall|i: int|
            0 <= i < boxes.len() ==> {
                &&& union_of(boxes).min_x <= (#[trigger] boxes[i]).min_x
                &&& union_of(boxes).min_y <= boxes[i].min_y
                &&& union_of(boxes).max_x >= boxes[i].max_x
                &&& union_of(boxes).max_y >= boxes[i].max_y
            },
        boxes.len() > 0 ==> {
            &&& exists|i: int| 0 <= i < boxes.len() && (#[trigger] boxes[i]).min_x == union_of(boxes).min_x
            &&& exists|i: int| 0 <= i < boxes.len() && (#[trigger] boxes[i]).min_y == union_of(boxes).min_y
            &&& exists|i: int| 0 <= i < boxes.len() && (#[trigger] boxes[i]).max_x == union_of(boxes).max_x
            &&& exists|i: int| 0 <= i < boxes.len() && (#[trigger] boxes[i]).max_y == union_of(boxes).max_y
        },
    decreases boxes.len(),
{
    if boxes.len() > 0 {
        let front = boxes.drop_last();
        let last = boxes.last();
        let whole = union_of(boxes);
        lemma_union_of_tight(front);
        assert forall|i: int| 0 <= i < boxes.len() implies {
            &&& whole.min_x <= (#[trigger] boxes[i]).min_x
            &&& whole.min_y <= boxes[i].min_y
            &&& whole.max_x >= boxes[i].max_x
            &&& whole.max_y >= boxes[i].max_y
        } by {
            if i < front.len() {
                assert(front[i] == boxes[i]);
            }
        }
        let n = boxes.len() - 1;
        assert(boxes[n] == last);
        if front.len() == 0 {
            assert(union_of(front) == Extents::empty());
            assert(boxes[n].min_x == whole.min_x);
            assert(boxes[n].min_y == whole.min_y);
            assert(boxes[n].max_x == whole.max_x);
            assert(boxes[n].max_y == whole.max_y);
        } else {
            let ax = choose|i: int| 0 <= i < front.len() && (#[trigger] front[i]).min_x == union_of(front).min_x;
            let ay = choose|i: int| 0 <= i < front.len() && (#[trigger] front[i]).min_y == union_of(front).min_y;
            let bx = choose|i: int| 0 <= i < front.len() && (#[trigger] front[i]).max_x == union_of(front).max_x;
            let by = choose|i: int| 0 <= i < front.len() && (#[trigger] front[i]).max_y == union_of(front).max_y;
            assert(front[ax] == boxes[ax] && front[ay] == boxes[ay] && front[bx] == boxes[bx]
                && front[by] == boxes[by]);
            let wx = if last.min_x < union_of(front).min_x { n } else { ax };
            let wy = if last.min_y < union_of(front).min_y { n } else { ay };
            let vx = if last.max_x > union_of(front).max_x { n } else { bx };
            let vy = if last.max_y > union_of(front).max_y { n } else { by };
            assert(boxes[wx].min_x == whole.min_x);
            assert(boxes[wy].min_y == whole.min_y);
            assert(boxes[vx].max_x == whole.max_x);
            assert(boxes[vy].max_y == whole.max_y);
        }
    }
}

/// One of the eight neighbours of a cell, in the cyclic order in which a
/// boundary walk scans them: clockwise on a raster whose rows grow downward,
/// starting at `Right`.
#[derive(Debug, Clone, Copy, PartialEq, Eq, Structural)]
pub enum Direction {
    Right,
    DownRight,
    Down,
    DownLeft,
    Left,
    UpLeft,
    Up,
    UpRight,
}

impl Direction {
    /// Position of the direction in the cyclic order.
    pub open spec fn index(self) -> int {
        match self {
            Direction::Right => 0,
            Direction::DownRight => 1,
            Direction::Down => 2,
            Direction::DownLeft => 3,
            Direction::Left => 4,
            Direction::UpLeft => 5,
            Direction::Up => 6,
            Direction::UpRight => 7,
        }
    }

    /// The direction at position `i` of the cyclic order, counted modulo 8.
    pub open spec fn at(i: int) -> Direction {
        let k = i % 8;
        if k == 0 {
            Direction::Right
        } else if k == 1 {
            Direction::DownRight
        } else if k == 2 {
            Direction::Down
        } else if k == 3 {
            Direction::DownLeft
        } else if k == 4 {
            Direction::Left
        } else if k == 5 {
            Direction::UpLeft
        } else if k == 6 {
            Direction::Up
        } else {
            Direction::UpRight
        }
    }

    /// Horizontal part of the unit step.
    pub open spec fn dx(self) -> int {
        match self {
            Direction::Right | Direction::DownRight | Direction::UpRight => 1,
            Direction::Down | Direction::Up => 0,
            Direction::DownLeft | Direction::Left | Direction::UpLeft => -1,
        }
    }

    /// Vertical part of the unit step.
    pub open spec fn dy(self) -> int {
        match self {
            Direction::DownRight | Direction::Down | Direction::DownLeft => 1,
            Direction::Right | Direction::Left => 0,
            Direction::UpLeft | Direction::Up | Direction::UpRight => -1,
        }
    }

    /// The eight directions in cyclic order, rotated so that position
    /// `start` comes first.
    pub open spec fn cycle_from(start: int) -> Seq<Direction> {
        Seq::new(8, |i: int| Direction::at(start + i))
    }

    pub fn to_index(&self) -> (r: usize)
        ensures
            r == self.index(),
    {
        match self {
            Direction::Right => 0,
            Direction::DownRight => 1,
            Direction::Down => 2,
            Direction::DownLeft => 3,
            Direction::Left => 4,
            Direction::UpLeft => 5,
            Direction::Up => 6,
            Direction::UpRight => 7,
        }
    }

    pub fn from_index(index: usize) -> (r: Direction)
        requires
            index < 8,
        ensures
            r == Direction::at(index as int),
            r.index() == index,
    {
        if index == 0 {
            Direction::Right
        } else if index == 1 {
            Direction::DownRight
        } else if index == 2 {
            Direction::Down
        } else if index == 3 {
            Direction::DownLeft
        } else if index == 4 {
            Direction::Left
        } else if index == 5 {
            Direction::UpLeft
        } else if index == 6 {
            Direction::Up
        } else {
            Direction::UpRight
        }
    }

    /// The unit step that leads to the neighbour in this direction.
    pub fn to_point(&self) -> (r: Point)
        ensures
            r.x == self.dx(),
            r.y == self.dy(),
    {
        match self {
            Direction::Right => Point::new(1, 0),
            Direction::DownRight => Point::new(1, 1),
            Direction::Down => Point::new(0, 1),
            Direction::DownLeft => Point::new(-1, 1),
            Direction::Left => Point::new(-1, 0),
            Direction::UpLeft => Point::new(-1, -1),
            Direction::Up => Point::new(0, -1),
            Direction::UpRight => Point::new(1, -1),
        }
    }

    /// The eight directions in cyclic order, `Right` first.
    pub fn iter() -> (r: Vec<Direction>)
        ensures
            r@ == Direction::cycle_from(0),
    {
        Direction::iter_from(0)
    }

    /// The eight directions in cyclic order, starting at position `index`
    /// counted modulo 8.
    pub fn iter_from(index: usize) -> (r: Vec<Direction>)
        ensures
            r@ == Direction::cycle_from(index as int),
    {
        let start: usize = index % 8;
        let mut directions: Vec<Direction> = Vec::new();
        let mut i: usize = 0;
        while i < 8
            invariant
                i <= 8,
                start == index % 8,
                directions@.len() == i,
                forall|j: int| 0 <= j < i ==> directions@[j] == Direction::at(index + j),
            decreases 8 - i,
        {
            let next: Direction = Direction::from_index((start + i) % 8);
            assert(Direction::at(((start + i) % 8) as int) == Direction::at(index + i));
            directions.push(next);
            i += 1;
        }
        assert(directions@ =~= Direction::cycle_from(index as int));
        directions
    }

    /// The eight directions in cyclic order, starting at `direction`.
    pub fn iter_from_direction(direction: Direction) -> (r: Vec<Direction>)
        ensures
            r@ == Direction::cycle_from(direction.index()),
            r@[0] == direction,
    {
        let index: usize = direction.to_index();
        Self::iter_from(index)
    }
}

/// Turning a direction into its position and back gives the direction again.
pub proof fn lemma_direction_round_trip(d: Direction)
    ensures
        Direction::at(d.index()) == d,
        0 <= d.index() < 8,
{
}

} // verus!
