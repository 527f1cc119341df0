//! Why a boundary walk that is given up would never have ended: it only
//! depends on the cell it stands in and on its heading, and after as many
//! steps as there are such pairs it has been in one of them twice.

use crate::contours::{
    lemma_step_lands,
    stamp,
    step_from,
    trace,
    trace_budget,
    trace_within,
    unpadded,
    walk,
    Course,
};
use crate::geometry::{Direction, Point};
use crate::raster::Raster;
use vstd::arithmetic::div_mod::lemma_fundamental_div_mod_converse;
use vstd::prelude::*;
use vstd::set_lib::{lemma_int_range, lemma_len_subset, lemma_map_size, set_int_range};

verus! {

/// Where a walk stands and which direction brought it there.
pub struct Stance {
    pub x: int,
    pub y: int,
    pub heading: int,
}

/// The stance after one neighbour search.
pub open spec fn advance(image: Raster<u8>, s: Stance) -> Stance {
    let next = step_from(image, s.x, s.y, s.heading);
    Stance { x: next.x, y: next.y, heading: next.heading }
}

/// The stance after `n` neighbour searches.
pub open spec fn stance_after(image: Raster<u8>, s: Stance, n: nat) -> Stance
    decreases n,
{
    if n == 0 {
        s
    } else {
        stance_after(image, advance(image, s), (n - 1) as nat)
    }
}

/// True when a walk in stance `s` meets the stopping rule with its next
/// search: it stands on the start and finds the first boundary cell.
pub open spec fn closes_at(image: Raster<u8>, course: Course, s: Stance) -> bool {
    s.x == course.sx && s.y == course.sy && advance(image, s).x == course.tx && advance(
        image,
        s,
    ).y == course.ty
}

/// True when a walk from stance `s` meets the stopping rule within its first
/// `n` searches.
pub open spec fn closes_within(image: Raster<u8>, course: Course, s: Stance, n: nat) -> bool {
    exists|i: nat| i < n && closes_at(image, course, #[trigger] stance_after(image, s, i))
}

/// True when `s` is a cell of the image and a heading of the cyclic order.
pub open spec fn in_grid(image: Raster<u8>, s: Stance) -> bool {
    image.has(s.y, s.x) && 0 <= s.heading < 8
}

/// A number for each stance in the grid, different for different stances.
pub open spec fn code(image: Raster<u8>, s: Stance) -> int {
    (s.y * image.cols + s.x) * 8 + s.heading
}

/// The number of stances in the grid.
pub open spec fn stances(image: Raster<u8>) -> int {
    8 * (image.rows() * image.cols) as int
}

/// Searching on after `a` searches is searching `a + b` times.
pub proof fn lemma_stance_adds(image: Raster<u8>, s: Stance, a: nat, b: nat)
    ensures
        stance_after(image, stance_after(image, s, a), b) == stance_after(image, s, a + b),
    decreases a,
{
    if a > 0 {
        lemma_stance_adds(image, advance(image, s), (a - 1) as nat, b);
    }
}

/// A walk never leaves the grid.
pub proof fn lemma_stays_in_grid(image: Raster<u8>, s: Stance, n: nat)
    requires
        in_grid(image, s),
    ensures
        in_grid(image, stance_after(image, s, n)),
    decreases n,
{
    if n > 0 {
        lemma_step_lands(image, s.x, s.y, s.heading);
        lemma_stays_in_grid(image, advance(image, s), (n - 1) as nat);
    }
}

/// The code of a stance in the grid is below the number of stances, and
/// stances with the same code are the same.
pub proof fn lemma_code(image: Raster<u8>, s: Stance, t: Stance)
    requires
        in_grid(image, s),
        in_grid(image, t),
    ensures
        0 <= code(image, s) < stances(image),
        code(image, s) == code(image, t) ==> s == t,
{
    let c = image.cols as int;
    let r = image.rows() as int;
    assert(0 <= s.y * c + s.x < r * c) by (nonlinear_arith)
        requires
            0 <= s.y < r,
            0 <= s.x < c,
    ;
    if code(image, s) == code(image, t) {
        let a = s.y * c + s.x;
        let b = t.y * c + t.x;
        lemma_fundamental_div_mod_converse(code(image, s), 8, a, s.heading);
        lemma_fundamental_div_mod_converse(code(image, t), 8, b, t.heading);
        lemma_fundamental_div_mod_converse(a, c, s.y, s.x);
        lemma_fundamental_div_mod_converse(b, c, t.y, t.x);
    }
}

/// A sequence of `n + 1` numbers below `n` holds some number twice.
pub proof fn lemma_some_number_twice(f: spec_fn(int) -> int, n: int) -> (r: (int, int))
    requires
        n >= 0,
        forall|i: int| 0 <= i <= n ==> 0 <= #[trigger] f(i) < n,
    ensures
        0 <= r.0 < r.1 <= n,
        f(r.0) == f(r.1),
{
    let from = set_int_range(0, n + 1);
    let to = set_int_range(0, n);
    lemma_int_range(0, n + 1);
    lemma_int_range(0, n);
    if !exists|i: int, j: int| 0 <= i < j <= n && #[trigger] f(i) == #[trigger] f(j) {
        assert(vstd::relations::injective_on(f, from)) by {
            assert forall|i: int, j: int|
                from.contains(i) && from.contains(j) && #[trigger] f(i) == #[trigger] f(j) implies i
                == j by {
                if i < j {
                    assert(f(i) != f(j));
                }
                if j < i {
                    assert(f(j) != f(i));
                }
            }
        }
        let image = from.map(f);
        lemma_map_size(from, image, f);
        assert(image.subset_of(to)) by {
            assert forall|v: int| image.contains(v) implies to.contains(v) by {
                let i = choose|i: int| from.contains(i) && f(i) == v;
                assert(0 <= f(i) < n);
            }
        }
        lemma_len_subset(image, to);
        assert(false);
    }
    let (i, j) = choose|i: int, j: int| 0 <= i < j <= n && #[trigger] f(i) == #[trigger] f(j);
    (i, j)
}

/// Once a stance has come back after `p` searches, every later stance has
/// occurred before the return.
pub proof fn lemma_comes_round(image: Raster<u8>, s: Stance, i: nat, p: nat, k: nat) -> (e: nat)
    requires
        p > 0,
        stance_after(image, s, i) == stance_after(image, s, i + p),
    ensures
        e < i + p,
        stance_after(image, s, e) == stance_after(image, s, k),
    decreases k,
{
    if k < i + p {
        k
    } else {
        let back = (k - p) as nat;
        let rest = (k - i - p) as nat;
        lemma_stance_adds(image, s, i + p, rest);
        lemma_stance_adds(image, s, i, rest);
        assert(stance_after(image, s, back) == stance_after(image, s, k));
        lemma_comes_round(image, s, i, p, back)
    }
}

/// Whether a walk closes is a matter of the stances it passes through: the
/// labels and the path so far play no part.
pub proof fn lemma_walk_closes(
    image: Raster<u8>,
    labels: Raster<i8>,
    s: Stance,
    course: Course,
    path: Seq<Point>,
    fuel: nat,
)
    ensures
        walk(
            image,
            labels,
            s.x,
            s.y,
            s.heading,
            s.x == course.sx && s.y == course.sy,
            course,
            path,
            fuel,
        ).closed == closes_within(image, course, s, fuel),
    decreases fuel,
{
    let at_start = s.x == course.sx && s.y == course.sy;
    if fuel == 0 {
    } else {
        let next = step_from(image, s.x, s.y, s.heading);
        let t = advance(image, s);
        assert(stance_after(image, s, 0) == s);
        if at_start && next.x == course.tx && next.y == course.ty {
            assert(closes_at(image, course, stance_after(image, s, 0)));
        } else {
            let swept = stamp(labels, s.x, s.y, s.heading, next.misses);
            lemma_walk_closes(
                image,
                swept.put(next.y, next.x, course.label),
                t,
                course,
                path.push(unpadded(next.x, next.y)),
                (fuel - 1) as nat,
            );
            if closes_within(image, course, t, (fuel - 1) as nat) {
                let i = choose|i: nat|
                    i < fuel - 1 && closes_at(image, course, #[trigger] stance_after(image, t, i));
                assert(stance_after(image, s, i + 1) == stance_after(image, t, i));
                assert(closes_at(image, course, stance_after(image, s, i + 1)));
            }
            if closes_within(image, course, s, fuel) {
                let i = choose|i: nat|
                    i < fuel && closes_at(image, course, #[trigger] stance_after(image, s, i));
                assert(i > 0);
                assert(stance_after(image, s, i) == stance_after(image, t, (i - 1) as nat));
                assert(closes_at(image, course, stance_after(image, t, (i - 1) as nat)));
            }
        }
    }
}

/// A walk that has not closed after as many searches as there are stances in
/// the grid never closes.
pub proof fn lemma_never_closes(image: Raster<u8>, course: Course, s: Stance, n: nat, more: nat)
    requires
        in_grid(image, s),
        n >= stances(image),
        !closes_within(image, course, s, n),
    ensures
        !closes_within(image, course, s, more),
{
    let total = stances(image);
    assert(total >= 0) by (nonlinear_arith)
        requires
            total == 8 * (image.rows() * image.cols),
    ;
    let f = |i: int| code(image, stance_after(image, s, i as nat));
    assert forall|i: int| 0 <= i <= total implies 0 <= #[trigger] f(i) < total by {
        lemma_stays_in_grid(image, s, i as nat);
        lemma_code(image, stance_after(image, s, i as nat), s);
    }
    let twice = lemma_some_number_twice(f, total);
    let i = twice.0 as nat;
    let j = twice.1 as nat;
    lemma_stays_in_grid(image, s, i);
    lemma_stays_in_grid(image, s, j);
    lemma_code(image, stance_after(image, s, i), stance_after(image, s, j));
    assert(f(twice.0) == code(image, stance_after(image, s, i)));
    assert(f(twice.1) == code(image, stance_after(image, s, j)));
    assert(stance_after(image, s, i) == stance_after(image, s, j));
    if closes_within(image, course, s, more) {
        let k = choose|k: nat|
            k < more && closes_at(image, course, #[trigger] stance_after(image, s, k));
        let e = lemma_comes_round(image, s, i, (j - i) as nat, k);
        assert(e < n);
        assert(closes_at(image, course, stance_after(image, s, e)));
    }
}

/// A boundary walk that is given up would not have ended however many steps
/// it had been allowed, as long as the step budget is not capped: eight
/// times the number of cells is a `u128`.
pub proof fn lemma_given_up_is_endless(
    image: Raster<u8>,
    labels: Raster<i8>,
    x: int,
    y: int,
    label: i8,
    inner: bool,
    more: nat,
)
    requires
        stances(image) <= u128::MAX,
        !trace(image, labels, x, y, label, inner).closed,
    ensures
        !trace_within(image, labels, x, y, label, inner, more).closed,
{
    let heading = if inner {
        Direction::DownRight.index()
    } else {
        Direction::UpLeft.index()
    };
    let first = step_from(image, x, y, heading);
    lemma_step_lands(image, x, y, heading);
    if !(first.x == x && first.y == y) {
        let s = Stance { x: first.x, y: first.y, heading: first.heading };
        let course = Course { sx: x, sy: y, tx: first.x, ty: first.y, label };
        let swept = stamp(labels, x, y, heading, first.misses);
        let begun = swept.put(first.y, first.x, label);
        let path = seq![
            unpadded(x, y),
            unpadded(first.x, first.y),
        ];
        let budget = trace_budget(image);
        assert(budget == stances(image));
        lemma_walk_closes(image, begun, s, course, path, budget);
        lemma_walk_closes(image, begun, s, course, path, more);
        lemma_never_closes(image, course, s, budget, more);
    }
}

} // verus!
