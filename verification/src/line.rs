//! Integer line rasterization.

use crate::geometry::Point;
use vstd::arithmetic::div_mod::{
    lemma_div_pos_is_pos,
    lemma_fundamental_div_mod,
    lemma_fundamental_div_mod_converse,
    lemma_mod_pos_bound,
};
use vstd::prelude::*;

verus! {

/// Distance between two coordinates.
pub open spec fn span(a: int, b: int) -> int {
    if a < b {
        b - a
    } else {
        a - b
    }
}

/// The coordinate `s` steps away from `a` in the direction of `b`.
pub open spec fn toward(a: int, b: int, s: int) -> int {
    if a < b {
        a + s
    } else {
        a - s
    }
}

/// Number of steps of the line from `p1` to `p2`: the longer of its two
/// spans.
pub open spec fn line_steps(p1: Point, p2: Point) -> int {
    let dx = span(p1.x as int, p2.x as int);
    let dy = span(p1.y as int, p2.y as int);
    if dx >= dy {
        dx
    } else {
        dy
    }
}

/// `k * d / n` rounded to the nearest integer, a tie going to the smaller
/// one: how far a line that covers `d` in `n` steps has come after `k`.
pub open spec fn rounded_share(k: int, d: int, n: int) -> int {
    if n > 0 {
        (2 * (k * d) + n - 1) / (2 * n)
    } else {
        0
    }
}

/// The cell of the line from `p1` to `p2` after `k` steps: on each axis the
/// share of the span that `k` steps out of all have earned, rounded to the
/// nearest cell, a tie staying nearer to `p1`.
pub open spec fn line_point(p1: Point, p2: Point, k: int) -> Point {
    let n = line_steps(p1, p2);
    Point {
        x: toward(
            p1.x as int,
            p2.x as int,
            rounded_share(k, span(p1.x as int, p2.x as int), n),
        ) as i64,
        y: toward(
            p1.y as int,
            p2.y as int,
            rounded_share(k, span(p1.y as int, p2.y as int), n),
        ) as i64,
    }
}

/// The cells of the line from `p1` to `p2`, both ends included, in the order
/// in which they are drawn.
pub open spec fn line_cells(p1: Point, p2: Point) -> Seq<Point> {
    Seq::new((line_steps(p1, p2) + 1) as nat, |k: int| line_point(p1, p2, k))
}

/// True when the cell of the line from `p1` to `p2` after `k` steps is the
/// cell in column `x` and row `y`.
pub open spec fn cell_hits(p1: Point, p2: Point, k: int, x: int, y: int) -> bool {
    line_point(p1, p2, k).x == x && line_point(p1, p2, k).y == y
}

/// True when one of the first `m` cells of the line from `p1` to `p2` is the
/// cell in column `x` and row `y`.
pub open spec fn on_line_upto(p1: Point, p2: Point, m: int, x: int, y: int) -> bool {
    exists|k: int| 0 <= k < m && #[trigger] cell_hits(p1, p2, k, x, y)
}

/// True when the line from `p1` to `p2` passes through the cell in column
/// `x` and row `y`.
pub open spec fn on_line(p1: Point, p2: Point, x: int, y: int) -> bool {
    on_line_upto(p1, p2, line_steps(p1, p2) + 1, x, y)
}

/// The rounded share is the quotient of a division with remainder.
pub proof fn lemma_share_bounds(k: int, d: int, n: int)
    requires
        0 <= k,
        0 <= d,
        n > 0,
    ensures
        0 <= rounded_share(k, d, n),
        (2 * n) * rounded_share(k, d, n) <= 2 * (k * d) + n - 1 < (2 * n) * rounded_share(k, d, n)
            + 2 * n,
{
    let x = 2 * (k * d) + n - 1;
    assert(k * d >= 0) by (nonlinear_arith)
        requires
            0 <= k,
            0 <= d,
    ;
    lemma_fundamental_div_mod(x, 2 * n);
    lemma_mod_pos_bound(x, 2 * n);
    lemma_div_pos_is_pos(x, 2 * n);
}

/// A value between two consecutive multiples of the divisor has the smaller
/// multiple's factor as its quotient.
proof fn lemma_quotient_between(x: int, m: int, q: int)
    requires
        m > 0,
        m * q <= x < m * q + m,
    ensures
        x / m == q,
{
    assert(x == q * m + (x - m * q)) by (nonlinear_arith);
    lemma_fundamental_div_mod_converse(x, m, q, x - m * q);
}

/// One more step moves the rounded share on by one exactly when the share
/// so far lags the next exact share by more than a half, and leaves it
/// unchanged otherwise.
pub proof fn lemma_share_step(k: int, d: int, n: int)
    requires
        0 <= k,
        0 <= d <= n,
        n > 0,
    ensures
        rounded_share(k + 1, d, n) == if (2 * n) * rounded_share(k, d, n) + n < 2 * (k * d) + 2
            * d {
            rounded_share(k, d, n) + 1
        } else {
            rounded_share(k, d, n)
        },
{
    let a = rounded_share(k, d, n);
    lemma_share_bounds(k, d, n);
    assert((k + 1) * d == k * d + d) by (nonlinear_arith);
    let x = 2 * ((k + 1) * d) + n - 1;
    let m = 2 * n;
    if m * a + n < 2 * (k * d) + 2 * d {
        assert(m * (a + 1) == m * a + m) by (nonlinear_arith);
        lemma_quotient_between(x, m, a + 1);
    } else {
        lemma_quotient_between(x, m, a);
    }
}

/// After all `n` steps the whole span is covered.
pub proof fn lemma_share_full(d: int, n: int)
    requires
        0 <= d <= n,
        n > 0,
    ensures
        rounded_share(n, d, n) == d,
{
    let m = 2 * n;
    assert(2 * (n * d) == m * d) by (nonlinear_arith)
        requires
            m == 2 * n,
    ;
    lemma_quotient_between(2 * (n * d) + n - 1, m, d);
}

/// On the longer axis every step moves by one.
pub proof fn lemma_share_major(k: int, n: int)
    requires
        0 <= k,
        n > 0,
    ensures
        rounded_share(k, n, n) == k,
{
    let m = 2 * n;
    assert(2 * (k * n) == m * k) by (nonlinear_arith)
        requires
            m == 2 * n,
    ;
    lemma_quotient_between(2 * (k * n) + n - 1, m, k);
}

/// The rounded share never leaves the span.
pub proof fn lemma_share_within(k: int, d: int, n: int)
    requires
        0 <= k <= n,
        0 <= d <= n,
    ensures
        0 <= rounded_share(k, d, n) <= d,
{
    if n > 0 {
        let a = rounded_share(k, d, n);
        lemma_share_bounds(k, d, n);
        let m = 2 * n;
        assert(k * d <= n * d) by (nonlinear_arith)
            requires
                0 <= k <= n,
                0 <= d,
        ;
        assert(2 * (n * d) == m * d) by (nonlinear_arith)
            requires
                m == 2 * n,
        ;
        assert(a <= d) by (nonlinear_arith)
            requires
                m * a < m * d + m,
                m > 0,
        ;
    }
}

/// Every cell of a line lies between its two ends, on each axis.
pub proof fn lemma_line_point_within(p1: Point, p2: Point, k: int)
    requires
        0 <= k <= line_steps(p1, p2),
    ensures
        line_point(p1, p2, k).x == toward(
            p1.x as int,
            p2.x as int,
            rounded_share(k, span(p1.x as int, p2.x as int), line_steps(p1, p2)),
        ),
        line_point(p1, p2, k).y == toward(
            p1.y as int,
            p2.y as int,
            rounded_share(k, span(p1.y as int, p2.y as int), line_steps(p1, p2)),
        ),
        p1.x <= line_point(p1, p2, k).x <= p2.x || p2.x <= line_point(p1, p2, k).x <= p1.x,
        p1.y <= line_point(p1, p2, k).y <= p2.y || p2.y <= line_point(p1, p2, k).y <= p1.y,
{
    let n = line_steps(p1, p2);
    lemma_share_within(k, span(p1.x as int, p2.x as int), n);
    lemma_share_within(k, span(p1.y as int, p2.y as int), n);
}

/// A line starts at its first end and stops at its second.
pub proof fn lemma_line_ends(p1: Point, p2: Point)
    ensures
        line_cells(p1, p2).len() == line_steps(p1, p2) + 1,
        line_cells(p1, p2).first() == p1,
        line_cells(p1, p2).last() == p2,
{
    let n = line_steps(p1, p2);
    let dx = span(p1.x as int, p2.x as int);
    let dy = span(p1.y as int, p2.y as int);
    if n > 0 {
        lemma_share_full(dx, n);
        lemma_share_full(dy, n);
        assert(0 * dx == 0 && 0 * dy == 0) by (nonlinear_arith);
        lemma_quotient_between(2 * (0 * dx) + n - 1, 2 * n, 0);
        lemma_quotient_between(2 * (0 * dy) + n - 1, 2 * n, 0);
    }
}

/// Moving both ends of a line by the same amount moves every cell of the
/// line by that amount.
pub proof fn lemma_line_shift(p1: Point, p2: Point, dx: int, dy: int, k: int)
    requires
        p1.can_shift(dx, dy),
        p2.can_shift(dx, dy),
        0 <= k <= line_steps(p1, p2),
    ensures
        line_steps(p1.shifted_by(dx, dy), p2.shifted_by(dx, dy)) == line_steps(p1, p2),
        line_point(p1, p2, k).can_shift(dx, dy),
        line_point(p1.shifted_by(dx, dy), p2.shifted_by(dx, dy), k) == line_point(
            p1,
            p2,
            k,
        ).shifted_by(dx, dy),
{
    lemma_line_point_within(p1, p2, k);
    lemma_line_point_within(p1.shifted_by(dx, dy), p2.shifted_by(dx, dy), k);
}

/// Draws the line from `p1` to `p2` with an integer error accumulator and
/// returns its cells in order, both ends included.
pub fn bresenham(p1: Point, p2: Point) -> (r: Vec<Point>)
    ensures
        r@ == line_cells(p1, p2),
{
    let mut points: Vec<Point> = Vec::new();
    let dx: i128 = if p1.x < p2.x {
        p2.x as i128 - p1.x as i128
    } else {
        p1.x as i128 - p2.x as i128
    };
    let dy: i128 = if p1.y < p2.y {
        p2.y as i128 - p1.y as i128
    } else {
        p1.y as i128 - p2.y as i128
    };
    let sx: i64 = if p1.x < p2.x {
        1
    } else {
        -1
    };
    let sy: i64 = if p1.y < p2.y {
        1
    } else {
        -1
    };
    let mut err: i128 = dx - dy;
    let mut x: i64 = p1.x;
    let mut y: i64 = p1.y;
    let ghost n: int = line_steps(p1, p2);
    let ghost mut k: int = 0;
    let ghost mut i: int = 0;
    let ghost mut j: int = 0;
    proof {
        lemma_line_ends(p1, p2);
        assert(line_cells(p1, p2).first() == line_point(p1, p2, 0));
        if n > 0 {
            lemma_share_bounds(0, dx as int, n);
            lemma_share_bounds(0, dy as int, n);
            assert(0 * (dx as int) == 0 && 0 * (dy as int) == 0) by (nonlinear_arith);
            lemma_quotient_between(2 * (0 * (dx as int)) + n - 1, 2 * n, 0);
            lemma_quotient_between(2 * (0 * (dy as int)) + n - 1, 2 * n, 0);
        }
        assert(i * dy == 0 && j * dx == 0) by (nonlinear_arith)
            requires
                i == 0,
                j == 0,
        ;
    }
    loop
        invariant_except_break
            points@ == line_cells(p1, p2).take(k),
        invariant
            dx == span(p1.x as int, p2.x as int),
            dy == span(p1.y as int, p2.y as int),
            sx == (if p1.x < p2.x { 1i64 } else { -1i64 }),
            sy == (if p1.y < p2.y { 1i64 } else { -1i64 }),
            n == line_steps(p1, p2),
            0 <= k <= n,
            i == rounded_share(k, dx as int, n),
            j == rounded_share(k, dy as int, n),
            0 <= i <= dx,
            0 <= j <= dy,
            x == toward(p1.x as int, p2.x as int, i),
            y == toward(p1.y as int, p2.y as int, j),
            err == dx - dy - i * dy + j * dx,
            -n <= 2 * (j * dx - i * dy) <= n,
        ensures
            points@ == line_cells(p1, p2),
        decreases n - k,
    {
        points.push(Point::new(x, y));
        proof {
            assert(Point { x, y } == line_point(p1, p2, k));
            assert(points@ =~= line_cells(p1, p2).take(k + 1));
        }
        if x == p2.x && y == p2.y {
            proof {
                if k < n {
                    lemma_share_major(k, n);
                }
                assert(k == n);
                assert(line_cells(p1, p2).take(n + 1) =~= line_cells(p1, p2));
            }
            break ;
        }
        proof {
            if k == n && n > 0 {
                lemma_share_full(dx as int, n);
                lemma_share_full(dy as int, n);
            }
            assert(k < n);
            lemma_share_bounds(k, dx as int, n);
            lemma_share_bounds(k, dy as int, n);
            lemma_share_step(k, dx as int, n);
            lemma_share_step(k, dy as int, n);
            lemma_share_within(k + 1, dx as int, n);
            lemma_share_within(k + 1, dy as int, n);
            lemma_share_major(k, n);
            lemma_share_major(k + 1, n);
            lemma_share_bounds(k + 1, dx as int, n);
            lemma_share_bounds(k + 1, dy as int, n);
        }
        let ghost ni: int = rounded_share(k + 1, dx as int, n);
        let ghost nj: int = rounded_share(k + 1, dy as int, n);
        proof {
            assert(ni * dy == i * dy + (ni - i) * dy) by (nonlinear_arith);
            assert(nj * dx == j * dx + (nj - j) * dx) by (nonlinear_arith);
            assert((ni - i) * dy == if ni == i { 0 } else { dy as int }) by (nonlinear_arith)
                requires
                    ni == i || ni == i + 1,
            ;
            assert((nj - j) * dx == if nj == j { 0 } else { dx as int }) by (nonlinear_arith)
                requires
                    nj == j || nj == j + 1,
            ;
            if dx >= dy {
                assert(i == k && ni == k + 1);
                assert((2 * n) * j == 2 * (j * dx)) by (nonlinear_arith)
                    requires
                        n == dx,
                ;
                assert((2 * n) * nj == 2 * (nj * dx)) by (nonlinear_arith)
                    requires
                        n == dx,
                ;
                assert(k * dy == i * dy);
                assert((k + 1) * dy == ni * dy);
            } else {
                assert(j == k && nj == k + 1);
                assert((2 * n) * i == 2 * (i * dy)) by (nonlinear_arith)
                    requires
                        n == dy,
                ;
                assert((2 * n) * ni == 2 * (ni * dy)) by (nonlinear_arith)
                    requires
                        n == dy,
                ;
                assert(k * dx == j * dx);
                assert((k + 1) * dx == nj * dx);
            }
        }
        let e2: i128 = 2 * err;
        if e2 > -dy {
            err -= dy;
            x += sx;
        }
        if e2 < dx {
            err += dx;
            y += sy;
        }
        proof {
            k = k + 1;
            i = ni;
            j = nj;
        }
    }
    points
}

} // verus!
