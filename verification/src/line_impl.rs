//! Line rasterization: the discrete approximation of a straight segment,
//! traced with an integer error accumulator.

use crate::canvas::Canvas;
use crate::framebuffer::Framebuffer;
use crate::vertex::Vertex;
use vstd::arithmetic::div_mod::{
    lemma_fundamental_div_mod,
    lemma_fundamental_div_mod_converse,
    lemma_mod_bound,
};
use vstd::prelude::*;

verus! {

/// The distance between two coordinates.
pub open spec fn distance(from: int, to: int) -> int {
    if from <= to {
        to - from
    } else {
        from - to
    }
}

/// The coordinate `k` units from `from` in the direction of `to`. Where the
/// two are equal the direction is the negative one.
pub open spec fn toward(from: int, to: int, k: int) -> int {
    if from < to {
        from + k
    } else {
        from - k
    }
}

/// The whole number nearest to `p / q`, for `q > 0`; a value halfway
/// between two whole numbers goes to the lower one.
pub open spec fn round_half_down(p: int, q: int) -> int {
    (2 * p + q - 1) / (2 * q)
}

/// The number of steps from `start` to `end`: the greater of the horizontal
/// and the vertical distance.
pub open spec fn line_steps(start: Vertex, end: Vertex) -> int {
    let dx = distance(start.x as int, end.x as int);
    let dy = distance(start.y as int, end.y as int);
    if dx >= dy {
        dx
    } else {
        dy
    }
}

/// The position plotted after `i` steps. Along each axis the `i`-th of `n`
/// steps covers the fraction `i / n` of the distance, rounded to the nearest
/// whole number, a tie going to the side of `start`.
pub open spec fn line_point(start: Vertex, end: Vertex, i: int) -> (int, int) {
    let n = line_steps(start, end);
    if n == 0 {
        (start.x as int, start.y as int)
    } else {
        let dx = distance(start.x as int, end.x as int);
        let dy = distance(start.y as int, end.y as int);
        (
            toward(start.x as int, end.x as int, round_half_down(i * dx, n)),
            toward(start.y as int, end.y as int, round_half_down(i * dy, n)),
        )
    }
}

/// The positions plotted before step `k`.
pub open spec fn line_region_upto(start: Vertex, end: Vertex, k: int) -> Set<(int, int)> {
    Set::new(|p: (int, int)| exists|i: int| 0 <= i < k && line_point(start, end, i) == p)
}

/// All positions of the line from `start` to `end`, both ends included.
pub open spec fn line_region(start: Vertex, end: Vertex) -> Set<(int, int)> {
    line_region_upto(start, end, line_steps(start, end) + 1)
}

impl Canvas {
    /// The line from `start` to `end` drawn in the current drawing color.
    pub open spec fn draw_line(self, start: Vertex, end: Vertex) -> Canvas {
        self.paint(line_region(start, end), self.current)
    }
}

/// The rounded quotient lies within half a unit of the exact one.
pub proof fn lemma_round_half_down(p: int, q: int)
    requires
        q > 0,
    ensures
        -q < 2 * (p - round_half_down(p, q) * q) <= q,
{
    let b = round_half_down(p, q);
    lemma_fundamental_div_mod(2 * p + q - 1, 2 * q);
    lemma_mod_bound(2 * p + q - 1, 2 * q);
    assert((2 * q) * b == 2 * (b * q)) by (nonlinear_arith);
}

/// The only whole number within half a unit of `p / q`, the lower one in a
/// tie, is the rounded quotient.
pub proof fn lemma_round_half_down_unique(p: int, q: int, b: int)
    requires
        q > 0,
        -q < 2 * (p - b * q) <= q,
    ensures
        round_half_down(p, q) == b,
{
    assert(b * (2 * q) == 2 * (b * q)) by (nonlinear_arith);
    lemma_fundamental_div_mod_converse(2 * p + q - 1, 2 * q, b, 2 * (p - b * q) + q - 1);
}

/// After `i` of `n` steps a coordinate has moved between nothing and its
/// whole distance `d`: nothing at the start, all of it at the end.
pub proof fn lemma_round_half_down_bounds(i: int, d: int, n: int)
    requires
        0 <= i <= n,
        0 <= d <= n,
        n > 0,
    ensures
        0 <= round_half_down(i * d, n) <= d,
        round_half_down(0 * d, n) == 0,
        round_half_down(n * d, n) == d,
{
    let b = round_half_down(i * d, n);
    lemma_round_half_down(i * d, n);
    assert(0 <= b <= d) by (nonlinear_arith)
        requires
            0 <= i <= n,
            0 <= d <= n,
            n > 0,
            -n < 2 * (i * d - b * n) <= n,
    {
        assert(i * d <= n * d);
        assert(0 <= i * d);
        if b < 0 {
            assert(b * n <= -n);
        }
        if b > d {
            assert(b * n >= (d + 1) * n);
            assert((d + 1) * n == d * n + n);
        }
    }
    assert(0 * d == 0);
    lemma_round_half_down_unique(0 * d, n, 0);
    assert(n * d - d * n == 0) by (nonlinear_arith);
    lemma_round_half_down_unique(n * d, n, d);
}

/// A line starts at `start`, ends at `end`, and never leaves the rectangle
/// that the two span.
pub proof fn lemma_line_point_bounds(start: Vertex, end: Vertex, i: int)
    requires
        0 <= i <= line_steps(start, end),
    ensures
        line_point(start, end, 0) == (start.x as int, start.y as int),
        line_point(start, end, line_steps(start, end)) == (end.x as int, end.y as int),
        distance(start.x as int, line_point(start, end, i).0) <= distance(
            start.x as int,
            end.x as int,
        ),
        distance(start.y as int, line_point(start, end, i).1) <= distance(
            start.y as int,
            end.y as int,
        ),
        i32::MIN <= line_point(start, end, i).0 <= i32::MAX,
        i32::MIN <= line_point(start, end, i).1 <= i32::MAX,
{
    let n = line_steps(start, end);
    if n > 0 {
        let dx = distance(start.x as int, end.x as int);
        let dy = distance(start.y as int, end.y as int);
        lemma_round_half_down_bounds(i, dx, n);
        lemma_round_half_down_bounds(i, dy, n);
    }
}

/// From one step to the next a coordinate stays or moves one unit further,
/// and moves at every step where its distance is the number of steps.
pub proof fn lemma_round_half_down_step(i: int, d: int, n: int)
    requires
        0 <= i < n,
        0 <= d <= n,
    ensures
        round_half_down(i * d, n) <= round_half_down((i + 1) * d, n) <= round_half_down(i * d, n)
            + 1,
        d == n ==> round_half_down((i + 1) * d, n) == round_half_down(i * d, n) + 1,
{
    let a = round_half_down(i * d, n);
    let b = round_half_down((i + 1) * d, n);
    lemma_round_half_down(i * d, n);
    lemma_round_half_down((i + 1) * d, n);
    assert((i + 1) * d == i * d + d) by (nonlinear_arith);
    assert((b - a) * n == b * n - a * n) by (nonlinear_arith);
    assert(0 <= b - a <= 1 && (d == n ==> b - a == 1)) by (nonlinear_arith)
        requires
            n > 0,
            0 <= d <= n,
            d - n < (b - a) * n < d + n,
    ;
}

/// Every step of a line moves one unit along the axis of the greater
/// distance and at most one unit along the other: the line has no gap and
/// never stays in place.
pub proof fn lemma_line_step(start: Vertex, end: Vertex, i: int)
    requires
        0 <= i < line_steps(start, end),
    ensures
        distance(line_point(start, end, i).0, line_point(start, end, i + 1).0) <= 1,
        distance(line_point(start, end, i).1, line_point(start, end, i + 1).1) <= 1,
        line_point(start, end, i) != line_point(start, end, i + 1),
{
    let n = line_steps(start, end);
    let dx = distance(start.x as int, end.x as int);
    let dy = distance(start.y as int, end.y as int);
    lemma_round_half_down_step(i, dx, n);
    lemma_round_half_down_step(i, dy, n);
}

/// Plotting one more position extends the plotted part of the line by it.
pub proof fn lemma_line_region_step(start: Vertex, end: Vertex, k: int)
    requires
        0 <= k,
    ensures
        line_region_upto(start, end, k + 1) == line_region_upto(start, end, k).insert(
            line_point(start, end, k),
        ),
        line_region_upto(start, end, 0) == Set::<(int, int)>::empty(),
{
    let before = line_region_upto(start, end, k);
    let after = line_region_upto(start, end, k + 1);
    let added = line_point(start, end, k);
    assert forall|p: (int, int)| after.contains(p) == before.insert(added).contains(p) by {
        if after.contains(p) {
            let i = choose|i: int| 0 <= i < k + 1 && line_point(start, end, i) == p;
            if i < k {
                assert(before.contains(p));
            }
        }
        if before.contains(p) {
            let i = choose|i: int| 0 <= i < k && line_point(start, end, i) == p;
            assert(0 <= i < k + 1 && line_point(start, end, i) == p);
        }
        if p == added {
            assert(0 <= k < k + 1 && line_point(start, end, k) == p);
        }
    }
    assert(after =~= before.insert(added));
    assert(line_region_upto(start, end, 0) =~= Set::<(int, int)>::empty());
}

/// A line from a position to itself is that one position.
pub proof fn lemma_line_single_point(start: Vertex, end: Vertex)
    requires
        start.x == end.x,
        start.y == end.y,
    ensures
        line_region(start, end) == set![(start.x as int, start.y as int)],
{
    let only = (start.x as int, start.y as int);
    assert forall|p: (int, int)| line_region(start, end).contains(p) == (p == only) by {
        if p == only {
            assert(0 <= 0 < 1 && line_point(start, end, 0) == p);
        }
    }
    assert(line_region(start, end) =~= set![only]);
}

/// A level line holds the positions of its row between its two ends, both
/// included, and no other.
pub proof fn lemma_horizontal_line(start: Vertex, end: Vertex, x: int, y: int)
    requires
        start.y == end.y,
    ensures
        line_region(start, end).contains((x, y)) <==> (y == start.y && distance(start.x as int, x)
            + distance(x, end.x as int) == distance(start.x as int, end.x as int)),
{
    let n = line_steps(start, end);
    assert forall|i: int| 0 <= i <= n implies line_point(start, end, i) == (
        toward(start.x as int, end.x as int, i),
        start.y as int,
    ) by {
        if n > 0 {
            assert(i * n - i * n == 0);
            lemma_round_half_down_unique(i * n, n, i);
            assert(i * 0 == 0);
            lemma_round_half_down_unique(i * 0, n, 0);
        }
    }
    if line_region(start, end).contains((x, y)) {
        let i = choose|i: int| 0 <= i < n + 1 && line_point(start, end, i) == (x, y);
        assert(line_point(start, end, i) == (toward(start.x as int, end.x as int, i), start.y as int));
    }
    if y == start.y && distance(start.x as int, x) + distance(x, end.x as int) == n {
        let i = distance(start.x as int, x);
        assert(0 <= i < n + 1 && line_point(start, end, i) == (x, y));
    }
}

/// An upright line holds the positions of its column between its two ends,
/// both included, and no other.
pub proof fn lemma_vertical_line(start: Vertex, end: Vertex, x: int, y: int)
    requires
        start.x == end.x,
    ensures
        line_region(start, end).contains((x, y)) <==> (x == start.x && distance(start.y as int, y)
            + distance(y, end.y as int) == distance(start.y as int, end.y as int)),
{
    let n = line_steps(start, end);
    assert forall|i: int| 0 <= i <= n implies line_point(start, end, i) == (
        start.x as int,
        toward(start.y as int, end.y as int, i),
    ) by {
        if n > 0 {
            assert(i * n - i * n == 0);
            lemma_round_half_down_unique(i * n, n, i);
            assert(i * 0 == 0);
            lemma_round_half_down_unique(i * 0, n, 0);
        }
    }
    if line_region(start, end).contains((x, y)) {
        let i = choose|i: int| 0 <= i < n + 1 && line_point(start, end, i) == (x, y);
        assert(line_point(start, end, i) == (start.x as int, toward(start.y as int, end.y as int, i)));
    }
    if x == start.x && distance(start.y as int, y) + distance(y, end.y as int) == n {
        let i = distance(start.y as int, y);
        assert(0 <= i < n + 1 && line_point(start, end, i) == (x, y));
    }
}

/// Drawing of straight segments.
pub trait Line {
    /// Draws the segment from `start` to `end`, both ends included.
    fn draw_line(&mut self, start: Vertex, end: Vertex);
}

impl Line for Framebuffer {
    /// Draws the line from `start` to `end` in the current drawing color,
    /// one position per step: the walk moves one unit along the axis of the
    /// greater distance at every step, and along the other axis whenever the
    /// accumulated error calls for it. Positions outside the grid are passed
    /// over.
    fn draw_line(&mut self, start: Vertex, end: Vertex)
        ensures
            final(self)@ == old(self)@.draw_line(start, end),
            final(self)@.wf(),
    {
        let ghost before = self@;
        let ghost n = line_steps(start, end);
        let x1: i64 = end.x as i64;
        let y1: i64 = end.y as i64;
        let mut x: i64 = start.x as i64;
        let mut y: i64 = start.y as i64;
        let dx: i64 = if x < x1 { x1 - x } else { x - x1 };
        let dy: i64 = if y < y1 { y1 - y } else { y - y1 };
        let sx: i64 = if x < x1 { 1 } else { -1 };
        let sy: i64 = if y < y1 { 1 } else { -1 };
        let mut err: i64 = dx - dy;
        // steps taken so far, in all and along each axis, and the products
        // that the error term is made of
        let ghost mut i: int = 0;
        let ghost mut a: int = 0;
        let ghost mut b: int = 0;
        let ghost mut a_dy: int = 0;
        let ghost mut b_dx: int = 0;
        proof {
            use_type_invariant(&*self);
        }
        self.point(x as isize, y as isize);
        proof {
            lemma_line_region_step(start, end, 0);
            lemma_line_point_bounds(start, end, 0);
            before.lemma_paint_empty(before.current);
            before.lemma_paint_insert(Set::empty(), before.current, x as int, y as int);
        }
        while !(x == x1 && y == y1)
            invariant
                n == line_steps(start, end),
                dx == distance(start.x as int, end.x as int),
                dy == distance(start.y as int, end.y as int),
                x1 == end.x,
                y1 == end.y,
                sx == if start.x < end.x { 1i64 } else { -1i64 },
                sy == if start.y < end.y { 1i64 } else { -1i64 },
                0 <= i <= n,
                0 <= a <= i,
                0 <= b <= i,
                a_dy == a * dy,
                b_dx == b * dx,
                err == dx - dy - a_dy + b_dx,
                dx >= dy ==> a == i && (dx > 0 ==> -dx < 2 * (a_dy - b_dx) <= dx),
                dx < dy ==> b == i && -dy < 2 * (b_dx - a_dy) <= dy,
                dx == dy ==> a == b,
                x == toward(start.x as int, end.x as int, a),
                y == toward(start.y as int, end.y as int, b),
                (x as int, y as int) == line_point(start, end, i),
                before.wf(),
                self@ == before.paint(line_region_upto(start, end, i + 1), before.current),
            decreases n - i,
        {
            proof {
                lemma_line_point_bounds(start, end, n);
                assert(i < n);
            }
            let e2: i64 = 2 * err;
            if e2 > -dy {
                err -= dy;
                x += sx;
                proof {
                    assert((a + 1) * dy == a * dy + dy) by (nonlinear_arith);
                    a = a + 1;
                    a_dy = a_dy + dy;
                }
            }
            if e2 < dx {
                err += dx;
                y += sy;
                proof {
                    assert((b + 1) * dx == b * dx + dx) by (nonlinear_arith);
                    b = b + 1;
                    b_dx = b_dx + dx;
                }
            }
            proof {
                i = i + 1;
                if dx >= dy {
                    assert(a * n == i * dx);
                    lemma_round_half_down_unique(i * dx, n, a);
                    assert(i * dy == a_dy);
                    lemma_round_half_down_unique(i * dy, n, b);
                } else {
                    assert(b * n == i * dy);
                    lemma_round_half_down_unique(i * dy, n, b);
                    assert(i * dx == b_dx);
                    lemma_round_half_down_unique(i * dx, n, a);
                }
                lemma_line_point_bounds(start, end, i);
            }
            let ghost painted = line_region_upto(start, end, i);
            self.point(x as isize, y as isize);
            proof {
                before.lemma_paint_insert(painted, before.current, x as int, y as int);
                lemma_line_region_step(start, end, i);
            }
        }
        proof {
            lemma_line_point_bounds(start, end, i);
            assert(i == n) by {
                if i < n {
                    if dx >= dy {
                        assert(a == dx);
                    } else {
                        assert(b == dy);
                    }
                }
            }
        }
    }
}

} // verus!
