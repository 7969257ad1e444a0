use crate::color::Color;
use crate::image::Image;
use crate::image::lemma_painted_nothing;
use crate::image::lemma_painted_union;
use vstd::arithmetic::div_mod::*;
use vstd::prelude::*;

verus! {

/// The distance between two coordinates.
pub open spec fn gap(a: int, b: int) -> int {
    if a <= b {
        b - a
    } else {
        a - b
    }
}

/// The coordinate reached from `from` after `k` unit steps in the direction
/// of `to`. Where the two coincide the direction is the negative one, which
/// only matters for `k != 0`.
pub open spec fn advance(from: int, to: int, k: int) -> int {
    if from < to {
        from + k
    } else {
        from - k
    }
}

/// How far a line has moved along its minor axis after `k` steps along its
/// major axis: `k * minor / major` rounded to the nearest integer, a tie
/// going to the smaller one. Zero for a line of no extent.
pub open spec fn drift(k: int, minor: int, major: int) -> int {
    if major > 0 {
        (k * minor + (major - 1) / 2) / major
    } else {
        0
    }
}

/// The number of steps from the first to the last pixel of the line from
/// `start` to `end`: its extent along the major axis.
pub open spec fn line_steps(start: (int, int), end: (int, int)) -> int {
    if gap(start.0, end.0) > gap(start.1, end.1) {
        gap(start.0, end.0)
    } else {
        gap(start.1, end.1)
    }
}

/// The pixel of the line from `start` to `end` that is plotted after `k` steps,
/// for `0 <= k <= line_steps(start, end)`. Each step advances one pixel along the
/// major axis (x where the line is wider than tall, y otherwise) and follows
/// the ideal line along the other as closely as whole pixels allow.
pub open spec fn line_point(start: (int, int), end: (int, int), k: int) -> (int, int) {
    let dx = gap(start.0, end.0);
    let dy = gap(start.1, end.1);
    if dx > dy {
        (advance(start.0, end.0, k), advance(start.1, end.1, drift(k, dy, dx)))
    } else {
        (advance(start.0, end.0, drift(k, dx, dy)), advance(start.1, end.1, k))
    }
}

/// The pixels plotted within the first `count` steps of the line.
pub open spec fn line_prefix(start: (int, int), end: (int, int), count: int) -> Set<(int, int)> {
    Set::new(|p: (int, int)| exists|k: int| 0 <= k < count && line_point(start, end, k) == p)
}

/// All pixels of the line from `start` to `end`, end points included.
pub open spec fn line_pixels(start: (int, int), end: (int, int)) -> Set<(int, int)> {
    line_prefix(start, end, line_steps(start, end) + 1)
}

/// What is left over when `drift` rounds: the distance, in units of
/// `1 / major`, by which the ideal line lies above the rounding threshold.
spec fn slack(k: int, minor: int, major: int) -> int {
    (k * minor + (major - 1) / 2) % major
}

/// One step along the major axis moves the line by at most one pixel along
/// the minor axis, and does so exactly when the slack runs over.
proof fn lemma_drift_step(k: int, minor: int, major: int)
    requires
        0 <= minor <= major,
        0 < major,
    ensures
        0 <= slack(k, minor, major) < major,
        slack(k, minor, major) + minor < major ==> drift(k + 1, minor, major) == drift(
            k,
            minor,
            major,
        ) && slack(k + 1, minor, major) == slack(k, minor, major) + minor,
        slack(k, minor, major) + minor >= major ==> drift(k + 1, minor, major) == drift(
            k,
            minor,
            major,
        ) + 1 && slack(k + 1, minor, major) == slack(k, minor, major) + minor - major,
{
    let c = (major - 1) / 2;
    let n = k * minor + c;
    let q = n / major;
    let r = n % major;
    lemma_fundamental_div_mod(n, major);
    lemma_mod_bound(n, major);
    assert((k + 1) * minor + c == n + minor) by (nonlinear_arith)
        requires
            n == k * minor + c,
    ;
    if r + minor < major {
        assert(n + minor == q * major + (r + minor)) by (nonlinear_arith)
            requires
                n == major * q + r,
        ;
        lemma_fundamental_div_mod_converse(n + minor, major, q, r + minor);
    } else {
        assert(n + minor == (q + 1) * major + (r + minor - major)) by (nonlinear_arith)
            requires
                n == major * q + r,
        ;
        lemma_fundamental_div_mod_converse(n + minor, major, q + 1, r + minor - major);
    }
}

/// A line starts with no drift and no more slack than half a pixel.
proof fn lemma_drift_start(minor: int, major: int)
    requires
        0 < major,
    ensures
        drift(0, minor, major) == 0,
        slack(0, minor, major) == (major - 1) / 2,
{
    let c = (major - 1) / 2;
    assert(0 * minor + c == c) by (nonlinear_arith);
    assert(c == 0 * major + c) by (nonlinear_arith);
    lemma_fundamental_div_mod_converse(c, major, 0, c);
}

/// Along the way the drift stays within the extent of the minor axis, and at
/// the last step it has covered all of it.
proof fn lemma_drift_range(k: int, minor: int, major: int)
    requires
        0 <= minor <= major,
        0 < major,
        0 <= k <= major,
    ensures
        0 <= drift(k, minor, major) <= minor,
        k == major ==> drift(k, minor, major) == minor,
{
    let c = (major - 1) / 2;
    assert(major * minor + c == minor * major + c) by (nonlinear_arith);
    lemma_fundamental_div_mod_converse(major * minor + c, major, minor, c);
    assert(0 <= k * minor + c <= major * minor + c) by (nonlinear_arith)
        requires
            0 <= k <= major,
            0 <= minor,
            0 <= c,
    ;
    lemma_div_is_ordered(k * minor + c, major * minor + c, major);
    lemma_div_pos_is_pos(k * minor + c, major);
}

/// A line runs from its first end point to its last: step zero is `start`, the
/// final step is `end`, and both are among the pixels of the line.
pub proof fn lemma_line_ends(start: (int, int), end: (int, int))
    ensures
        line_point(start, end, 0) == start,
        line_point(start, end, line_steps(start, end)) == end,
        line_pixels(start, end).contains(start),
        line_pixels(start, end).contains(end),
{
    let dx = gap(start.0, end.0);
    let dy = gap(start.1, end.1);
    let n = line_steps(start, end);
    if dx > dy {
        lemma_drift_start(dy, dx);
        lemma_drift_range(n, dy, dx);
    } else if dy > 0 {
        lemma_drift_start(dx, dy);
        lemma_drift_range(n, dx, dy);
    }
    assert(0 <= 0 < n + 1 && line_point(start, end, 0) == start);
    assert(0 <= n < n + 1 && line_point(start, end, n) == end);
}

/// A line has no gaps: each pixel after the first is a neighbor of the one
/// before it, one step away along the major axis and at most one step away
/// along the minor axis.
pub proof fn lemma_line_connected(start: (int, int), end: (int, int), k: int)
    requires
        0 <= k < line_steps(start, end),
    ensures
        gap(line_point(start, end, k).0, line_point(start, end, k + 1).0) <= 1,
        gap(line_point(start, end, k).1, line_point(start, end, k + 1).1) <= 1,
        line_point(start, end, k) != line_point(start, end, k + 1),
{
    let dx = gap(start.0, end.0);
    let dy = gap(start.1, end.1);
    if dx > dy {
        lemma_drift_step(k, dy, dx);
    } else {
        lemma_drift_step(k, dx, dy);
    }
}

/// Along a horizontal or vertical line each pixel shares an edge with the
/// one before it: the two differ by one step along one axis and not at all
/// along the other.
pub proof fn lemma_axis_line_connected(start: (int, int), end: (int, int), k: int)
    requires
        0 <= k < line_steps(start, end),
        start.0 == end.0 || start.1 == end.1,
    ensures
        gap(line_point(start, end, k).0, line_point(start, end, k + 1).0) + gap(
            line_point(start, end, k).1,
            line_point(start, end, k + 1).1,
        ) == 1,
{
    let dx = gap(start.0, end.0);
    let dy = gap(start.1, end.1);
    if dx > dy {
        lemma_drift_range(k, dy, dx);
        lemma_drift_range(k + 1, dy, dx);
    } else {
        lemma_drift_range(k, dx, dy);
        lemma_drift_range(k + 1, dx, dy);
    }
}

/// A line that has drifted by step `m` made some step before it on which
/// the drift grew.
proof fn lemma_drift_grows(minor: int, major: int, m: int) -> (k: int)
    requires
        0 <= minor <= major,
        0 < major,
        0 <= m,
        drift(m, minor, major) > 0,
    ensures
        0 <= k < m,
        drift(k + 1, minor, major) == drift(k, minor, major) + 1,
    decreases m,
{
    lemma_drift_start(minor, major);
    lemma_drift_step(m - 1, minor, major);
    if drift(m, minor, major) == drift(m - 1, minor, major) + 1 {
        m - 1
    } else {
        lemma_drift_grows(minor, major, m - 1)
    }
}

/// A line that is neither horizontal nor vertical takes at least one
/// diagonal step: some pixel of it touches the one before only at a corner.
pub proof fn lemma_slanted_line_cuts_a_corner(start: (int, int), end: (int, int)) -> (k: int)
    requires
        start.0 != end.0,
        start.1 != end.1,
    ensures
        0 <= k < line_steps(start, end),
        gap(line_point(start, end, k).0, line_point(start, end, k + 1).0) == 1,
        gap(line_point(start, end, k).1, line_point(start, end, k + 1).1) == 1,
{
    let dx = gap(start.0, end.0);
    let dy = gap(start.1, end.1);
    if dx > dy {
        lemma_drift_range(dx, dy, dx);
        lemma_drift_grows(dy, dx, dx)
    } else {
        lemma_drift_range(dy, dx, dy);
        lemma_drift_grows(dx, dy, dy)
    }
}

/// Every pixel of a line lies within the box spanned by its end points.
pub proof fn lemma_line_within_box(start: (int, int), end: (int, int), p: (int, int))
    requires
        line_pixels(start, end).contains(p),
    ensures
        start.0 <= p.0 <= end.0 || end.0 <= p.0 <= start.0,
        start.1 <= p.1 <= end.1 || end.1 <= p.1 <= start.1,
{
    let dx = gap(start.0, end.0);
    let dy = gap(start.1, end.1);
    let k = choose|k: int| 0 <= k < line_steps(start, end) + 1 && line_point(start, end, k) == p;
    if dx > dy {
        lemma_drift_range(k, dy, dx);
    } else if dy > 0 {
        lemma_drift_range(k, dx, dy);
    }
}

/// Draws the line from `(x0, y0)` to `(x1, y1)`, both ends included, with
/// Bresenham's integer stepping. Pixels outside the image are skipped.
pub fn draw_line_bresenham(image: &mut Image, x0: i32, y0: i32, x1: i32, y1: i32, color: Color)
    ensures
        final(image)@ == old(image)@.painted(
            line_pixels((x0 as int, y0 as int), (x1 as int, y1 as int)),
            color,
        ),
{
    let ghost start = (x0 as int, y0 as int);
    let ghost end = (x1 as int, y1 as int);
    let dx: i64 = if x0 <= x1 {
        x1 as i64 - x0 as i64
    } else {
        x0 as i64 - x1 as i64
    };
    let dy: i64 = if y0 <= y1 {
        y1 as i64 - y0 as i64
    } else {
        y0 as i64 - y1 as i64
    };
    let sx: i32 = if x0 < x1 {
        1
    } else {
        -1
    };
    let sy: i32 = if y0 < y1 {
        1
    } else {
        -1
    };
    let mut x: i32 = x0;
    let mut y: i32 = y0;
    let mut err: i64 = if dx > dy {
        dx / 2
    } else {
        -(dy / 2)
    };
    let ghost mut k: int = 0;
    proof {
        if dx > dy {
            lemma_drift_start(dy as int, dx as int);
        } else if dy > 0 {
            lemma_drift_start(dx as int, dy as int);
        }
        lemma_painted_nothing(old(image)@, line_prefix(start, end, 0), color);
    }
    loop
        invariant_except_break
            image@ == old(image)@.painted(line_prefix(start, end, k), color),
        invariant
            start == (x0 as int, y0 as int),
            end == (x1 as int, y1 as int),
            dx == gap(x0 as int, x1 as int),
            dy == gap(y0 as int, y1 as int),
            sx == if x0 < x1 { 1i32 } else { -1i32 },
            sy == if y0 < y1 { 1i32 } else { -1i32 },
            0 <= k <= line_steps(start, end),
            (x as int, y as int) == line_point(start, end, k),
            dx > dy ==> err == dx - 1 - slack(k, dy as int, dx as int),
            dx <= dy && dy > 0 ==> err == slack(k, dx as int, dy as int) - (dy - 1),
        ensures
            image@ == old(image)@.painted(line_pixels(start, end), color),
        decreases line_steps(start, end) - k,
    {
        image.draw_pixel(x, y, color);
        proof {
            lemma_painted_union(
                old(image)@,
                line_prefix(start, end, k),
                set![(x as int, y as int)],
                color,
            );
            assert(line_prefix(start, end, k).union(set![(x as int, y as int)]) =~= line_prefix(
                start,
                end,
                k + 1,
            )) by {
                assert forall|p: (int, int)|
                    line_prefix(start, end, k + 1).contains(p) implies line_prefix(start, end, k).union(
                    set![(x as int, y as int)],
                ).contains(p) by {
                    let j = choose|j: int| 0 <= j < k + 1 && line_point(start, end, j) == p;
                    if j < k {
                        assert(0 <= j < k && line_point(start, end, j) == p);
                    }
                }
                assert forall|p: (int, int)|
                    line_prefix(start, end, k).union(set![(x as int, y as int)]).contains(
                        p,
                    ) implies line_prefix(start, end, k + 1).contains(p) by {
                    if p == (x as int, y as int) {
                        assert(0 <= k < k + 1 && line_point(start, end, k) == p);
                    } else {
                        let j = choose|j: int| 0 <= j < k && line_point(start, end, j) == p;
                        assert(0 <= j < k + 1 && line_point(start, end, j) == p);
                    }
                }
            }
            if dx > dy {
                lemma_drift_range(k, dy as int, dx as int);
                lemma_drift_step(k, dy as int, dx as int);
                if k < dx {
                    lemma_drift_range(k + 1, dy as int, dx as int);
                }
            } else if dy > 0 {
                lemma_drift_range(k, dx as int, dy as int);
                lemma_drift_step(k, dx as int, dy as int);
                if k < dy {
                    lemma_drift_range(k + 1, dx as int, dy as int);
                }
            }
        }
        if x == x1 && y == y1 {
            break ;
        }
        let e2: i64 = err;
        if e2 > -dx {
            err = err - dy;
            x = x + sx;
        }
        if e2 < dy {
            err = err + dx;
            y = y + sy;
        }
        proof {
            k = k + 1;
        }
    }
}

} // verus!
