//! What the point-in-polygon rule decides for convex polygons.
//!
//! Throughout, "above" means at a larger y and "left" at a smaller x,
//! whichever way the buffer is shown on a screen.

use crate::arith::between;
use crate::arith::intercept;
use crate::arith::lemma_intercept_formula;
use crate::polygon::contains_point;
use crate::polygon::crossings;
use crate::polygon::edge_crosses;
use crate::polygon::predecessor;
use crate::polygon::vertex;
use vstd::arithmetic::div_mod::lemma_fundamental_div_mod;
use vstd::arithmetic::div_mod::lemma_mod_bound;
use vstd::math::abs;
use vstd::prelude::*;

verus! {

/// Twice the signed area of the triangle `a`, `b`, `c`. Its sign tells on
/// which side of the directed line from `a` to `b` the point `c` lies; it
/// is zero where the three are collinear.
pub open spec fn cross(a: (int, int), b: (int, int), c: (int, int)) -> int {
    (b.0 - a.0) * (c.1 - a.1) - (b.1 - a.1) * (c.0 - a.0)
}

/// The side of the directed line from `a` to `b` on which `c` lies, counted
/// positive toward the inside of a polygon that winds in the given sense.
pub open spec fn turn(ccw: bool, a: (int, int), b: (int, int), c: (int, int)) -> int {
    if ccw {
        cross(a, b, c)
    } else {
        -cross(a, b, c)
    }
}

/// Scaling a side computation scales both of its products.
proof fn lemma_scaled_side(m: int, u: int, w: int, h: int, x: int)
    by (nonlinear_arith)
    ensures
        m * (u * h - w * x) == u * (m * h) - w * (m * x),
{
}

/// How the side of a point `p` relative to one line follows from the sides
/// of the two ends of a segment `a`, `b` and from the side of `p` relative
/// to that segment.
proof fn lemma_sides(
    ccw: bool,
    e: (int, int),
    f: (int, int),
    a: (int, int),
    b: (int, int),
    p: (int, int),
)
    ensures
        (b.1 - a.1) * turn(ccw, e, f, p) == (b.1 - p.1) * turn(ccw, e, f, a) + (p.1 - a.1) * turn(
            ccw,
            e,
            f,
            b,
        ) + (f.1 - e.1) * turn(ccw, a, b, p),
{
    let (ex, ey) = e;
    let (fx, fy) = f;
    let (ax, ay) = a;
    let (bx, by) = b;
    let (px, py) = p;
    let u = fx - ex;
    let w = fy - ey;
    let m1 = by - ay;
    let m2 = by - py;
    let m3 = py - ay;
    // The heights and the horizontal positions, weighted along the segment.
    let hs = m1 * (py - ey) - m2 * (ay - ey) - m3 * (by - ey);
    let xs = m1 * (px - ex) - m2 * (ax - ex) - m3 * (bx - ex);
    assert(hs == 0) by (nonlinear_arith)
        requires
            hs == m1 * (py - ey) - m2 * (ay - ey) - m3 * (by - ey),
            m1 == by - ay,
            m2 == by - py,
            m3 == py - ay,
    ;
    assert(xs == -((bx - ax) * (py - ay) - (by - ay) * (px - ax))) by (nonlinear_arith)
        requires
            xs == m1 * (px - ex) - m2 * (ax - ex) - m3 * (bx - ex),
            m1 == by - ay,
            m2 == by - py,
            m3 == py - ay,
    ;
    lemma_scaled_side(m1, u, w, py - ey, px - ex);
    lemma_scaled_side(m2, u, w, ay - ey, ax - ex);
    lemma_scaled_side(m3, u, w, by - ey, bx - ex);
    assert(u * (m1 * (py - ey)) - u * (m2 * (ay - ey)) - u * (m3 * (by - ey)) == u * hs)
        by (nonlinear_arith)
        requires
            hs == m1 * (py - ey) - m2 * (ay - ey) - m3 * (by - ey),
    ;
    assert(w * (m1 * (px - ex)) - w * (m2 * (ax - ex)) - w * (m3 * (bx - ex)) == w * xs)
        by (nonlinear_arith)
        requires
            xs == m1 * (px - ex) - m2 * (ax - ex) - m3 * (bx - ex),
    ;
    assert(u * hs == 0) by (nonlinear_arith)
        requires
            hs == 0,
    ;
    assert(w * xs == -(w * cross(a, b, p))) by (nonlinear_arith)
        requires
            xs == -cross(a, b, p),
    ;
    assert(m1 * cross(e, f, p) == m2 * cross(e, f, a) + m3 * cross(e, f, b) + w * cross(a, b, p));
    if !ccw {
        let l = cross(e, f, p);
        let ca = cross(e, f, a);
        let cb = cross(e, f, b);
        let cp = cross(a, b, p);
        assert(m1 * (-l) == m2 * (-ca) + m3 * (-cb) + w * (-cp)) by (nonlinear_arith)
            requires
                m1 * l == m2 * ca + m3 * cb + w * cp,
        ;
    }
}

/// The two ends of a segment lie on its own line.
proof fn lemma_ends_on_line(ccw: bool, a: (int, int), b: (int, int))
    ensures
        turn(ccw, a, b, a) == 0,
        turn(ccw, a, b, b) == 0,
{
    assert(cross(a, b, a) == 0) by (nonlinear_arith);
    assert(cross(a, b, b) == 0) by (nonlinear_arith);
}

/// The sign of a product follows from the signs of its factors.
proof fn lemma_product_sign(a: int, b: int)
    by (nonlinear_arith)
    ensures
        a > 0 && b > 0 ==> a * b > 0,
        a < 0 && b < 0 ==> a * b > 0,
        a > 0 && b < 0 ==> a * b < 0,
        a < 0 && b > 0 ==> a * b < 0,
        a == 0 || b == 0 ==> a * b == 0,
{
}

/// Whether the segment from `a` to `b` passes scanline `y` going up: it
/// starts at or below the line and ends above it.
pub open spec fn rises(a: (int, int), b: (int, int), y: int) -> bool {
    a.1 <= y < b.1
}

/// Whether the segment from `a` to `b` passes scanline `y` going down: it
/// starts above the line and ends at or below it.
pub open spec fn falls(a: (int, int), b: (int, int), y: int) -> bool {
    b.1 <= y < a.1
}

/// Where two segments pass a scanline in the same direction and each has
/// both ends of the other on its inner side or on its line, the end at
/// which each enters the scanline lies on the line of the other.
proof fn lemma_same_direction(
    ccw: bool,
    a: (int, int),
    b: (int, int),
    c: (int, int),
    d: (int, int),
    y: int,
)
    requires
        (rises(a, b, y) && rises(c, d, y)) || (falls(a, b, y) && falls(c, d, y)),
        turn(ccw, a, b, c) >= 0,
        turn(ccw, a, b, d) >= 0,
        turn(ccw, c, d, a) >= 0,
        turn(ccw, c, d, b) >= 0,
    ensures
        rises(a, b, y) ==> turn(ccw, a, b, c) == 0 && turn(ccw, c, d, a) == 0,
        falls(a, b, y) ==> turn(ccw, a, b, d) == 0 && turn(ccw, c, d, b) == 0,
{
    let p = (0int, y);
    lemma_sides(ccw, a, b, c, d, p);
    lemma_sides(ccw, c, d, a, b, p);
    lemma_product_sign(d.1 - p.1, turn(ccw, a, b, c));
    lemma_product_sign(p.1 - c.1, turn(ccw, a, b, d));
    lemma_product_sign(b.1 - p.1, turn(ccw, c, d, a));
    lemma_product_sign(p.1 - a.1, turn(ccw, c, d, b));
}

/// Whether `q` lies on the segment from `a` to `b`, ends included.
pub open spec fn on_segment(a: (int, int), b: (int, int), q: (int, int)) -> bool {
    &&& cross(a, b, q) == 0
    &&& between(q.0, a.0, b.0)
    &&& between(q.1, a.1, b.1)
}

/// A point on the line of a segment that is not horizontal lies on the
/// segment where its height lies between the heights of the two ends.
proof fn lemma_on_line_within(a: (int, int), b: (int, int), q: (int, int))
    requires
        cross(a, b, q) == 0,
        a.1 != b.1,
        between(q.1, a.1, b.1),
    ensures
        on_segment(a, b, q),
{
    let run = b.0 - a.0;
    let rise = b.1 - a.1;
    let h = q.1 - a.1;
    let x = q.0 - a.0;
    assert(run * h == rise * x);
    assert(between(x, 0, run)) by (nonlinear_arith)
        requires
            run * h == rise * x,
            rise != 0,
            between(h, 0, rise),
    ;
}

/// Where a rising and a falling segment each have both ends of the other on
/// their inner side or on their line, no point of the scanline lies on the
/// outer side of both: not even on the line of one and outside the other.
proof fn lemma_opposite_directions(
    ccw: bool,
    a: (int, int),
    b: (int, int),
    c: (int, int),
    d: (int, int),
    p: (int, int),
)
    requires
        rises(a, b, p.1),
        falls(c, d, p.1),
        turn(ccw, a, b, c) >= 0,
        turn(ccw, a, b, d) >= 0,
        turn(ccw, c, d, a) >= 0,
        turn(ccw, c, d, b) >= 0,
        turn(ccw, a, b, p) <= 0,
        turn(ccw, c, d, p) <= 0,
    ensures
        turn(ccw, a, b, p) == 0,
        turn(ccw, c, d, p) == 0,
{
    lemma_sides(ccw, a, b, c, d, p);
    lemma_sides(ccw, c, d, a, b, p);
    lemma_product_sign(d.1 - p.1, turn(ccw, a, b, c));
    lemma_product_sign(p.1 - c.1, turn(ccw, a, b, d));
    lemma_product_sign(b.1 - p.1, turn(ccw, c, d, a));
    lemma_product_sign(p.1 - a.1, turn(ccw, c, d, b));
    lemma_product_sign(d.1 - c.1, turn(ccw, a, b, p));
    lemma_product_sign(b.1 - a.1, turn(ccw, c, d, p));
}

/// A point of a scanline that lies on the inner side of a rising and of a
/// falling segment, or on their lines, lies on the inner side or on the
/// line of every line that has all four ends of the two segments there.
proof fn lemma_between_edges(
    ccw: bool,
    e: (int, int),
    f: (int, int),
    a: (int, int),
    b: (int, int),
    c: (int, int),
    d: (int, int),
    p: (int, int),
)
    requires
        rises(a, b, p.1),
        falls(c, d, p.1),
        turn(ccw, e, f, a) >= 0,
        turn(ccw, e, f, b) >= 0,
        turn(ccw, e, f, c) >= 0,
        turn(ccw, e, f, d) >= 0,
        turn(ccw, a, b, p) >= 0,
        turn(ccw, c, d, p) >= 0,
    ensures
        turn(ccw, e, f, p) >= 0,
{
    if f.1 - e.1 >= 0 {
        lemma_sides(ccw, e, f, a, b, p);
        lemma_product_sign(b.1 - p.1, turn(ccw, e, f, a));
        lemma_product_sign(p.1 - a.1, turn(ccw, e, f, b));
        lemma_product_sign(f.1 - e.1, turn(ccw, a, b, p));
        lemma_product_sign(b.1 - a.1, turn(ccw, e, f, p));
    } else {
        lemma_sides(ccw, e, f, c, d, p);
        lemma_product_sign(d.1 - p.1, turn(ccw, e, f, c));
        lemma_product_sign(p.1 - c.1, turn(ccw, e, f, d));
        lemma_product_sign(f.1 - e.1, turn(ccw, c, d, p));
        lemma_product_sign(d.1 - c.1, turn(ccw, e, f, p));
    }
}

/// At a corner where the boundary does not turn toward the outside, a
/// point on the inner side of both edges can lie at or beyond the corner,
/// in a vertical direction in which neither neighbor of the corner lies
/// beyond it, only where both neighbors lie at the very height of the
/// corner.
proof fn lemma_corner(ccw: bool, s: (int, int), t: (int, int), u: (int, int), p: (int, int))
    requires
        turn(ccw, s, t, p) > 0,
        turn(ccw, t, u, p) > 0,
        turn(ccw, s, t, u) >= 0,
    ensures
        s.1 <= t.1 && u.1 <= t.1 && p.1 >= t.1 ==> s.1 == t.1 && u.1 == t.1,
        s.1 >= t.1 && u.1 >= t.1 && p.1 <= t.1 ==> s.1 == t.1 && u.1 == t.1,
{
    lemma_sides(ccw, s, t, t, u, p);
    lemma_ends_on_line(ccw, s, t);
    lemma_product_sign(u.1 - p.1, turn(ccw, s, t, t));
    lemma_product_sign(p.1 - t.1, turn(ccw, s, t, u));
    lemma_product_sign(t.1 - s.1, turn(ccw, t, u, p));
    lemma_product_sign(u.1 - t.1, turn(ccw, s, t, p));
}

/// The sides of a horizontal segment: the points above it lie on its inner
/// side where it runs one way, the points below it where it runs the other.
proof fn lemma_level_edge(ccw: bool, a: (int, int), b: (int, int), q: (int, int))
    requires
        a.1 == b.1,
    ensures
        turn(ccw, a, b, q) == if ccw {
            (b.0 - a.0) * (q.1 - a.1)
        } else {
            (a.0 - b.0) * (q.1 - a.1)
        },
{
    assert(cross(a, b, q) == (b.0 - a.0) * (q.1 - a.1)) by (nonlinear_arith)
        requires
            a.1 == b.1,
    ;
    assert(-((b.0 - a.0) * (q.1 - a.1)) == (a.0 - b.0) * (q.1 - a.1)) by (nonlinear_arith);
}

/// Swapping the ends of a line swaps its sides.
proof fn lemma_cross_reversed(a: (int, int), b: (int, int), c: (int, int))
    ensures
        cross(b, a, c) == -cross(a, b, c),
{
    assert(cross(b, a, c) == -cross(a, b, c)) by (nonlinear_arith);
}

/// The index of the vertex before vertex `i`, the last one coming before
/// the first.
pub open spec fn before(polygon: Seq<(i32, i32)>, i: int) -> int {
    if i == 0 {
        polygon.len() - 1
    } else {
        i - 1
    }
}

/// The index of the vertex after vertex `i`, the first one coming after the
/// last.
pub open spec fn after(polygon: Seq<(i32, i32)>, i: int) -> int {
    if i + 1 == polygon.len() {
        0
    } else {
        i + 1
    }
}

/// The side of edge `i` on which `q` lies, edge `i` being the one that
/// arrives at vertex `i` from the vertex before it: positive toward the
/// inside of a polygon that winds in the given sense, negative toward the
/// outside, zero on the line of the edge.
pub open spec fn side(ccw: bool, polygon: Seq<(i32, i32)>, i: int, q: (int, int)) -> int {
    turn(ccw, predecessor(polygon, i), vertex(polygon, i), q)
}

/// Whether `q` lies on edge `i`, ends included.
pub open spec fn on_edge(polygon: Seq<(i32, i32)>, i: int, q: (int, int)) -> bool {
    on_segment(predecessor(polygon, i), vertex(polygon, i), q)
}

/// A polygon is convex, winding in the given sense, when it has at least
/// three vertices, every vertex lies on the inner side of every edge or on
/// its line, and no vertex lies on an edge other than the two that meet in
/// it. Vertices in the middle of a straight side are thus allowed; repeated
/// vertices and polygons squeezed onto a line are not.
pub open spec fn convex(polygon: Seq<(i32, i32)>, ccw: bool) -> bool {
    &&& polygon.len() >= 3
    &&& forall|i: int, k: int|
        0 <= i < polygon.len() && 0 <= k < polygon.len() ==> #[trigger] side(
            ccw,
            polygon,
            i,
            vertex(polygon, k),
        ) >= 0
    &&& forall|i: int, k: int|
        0 <= i < polygon.len() && 0 <= k < polygon.len() && k != i && k != before(polygon, i)
            ==> !#[trigger] on_edge(polygon, i, vertex(polygon, k))
}

/// A point is strictly inside a convex polygon when it lies strictly on the
/// inner side of every edge.
pub open spec fn strictly_inside(p: (int, int), polygon: Seq<(i32, i32)>, ccw: bool) -> bool {
    forall|i: int| 0 <= i < polygon.len() ==> #[trigger] side(ccw, polygon, i, p) > 0
}

/// A point is strictly outside a convex polygon when it lies strictly on
/// the outer side of some edge.
pub open spec fn strictly_outside(p: (int, int), polygon: Seq<(i32, i32)>, ccw: bool) -> bool {
    exists|i: int| 0 <= i < polygon.len() && #[trigger] side(ccw, polygon, i, p) < 0
}

/// Whether the edge between `a` and `b` crosses the horizontal ray that
/// starts at `p` and runs toward larger x, decided without rounding: the
/// two ends lie on different sides of the ray's height (an end exactly at
/// that height counts as below), and `p` lies strictly to the left of the
/// edge.
pub open spec fn edge_crosses_exactly(p: (int, int), a: (int, int), b: (int, int)) -> bool {
    &&& (a.1 > p.1) != (b.1 > p.1)
    &&& if a.1 < b.1 {
        cross(a, b, p) > 0
    } else {
        cross(b, a, p) > 0
    }
}

/// The number of indices below `n` at which `f` holds.
pub open spec fn tally(f: spec_fn(int) -> bool, n: int) -> int
    decreases n,
{
    if n <= 0 {
        0
    } else {
        tally(f, n - 1) + if f(n - 1) {
            1int
        } else {
            0int
        }
    }
}

/// The crossing test of the point-in-polygon rule, edge by edge.
pub open spec fn rounded_test(p: (int, int), polygon: Seq<(i32, i32)>) -> spec_fn(int) -> bool {
    |i: int| edge_crosses(p, vertex(polygon, i), predecessor(polygon, i))
}

/// The crossing test without rounding, edge by edge.
pub open spec fn exact_test(p: (int, int), polygon: Seq<(i32, i32)>) -> spec_fn(int) -> bool {
    |i: int| edge_crosses_exactly(p, vertex(polygon, i), predecessor(polygon, i))
}

/// Whether rounding changes the crossing test, edge by edge.
pub open spec fn miscount_test(p: (int, int), polygon: Seq<(i32, i32)>) -> spec_fn(int) -> bool {
    |i: int| rounded_test(p, polygon)(i) != exact_test(p, polygon)(i)
}

/// Rounding leaves the even-odd rule alone at `p`: the edges whose crossing
/// test it changes are even in number. That is so, in particular, where it
/// changes none.
pub open spec fn rounding_neutral(p: (int, int), polygon: Seq<(i32, i32)>) -> bool {
    tally(miscount_test(p, polygon), polygon.len() as int) % 2 == 0
}

/// Where `f` holds at no index below `n` other than `i` and `k`, its tally
/// counts just these two.
proof fn lemma_tally_two(f: spec_fn(int) -> bool, n: int, i: int, k: int)
    requires
        forall|j: int| 0 <= j < n && #[trigger] f(j) ==> j == i || j == k,
    ensures
        tally(f, n) == (if 0 <= i < n && f(i) {
            1int
        } else {
            0int
        }) + (if 0 <= k < n && k != i && f(k) {
            1int
        } else {
            0int
        }),
    decreases n,
{
    if n > 0 {
        lemma_tally_two(f, n - 1, i, k);
    }
}

/// Where `h` tells the indices at which `f` and `g` differ, the three
/// tallies add up to an even number.
proof fn lemma_tally_parity(
    f: spec_fn(int) -> bool,
    g: spec_fn(int) -> bool,
    h: spec_fn(int) -> bool,
    n: int,
)
    requires
        forall|j: int| 0 <= j < n ==> #[trigger] h(j) == (f(j) != g(j)),
    ensures
        (tally(f, n) + tally(g, n) + tally(h, n)) % 2 == 0,
    decreases n,
{
    if n > 0 {
        lemma_tally_parity(f, g, h, n - 1);
    }
}

/// The crossings that the point-in-polygon rule counts are the tally of its
/// crossing test.
proof fn lemma_crossings_tally(p: (int, int), polygon: Seq<(i32, i32)>, count: int)
    ensures
        crossings(p, polygon, count) == tally(rounded_test(p, polygon), count),
    decreases count,
{
    if count > 0 {
        lemma_crossings_tally(p, polygon, count - 1);
    }
}

/// Edge `i` passes scanline `y` going up.
pub open spec fn edge_rises(polygon: Seq<(i32, i32)>, i: int, y: int) -> bool {
    rises(predecessor(polygon, i), vertex(polygon, i), y)
}

/// Edge `i` passes scanline `y` going down.
pub open spec fn edge_falls(polygon: Seq<(i32, i32)>, i: int, y: int) -> bool {
    falls(predecessor(polygon, i), vertex(polygon, i), y)
}

/// The boundary of a convex polygon passes a scanline at most once in each
/// direction.
proof fn lemma_one_passage(ccw: bool, polygon: Seq<(i32, i32)>, y: int, i: int, k: int)
    requires
        convex(polygon, ccw),
        0 <= i < polygon.len(),
        0 <= k < polygon.len(),
        (edge_rises(polygon, i, y) && edge_rises(polygon, k, y)) || (edge_falls(polygon, i, y)
            && edge_falls(polygon, k, y)),
    ensures
        i == k,
{
    if i != k {
        let bi = before(polygon, i);
        let bk = before(polygon, k);
        let a = predecessor(polygon, i);
        let b = vertex(polygon, i);
        let c = predecessor(polygon, k);
        let d = vertex(polygon, k);
        assert(side(ccw, polygon, i, vertex(polygon, bk)) >= 0);
        assert(side(ccw, polygon, i, vertex(polygon, k)) >= 0);
        assert(side(ccw, polygon, k, vertex(polygon, bi)) >= 0);
        assert(side(ccw, polygon, k, vertex(polygon, i)) >= 0);
        lemma_same_direction(ccw, a, b, c, d, y);
        if edge_rises(polygon, i, y) {
            // The two edges lie on one line; the one that starts higher
            // starts on the other.
            if c.1 >= a.1 {
                lemma_on_line_within(a, b, c);
                assert(on_edge(polygon, i, vertex(polygon, bk)));
            } else {
                lemma_on_line_within(c, d, a);
                assert(on_edge(polygon, k, vertex(polygon, bi)));
            }
        } else {
            if d.1 >= b.1 {
                lemma_on_line_within(a, b, d);
                assert(on_edge(polygon, i, vertex(polygon, k)));
            } else {
                lemma_on_line_within(c, d, b);
                assert(on_edge(polygon, k, vertex(polygon, i)));
            }
        }
    }
}

/// In every polygon some edge does not run toward larger x, and some edge
/// does not run toward smaller x.
proof fn lemma_some_edge_turns_back(polygon: Seq<(i32, i32)>)
    requires
        polygon.len() >= 1,
    ensures
        exists|i: int|
            0 <= i < polygon.len() && (#[trigger] vertex(polygon, i)).0 <= predecessor(
                polygon,
                i,
            ).0,
        exists|i: int|
            0 <= i < polygon.len() && (#[trigger] vertex(polygon, i)).0 >= predecessor(
                polygon,
                i,
            ).0,
{
    let n = polygon.len() as int;
    if forall|i: int|
        0 <= i < n ==> (#[trigger] vertex(polygon, i)).0 > predecessor(polygon, i).0 {
        lemma_run(polygon, n - 1, true);
        assert(vertex(polygon, 0).0 > predecessor(polygon, 0).0);
    }
    if forall|i: int|
        0 <= i < n ==> (#[trigger] vertex(polygon, i)).0 < predecessor(polygon, i).0 {
        lemma_run(polygon, n - 1, false);
        assert(vertex(polygon, 0).0 < predecessor(polygon, 0).0);
    }
}

/// Where every edge up to vertex `m` runs the same way along x, vertex `m`
/// lies that way from the first vertex, or is the first vertex.
proof fn lemma_run(polygon: Seq<(i32, i32)>, m: int, rightward: bool)
    requires
        0 <= m < polygon.len(),
        forall|i: int|
            1 <= i <= m ==> if rightward {
                (#[trigger] vertex(polygon, i)).0 > predecessor(polygon, i).0
            } else {
                vertex(polygon, i).0 < predecessor(polygon, i).0
            },
    ensures
        rightward ==> vertex(polygon, m).0 >= vertex(polygon, 0).0,
        !rightward ==> vertex(polygon, m).0 <= vertex(polygon, 0).0,
    decreases m,
{
    if m > 0 {
        lemma_run(polygon, m - 1, rightward);
        assert(if rightward {
            vertex(polygon, m).0 > predecessor(polygon, m).0
        } else {
            vertex(polygon, m).0 < predecessor(polygon, m).0
        });
    }
}

/// Some vertex is at least as high as every other, and some at least as low.
proof fn lemma_extreme_vertices(polygon: Seq<(i32, i32)>, n: int) -> (r: (int, int))
    requires
        0 < n <= polygon.len(),
    ensures
        0 <= r.0 < n,
        0 <= r.1 < n,
        forall|i: int| 0 <= i < n ==> (#[trigger] vertex(polygon, i)).1 <= vertex(polygon, r.0).1,
        forall|i: int| 0 <= i < n ==> (#[trigger] vertex(polygon, i)).1 >= vertex(polygon, r.1).1,
    decreases n,
{
    if n == 1 {
        (0, 0)
    } else {
        let (hi, lo) = lemma_extreme_vertices(polygon, n - 1);
        let y = vertex(polygon, n - 1).1;
        (
            if y > vertex(polygon, hi).1 {
                n - 1
            } else {
                hi
            },
            if y < vertex(polygon, lo).1 {
                n - 1
            } else {
                lo
            },
        )
    }
}

/// Between a vertex at or below a scanline and a later one above it, some
/// edge passes the scanline going up; between one above and a later one at
/// or below, some edge passes it going down.
proof fn lemma_passage_between(polygon: Seq<(i32, i32)>, y: int, lo: int, hi: int) -> (i: int)
    requires
        0 <= lo < hi < polygon.len(),
        (vertex(polygon, lo).1 > y) != (vertex(polygon, hi).1 > y),
    ensures
        lo < i <= hi,
        vertex(polygon, hi).1 > y ==> edge_rises(polygon, i, y),
        vertex(polygon, lo).1 > y ==> edge_falls(polygon, i, y),
    decreases hi - lo,
{
    if (vertex(polygon, hi - 1).1 > y) != (vertex(polygon, hi).1 > y) {
        hi
    } else {
        lemma_passage_between(polygon, y, lo, hi - 1)
    }
}

/// Where some vertex lies above a scanline and some at or below it, the
/// boundary passes the scanline going up at some edge and going down at
/// another.
proof fn lemma_passages(polygon: Seq<(i32, i32)>, y: int, a: int, b: int) -> (r: (int, int))
    requires
        0 <= a < polygon.len(),
        0 <= b < polygon.len(),
        vertex(polygon, a).1 <= y,
        vertex(polygon, b).1 > y,
    ensures
        0 <= r.0 < polygon.len(),
        0 <= r.1 < polygon.len(),
        edge_rises(polygon, r.0, y),
        edge_falls(polygon, r.1, y),
{
    let n = polygon.len() as int;
    let first_above = vertex(polygon, 0).1 > y;
    let last_above = vertex(polygon, n - 1).1 > y;
    let up = if a < b {
        lemma_passage_between(polygon, y, a, b)
    } else if last_above {
        lemma_passage_between(polygon, y, a, n - 1)
    } else if first_above {
        0
    } else {
        lemma_passage_between(polygon, y, 0, b)
    };
    let down = if b < a {
        lemma_passage_between(polygon, y, b, a)
    } else if !last_above {
        lemma_passage_between(polygon, y, b, n - 1)
    } else if !first_above {
        0
    } else {
        lemma_passage_between(polygon, y, 0, a)
    };
    (up, down)
}

/// A point strictly inside a convex polygon has a vertex above it and a
/// vertex at its height or below.
proof fn lemma_inside_extent(ccw: bool, p: (int, int), polygon: Seq<(i32, i32)>) -> (r: (int, int))
    requires
        convex(polygon, ccw),
        strictly_inside(p, polygon, ccw),
    ensures
        0 <= r.0 < polygon.len(),
        0 <= r.1 < polygon.len(),
        vertex(polygon, r.0).1 <= p.1,
        vertex(polygon, r.1).1 > p.1,
{
    let n = polygon.len() as int;
    let (hi, lo) = lemma_extreme_vertices(polygon, n);
    assert(vertex(polygon, before(polygon, hi)).1 <= vertex(polygon, hi).1);
    assert(vertex(polygon, after(polygon, hi)).1 <= vertex(polygon, hi).1);
    assert(vertex(polygon, before(polygon, lo)).1 >= vertex(polygon, lo).1);
    assert(vertex(polygon, after(polygon, lo)).1 >= vertex(polygon, lo).1);
    if vertex(polygon, hi).1 <= p.1 {
        lemma_beyond_corner(ccw, p, polygon, hi, true);
    }
    if vertex(polygon, lo).1 > p.1 {
        lemma_beyond_corner(ccw, p, polygon, lo, false);
    }
    (lo, hi)
}

/// No point strictly inside a convex polygon lies at or beyond a vertex in
/// a vertical direction in which no vertex lies beyond that one: the
/// conclusion names a vertex that does.
proof fn lemma_beyond_corner(
    ccw: bool,
    p: (int, int),
    polygon: Seq<(i32, i32)>,
    t: int,
    above: bool,
)
    requires
        convex(polygon, ccw),
        strictly_inside(p, polygon, ccw),
        0 <= t < polygon.len(),
        if above {
            p.1 >= vertex(polygon, t).1
        } else {
            p.1 <= vertex(polygon, t).1
        },
    ensures
        above ==> exists|j: int|
            0 <= j < polygon.len() && (#[trigger] vertex(polygon, j)).1 > vertex(polygon, t).1,
        !above ==> exists|j: int|
            0 <= j < polygon.len() && (#[trigger] vertex(polygon, j)).1 < vertex(polygon, t).1,
{
    let n = polygon.len() as int;
    let u = after(polygon, t);
    let h = vertex(polygon, t).1;
    assert(before(polygon, u) == t);
    assert(side(ccw, polygon, t, p) > 0);
    assert(side(ccw, polygon, u, p) > 0);
    assert(side(ccw, polygon, t, vertex(polygon, u)) >= 0);
    let beyond = |j: int|
        0 <= j < n && if above {
            vertex(polygon, j).1 > h
        } else {
            vertex(polygon, j).1 < h
        };
    if !exists|j: int| #[trigger] beyond(j) {
        assert forall|j: int| 0 <= j < n implies if above {
            (#[trigger] vertex(polygon, j)).1 <= h
        } else {
            vertex(polygon, j).1 >= h
        } by {
            assert(!beyond(j));
        }
        let s = predecessor(polygon, t);
        let v = vertex(polygon, t);
        assert(vertex(polygon, before(polygon, t)).1 == s.1);
        lemma_corner(ccw, s, v, vertex(polygon, u), p);
        // The edge into the corner is level, and the point lies off it.
        lemma_level_edge(ccw, s, v, p);
        lemma_product_sign(v.0 - s.0, p.1 - s.1);
        lemma_product_sign(s.0 - v.0, p.1 - s.1);
        assert(p.1 != h);
        // So is every vertex at that height, and every edge level.
        assert forall|j: int| 0 <= j < n implies (#[trigger] vertex(polygon, j)).1 == h by {
            let z = vertex(polygon, j);
            assert(side(ccw, polygon, t, vertex(polygon, j)) >= 0);
            lemma_level_edge(ccw, s, v, z);
            lemma_product_sign(v.0 - s.0, z.1 - s.1);
            lemma_product_sign(s.0 - v.0, z.1 - s.1);
        }
        // All edges then run the same way, which no closed boundary does.
        let rightward = (ccw == above);
        assert forall|i: int| 0 <= i < n implies if rightward {
            (#[trigger] vertex(polygon, i)).0 > predecessor(polygon, i).0
        } else {
            vertex(polygon, i).0 < predecessor(polygon, i).0
        } by {
            let a = predecessor(polygon, i);
            let b = vertex(polygon, i);
            assert(vertex(polygon, before(polygon, i)).1 == h);
            assert(side(ccw, polygon, i, p) > 0);
            lemma_level_edge(ccw, a, b, p);
            lemma_product_sign(b.0 - a.0, p.1 - a.1);
            lemma_product_sign(a.0 - b.0, p.1 - a.1);
        }
        lemma_some_edge_turns_back(polygon);
    }
    let j = choose|j: int| #[trigger] beyond(j);
    assert(beyond(j));
    if above {
        assert(0 <= j < n && vertex(polygon, j).1 > vertex(polygon, t).1);
    } else {
        assert(0 <= j < n && vertex(polygon, j).1 < vertex(polygon, t).1);
    }
}

/// How the exact crossing test of edge `i` reads in terms of the side of
/// the edge on which the point lies: an edge going up is crossed by the ray
/// from a point to its left, an edge going down by the ray from a point to
/// its right, and an edge that does not pass the scanline by none.
proof fn lemma_exact_test(ccw: bool, p: (int, int), polygon: Seq<(i32, i32)>, i: int)
    ensures
        exact_test(p, polygon)(i) ==> edge_rises(polygon, i, p.1) || edge_falls(polygon, i, p.1),
        edge_rises(polygon, i, p.1) ==> (exact_test(p, polygon)(i) <==> if ccw {
            side(ccw, polygon, i, p) > 0
        } else {
            side(ccw, polygon, i, p) < 0
        }),
        edge_falls(polygon, i, p.1) ==> (exact_test(p, polygon)(i) <==> if ccw {
            side(ccw, polygon, i, p) < 0
        } else {
            side(ccw, polygon, i, p) > 0
        }),
{
    lemma_cross_reversed(predecessor(polygon, i), vertex(polygon, i), p);
}

/// The ray from a point strictly inside a convex polygon crosses
/// its boundary exactly once, where no rounding takes place.
proof fn lemma_inside_crosses_once(ccw: bool, p: (int, int), polygon: Seq<(i32, i32)>)
    requires
        convex(polygon, ccw),
        strictly_inside(p, polygon, ccw),
    ensures
        tally(exact_test(p, polygon), polygon.len() as int) == 1,
{
    let n = polygon.len() as int;
    let f = exact_test(p, polygon);
    let (below, above) = lemma_inside_extent(ccw, p, polygon);
    let (up, down) = lemma_passages(polygon, p.1, below, above);
    let hit = if ccw {
        up
    } else {
        down
    };
    lemma_exact_test(ccw, p, polygon, hit);
    assert(side(ccw, polygon, hit, p) > 0);
    assert forall|j: int| 0 <= j < n && #[trigger] f(j) implies j == hit by {
        lemma_exact_test(ccw, p, polygon, j);
        assert(side(ccw, polygon, j, p) > 0);
        lemma_one_passage(ccw, polygon, p.1, j, hit);
    }
    lemma_tally_two(f, n, hit, hit);
}

/// The ray from a point strictly outside a convex polygon crosses
/// its boundary twice or not at all, where no rounding takes place.
proof fn lemma_outside_crosses_evenly(ccw: bool, p: (int, int), polygon: Seq<(i32, i32)>)
    requires
        convex(polygon, ccw),
        strictly_outside(p, polygon, ccw),
    ensures
        tally(exact_test(p, polygon), polygon.len() as int) % 2 == 0,
{
    let n = polygon.len() as int;
    let f = exact_test(p, polygon);
    if exists|a: int, b: int|
        0 <= a < n && 0 <= b < n && vertex(polygon, a).1 <= p.1 && vertex(polygon, b).1 > p.1 {
        let (a, b) = choose|a: int, b: int|
            0 <= a < n && 0 <= b < n && vertex(polygon, a).1 <= p.1 && vertex(polygon, b).1 > p.1;
        let (up, down) = lemma_passages(polygon, p.1, a, b);
        assert forall|j: int| 0 <= j < n && #[trigger] f(j) implies j == up || j == down by {
            lemma_exact_test(ccw, p, polygon, j);
            if edge_rises(polygon, j, p.1) {
                lemma_one_passage(ccw, polygon, p.1, j, up);
            } else {
                lemma_one_passage(ccw, polygon, p.1, j, down);
            }
        }
        lemma_tally_two(f, n, up, down);
        lemma_exact_test(ccw, p, polygon, up);
        lemma_exact_test(ccw, p, polygon, down);
        let out = choose|i: int| 0 <= i < n && #[trigger] side(ccw, polygon, i, p) < 0;
        let ub = before(polygon, up);
        let db = before(polygon, down);
        assert(side(ccw, polygon, up, vertex(polygon, db)) >= 0);
        assert(side(ccw, polygon, up, vertex(polygon, down)) >= 0);
        assert(side(ccw, polygon, down, vertex(polygon, ub)) >= 0);
        assert(side(ccw, polygon, down, vertex(polygon, up)) >= 0);
        assert(side(ccw, polygon, out, vertex(polygon, ub)) >= 0);
        assert(side(ccw, polygon, out, vertex(polygon, up)) >= 0);
        assert(side(ccw, polygon, out, vertex(polygon, db)) >= 0);
        assert(side(ccw, polygon, out, vertex(polygon, down)) >= 0);
        let a0 = predecessor(polygon, up);
        let b0 = vertex(polygon, up);
        let c0 = predecessor(polygon, down);
        let d0 = vertex(polygon, down);
        if side(ccw, polygon, up, p) <= 0 && side(ccw, polygon, down, p) <= 0 {
            lemma_opposite_directions(ccw, a0, b0, c0, d0, p);
        }
        if side(ccw, polygon, up, p) >= 0 && side(ccw, polygon, down, p) >= 0 {
            lemma_between_edges(
                ccw,
                predecessor(polygon, out),
                vertex(polygon, out),
                a0,
                b0,
                c0,
                d0,
                p,
            );
        }
        assert(f(up) == f(down));
    } else {
        assert forall|j: int| 0 <= j < n implies !#[trigger] f(j) by {
            lemma_exact_test(ccw, p, polygon, j);
            let i = before(polygon, j);
            if edge_rises(polygon, j, p.1) {
                assert(0 <= i < n && 0 <= j < n && vertex(polygon, i).1 <= p.1 && vertex(
                    polygon,
                    j,
                ).1 > p.1);
            }
            if edge_falls(polygon, j, p.1) {
                assert(0 <= j < n && 0 <= i < n && vertex(polygon, j).1 <= p.1 && vertex(
                    polygon,
                    i,
                ).1 > p.1);
            }
        }
        lemma_tally_two(f, n, 0, 0);
    }
}

/// The even-odd rule with rounding agrees with the rule without it exactly
/// where rounding is neutral.
proof fn lemma_rounding(p: (int, int), polygon: Seq<(i32, i32)>)
    ensures
        rounding_neutral(p, polygon) <==> crossings(p, polygon, polygon.len() as int) % 2
            == tally(exact_test(p, polygon), polygon.len() as int) % 2,
{
    let n = polygon.len() as int;
    lemma_crossings_tally(p, polygon, n);
    lemma_tally_parity(
        rounded_test(p, polygon),
        exact_test(p, polygon),
        miscount_test(p, polygon),
        n,
    );
}

/// A point strictly inside a convex polygon is contained in it,
/// whichever way the polygon winds, provided that rounding is neutral at
/// the point.
pub proof fn lemma_convex_contains(p: (int, int), polygon: Seq<(i32, i32)>, ccw: bool)
    requires
        convex(polygon, ccw),
        strictly_inside(p, polygon, ccw),
        rounding_neutral(p, polygon),
    ensures
        contains_point(p, polygon),
{
    lemma_inside_crosses_once(ccw, p, polygon);
    lemma_rounding(p, polygon);
}

/// A point strictly outside a convex polygon is not contained in
/// it, whichever way the polygon winds, provided that rounding is neutral
/// at the point.
pub proof fn lemma_convex_excludes(p: (int, int), polygon: Seq<(i32, i32)>, ccw: bool)
    requires
        convex(polygon, ccw),
        strictly_outside(p, polygon, ccw),
        rounding_neutral(p, polygon),
    ensures
        !contains_point(p, polygon),
{
    lemma_outside_crosses_evenly(ccw, p, polygon);
    lemma_rounding(p, polygon);
}

/// Rounding is the only thing that stands between a convex polygon and the
/// right answer: where it is not neutral, a point strictly inside is not
/// contained, and a point strictly outside is.
pub proof fn lemma_convex_misjudged(p: (int, int), polygon: Seq<(i32, i32)>, ccw: bool)
    requires
        convex(polygon, ccw),
        !rounding_neutral(p, polygon),
    ensures
        strictly_inside(p, polygon, ccw) ==> !contains_point(p, polygon),
        strictly_outside(p, polygon, ccw) ==> contains_point(p, polygon),
{
    lemma_rounding(p, polygon);
    if strictly_inside(p, polygon, ccw) {
        lemma_inside_crosses_once(ccw, p, polygon);
    }
    if strictly_outside(p, polygon, ccw) {
        lemma_outside_crosses_evenly(ccw, p, polygon);
    }
}

/// What rounding does to the crossing test of one edge: it never makes the
/// ray cross an edge that it does not cross, and it misses a crossing only
/// where the ray from the next pixel to the right would no longer cross.
pub proof fn lemma_rounded_edge(p: (int, int), a: (int, int), b: (int, int))
    ensures
        edge_crosses(p, a, b) ==> edge_crosses_exactly(p, a, b),
        edge_crosses_exactly(p, a, b) && edge_crosses_exactly((p.0 + 1, p.1), a, b)
            ==> edge_crosses(p, a, b),
{
    if (a.1 > p.1) != (b.1 > p.1) {
        let t = p.1 - a.1;
        let run = b.0 - a.0;
        let rise = b.1 - a.1;
        let m = p.0 - a.0;
        let u = abs(t) as int;
        let v = abs(run) as int;
        let w = abs(rise) as int;
        let q = (u * v) / w;
        let r = (u * v) % w;
        lemma_intercept_formula(t, run, rise);
        lemma_fundamental_div_mod(u * v, w);
        lemma_mod_bound(u * v, w);
        let reach = intercept(a, b, p.1) - a.0;
        assert(reach == if run < 0 {
            -q
        } else {
            q
        });
        // The side of the edge on which a point of the scanline lies, in
        // units of the height of the edge.
        let lead = if run < 0 {
            -(u * v)
        } else {
            u * v
        };
        assert(t * run == if rise > 0 {
            lead
        } else {
            -lead
        }) by (nonlinear_arith)
            requires
                u == abs(t),
                v == abs(run),
                lead == if run < 0 {
                    -(u * v)
                } else {
                    u * v
                },
                rise > 0 ==> t >= 0,
                rise < 0 ==> t <= 0,
                rise != 0,
        ;
        assert(cross(a, b, p) == t * run - rise * m) by (nonlinear_arith)
            requires
                t == p.1 - a.1,
                run == b.0 - a.0,
                rise == b.1 - a.1,
                m == p.0 - a.0,
        ;
        let right = (p.0 + 1, p.1);
        assert(cross(a, b, right) == t * run - rise * (m + 1)) by (nonlinear_arith)
            requires
                t == right.1 - a.1,
                run == b.0 - a.0,
                rise == b.1 - a.1,
                m + 1 == right.0 - a.0,
        ;
        lemma_cross_reversed(a, b, p);
        lemma_cross_reversed(a, b, right);
        assert(rise * m == if rise > 0 {
            w * m
        } else {
            -(w * m)
        }) by (nonlinear_arith)
            requires
                w == abs(rise),
        ;
        assert(rise * (m + 1) == if rise > 0 {
            w * m + w
        } else {
            -(w * m + w)
        }) by (nonlinear_arith)
            requires
                w == abs(rise),
        ;
        assert(edge_crosses_exactly(p, a, b) <==> lead - w * m > 0);
        assert(edge_crosses_exactly(right, a, b) <==> lead - w * m - w > 0);
        assert(edge_crosses(p, a, b) <==> m < reach);
        assert(u * v == w * q + r);
        if run < 0 {
            if m < -q {
                assert(w * m + w <= -(w * q)) by (nonlinear_arith)
                    requires
                        m + 1 <= -q,
                        w > 0,
                ;
            } else {
                assert(w * m + w > -(w * q)) by (nonlinear_arith)
                    requires
                        m + 1 > -q,
                        w > 0,
                ;
            }
        } else {
            if m < q {
                assert(w * m + w <= w * q) by (nonlinear_arith)
                    requires
                        m + 1 <= q,
                        w > 0,
                ;
            } else {
                assert(w * m + w >= w * q + w) by (nonlinear_arith)
                    requires
                        m >= q,
                        w > 0,
                ;
            }
        }
    }
}

/// Rounding is neutral at every point whose ray crosses no edge so closely
/// that the ray from the next pixel to the right would miss it.
pub proof fn lemma_rounding_margin(p: (int, int), polygon: Seq<(i32, i32)>)
    requires
        forall|i: int|
            0 <= i < polygon.len() && #[trigger] exact_test(p, polygon)(i) ==> exact_test(
                (p.0 + 1, p.1),
                polygon,
            )(i),
    ensures
        rounding_neutral(p, polygon),
{
    let n = polygon.len() as int;
    let h = miscount_test(p, polygon);
    assert forall|j: int| 0 <= j < n implies !#[trigger] h(j) by {
        lemma_rounded_edge(p, vertex(polygon, j), predecessor(polygon, j));
        if exact_test(p, polygon)(j) {
            assert(exact_test((p.0 + 1, p.1), polygon)(j));
        }
    }
    lemma_tally_two(h, n, 0, 0);
}

/// A point that lies strictly inside a convex polygon together
/// with its neighbor to the right is contained in the polygon: rounding
/// cannot reach it.
pub proof fn lemma_convex_contains_clear(p: (int, int), polygon: Seq<(i32, i32)>, ccw: bool)
    requires
        convex(polygon, ccw),
        strictly_inside(p, polygon, ccw),
        strictly_inside((p.0 + 1, p.1), polygon, ccw),
    ensures
        contains_point(p, polygon),
{
    let right = (p.0 + 1, p.1);
    assert forall|i: int|
        0 <= i < polygon.len() && #[trigger] exact_test(p, polygon)(i) implies exact_test(
        right,
        polygon,
    )(i) by {
        lemma_exact_test(ccw, p, polygon, i);
        lemma_exact_test(ccw, right, polygon, i);
        assert(side(ccw, polygon, i, p) > 0);
        assert(side(ccw, polygon, i, right) > 0);
    }
    lemma_rounding_margin(p, polygon);
    lemma_convex_contains(p, polygon, ccw);
}

} // verus!
