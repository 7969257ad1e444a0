use vstd::arithmetic::div_mod::*;
use vstd::math::abs;
use vstd::prelude::*;

verus! {

/// The quotient of `a` by `b` rounded toward zero, as machine integer
/// division rounds it. Meaningful for `b != 0`.
pub open spec fn trunc_div(a: int, b: int) -> int {
    let q = abs(a) as int / abs(b) as int;
    if (a < 0) != (b < 0) {
        -q
    } else {
        q
    }
}

/// The x-coordinate at which the straight line from `a` to `b` meets the
/// horizontal line at height `y`, interpolated linearly from `a` with the
/// quotient rounded toward zero. Meaningful for `a.1 != b.1`.
pub open spec fn intercept(a: (int, int), b: (int, int), y: int) -> int {
    a.0 + trunc_div((y - a.1) * (b.0 - a.0), b.1 - a.1)
}

/// Whether `y` lies between `p` and `q`, whichever of the two is the
/// smaller, both ends included.
pub open spec fn between(y: int, p: int, q: int) -> bool {
    (p <= y <= q) || (q <= y <= p)
}

/// For a height between the two end points, the interpolated quotient has
/// the sign of the horizontal run and never exceeds it in magnitude.
pub proof fn lemma_intercept_formula(t: int, run: int, rise: int)
    requires
        rise != 0,
        between(t, 0, rise),
    ensures
        trunc_div(t * run, rise) == if run < 0 {
            -((abs(t) * abs(run)) as int / abs(rise) as int)
        } else {
            (abs(t) * abs(run)) as int / abs(rise) as int
        },
        0 <= (abs(t) * abs(run)) as int / abs(rise) as int <= abs(run),
{
    let ut = abs(t) as int;
    let urun = abs(run) as int;
    let urise = abs(rise) as int;
    assert(abs(t * run) == ut * urun) by (nonlinear_arith)
        requires
            ut == abs(t),
            urun == abs(run),
    ;
    assert(ut * urun <= urise * urun) by (nonlinear_arith)
        requires
            0 <= ut <= urise,
            0 <= urun,
    ;
    assert(0 <= ut * urun) by (nonlinear_arith)
        requires
            0 <= ut,
            0 <= urun,
    ;
    lemma_div_is_ordered(ut * urun, urise * urun, urise);
    lemma_div_multiples_vanish(urun, urise);
    lemma_div_pos_is_pos(ut * urun, urise);
    if ut * urun == 0 {
        assert(t * run == 0) by (nonlinear_arith)
            requires
                abs(t * run) == 0,
        ;
    } else {
        assert((t * run < 0) == ((t < 0) != (run < 0))) by (nonlinear_arith)
            requires
                t != 0,
                run != 0,
        ;
        assert(t != 0 && run != 0) by (nonlinear_arith)
            requires
                ut * urun != 0,
                ut == abs(t),
                urun == abs(run),
        ;
    }
}

/// The magnitude of the difference of two 32-bit integers.
fn distance(a: i32, b: i32) -> (d: u64)
    ensures
        d == abs(b - a),
        d <= 0xFFFF_FFFF,
{
    if a <= b {
        (b as i64 - a as i64) as u64
    } else {
        (a as i64 - b as i64) as u64
    }
}

/// Computes [`intercept`] for a height between the two end points of a
/// segment that is not horizontal.
pub fn interpolate(ax: i32, ay: i32, bx: i32, by: i32, y: i32) -> (x: i32)
    requires
        ay != by,
        between(y as int, ay as int, by as int),
    ensures
        x == intercept((ax as int, ay as int), (bx as int, by as int), y as int),
        between(x as int, ax as int, bx as int),
{
    let ut: u64 = distance(ay, y);
    let urun: u64 = distance(ax, bx);
    let urise: u64 = distance(ay, by);
    proof {
        lemma_intercept_formula(y - ay, bx - ax, by - ay);
        assert(ut * urun <= 0xFFFF_FFFF * 0xFFFF_FFFF) by (nonlinear_arith)
            requires
                ut <= 0xFFFF_FFFF,
                urun <= 0xFFFF_FFFF,
        ;
    }
    let q: u64 = (ut * urun) / urise;
    if bx < ax {
        (ax as i64 - q as i64) as i32
    } else {
        (ax as i64 + q as i64) as i32
    }
}

} // verus!
