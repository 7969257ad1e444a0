use crate::arith::intercept;
use crate::arith::interpolate;
use crate::color::Color;
use crate::image::Image;
use crate::image::lemma_painted_nothing;
use crate::image::lemma_painted_union;
use crate::line::draw_line_bresenham;
use crate::line::line_pixels;
use vstd::prelude::*;

verus! {

/// Vertex `i` of a polygon, as a point of the integer plane.
pub open spec fn vertex(polygon: Seq<(i32, i32)>, i: int) -> (int, int) {
    (polygon[i].0 as int, polygon[i].1 as int)
}

/// The vertex that follows vertex `i`; the last one is followed by the first.
pub open spec fn successor(polygon: Seq<(i32, i32)>, i: int) -> (int, int) {
    vertex(polygon, (i + 1) % (polygon.len() as int))
}

/// The vertex that precedes vertex `i`; the first one is preceded by the
/// last.
pub open spec fn predecessor(polygon: Seq<(i32, i32)>, i: int) -> (int, int) {
    vertex(
        polygon,
        if i == 0 {
            polygon.len() - 1
        } else {
            i - 1
        },
    )
}

/// The pixels of the first `count` edges of a polygon, edge `i` being the
/// line from vertex `i` to its successor.
pub open spec fn outline_prefix(polygon: Seq<(i32, i32)>, count: int) -> Set<(int, int)> {
    Set::new(
        |p: (int, int)|
            exists|i: int|
                0 <= i < count && #[trigger] line_pixels(
                    vertex(polygon, i),
                    successor(polygon, i),
                ).contains(p),
    )
}

/// The pixels of the closed boundary of a polygon.
pub open spec fn outline(polygon: Seq<(i32, i32)>) -> Set<(int, int)> {
    outline_prefix(polygon, polygon.len() as int)
}

/// Draws the closed boundary of a polygon: a line from every vertex to the
/// next, and from the last back to the first.
pub fn draw_polygon_edges(image: &mut Image, points: &[(i32, i32)], color: Color)
    ensures
        final(image)@ == old(image)@.painted(outline(points@), color),
{
    let n: usize = points.len();
    let mut i: usize = 0;
    proof {
        lemma_painted_nothing(old(image)@, outline_prefix(points@, 0), color);
    }
    while i < n
        invariant
            n == points@.len(),
            0 <= i <= n,
            image@ == old(image)@.painted(outline_prefix(points@, i as int), color),
        decreases n - i,
    {
        let (x0, y0) = points[i];
        let (x1, y1) = points[(i + 1) % n];
        draw_line_bresenham(image, x0, y0, x1, y1, color);
        proof {
            let edge = line_pixels(vertex(points@, i as int), successor(points@, i as int));
            lemma_painted_union(old(image)@, outline_prefix(points@, i as int), edge, color);
            assert(outline_prefix(points@, i as int).union(edge) =~= outline_prefix(
                points@,
                i + 1,
            )) by {
                assert forall|p: (int, int)|
                    outline_prefix(points@, i + 1).contains(p) implies outline_prefix(
                    points@,
                    i as int,
                ).union(edge).contains(p) by {
                    let j = choose|j: int|
                        0 <= j < i + 1 && #[trigger] line_pixels(
                            vertex(points@, j),
                            successor(points@, j),
                        ).contains(p);
                    if j < i {
                        assert(outline_prefix(points@, i as int).contains(p));
                    }
                }
            }
        }
        i = i + 1;
    }
}

/// Whether the edge from `b` to `a` crosses the horizontal ray that starts
/// at `p` and runs toward larger x: the two ends lie on different sides of
/// the ray's height (an end exactly at that height counts as below), and
/// the edge meets that height to the right of `p`. The meeting point is
/// interpolated from `a` with its quotient rounded toward zero, so a point
/// less than one pixel left of an edge may be counted as right of it.
pub open spec fn edge_crosses(p: (int, int), a: (int, int), b: (int, int)) -> bool {
    (a.1 > p.1) != (b.1 > p.1) && p.0 < intercept(a, b, p.1)
}

/// The number of edges among the first `count` that cross the ray from `p`,
/// edge `i` being the one that arrives at vertex `i` from its predecessor.
pub open spec fn crossings(p: (int, int), polygon: Seq<(i32, i32)>, count: int) -> int
    decreases count,
{
    if count <= 0 {
        0
    } else {
        crossings(p, polygon, count - 1) + if edge_crosses(
            p,
            vertex(polygon, count - 1),
            predecessor(polygon, count - 1),
        ) {
            1int
        } else {
            0int
        }
    }
}

/// The even-odd rule: a point is inside a polygon of at least three
/// vertices when the ray from it crosses the boundary an odd number of
/// times. Anything with fewer vertices contains no point.
pub open spec fn contains_point(p: (int, int), polygon: Seq<(i32, i32)>) -> bool {
    polygon.len() >= 3 && crossings(p, polygon, polygon.len() as int) % 2 == 1
}

/// Tests whether `point` lies inside `polygon` by casting a ray toward
/// larger x and counting the edges it crosses.
pub fn point_in_polygon(point: (i32, i32), polygon: &[(i32, i32)]) -> (inside: bool)
    ensures
        inside == contains_point((point.0 as int, point.1 as int), polygon@),
{
    let (x, y) = point;
    let n: usize = polygon.len();
    if n < 3 {
        return false;
    }
    let ghost p = (x as int, y as int);
    let mut inside: bool = false;
    let mut j: usize = n - 1;
    let mut i: usize = 0;
    while i < n
        invariant
            n == polygon@.len(),
            n >= 3,
            0 <= i <= n,
            p == (x as int, y as int),
            j == if i == 0 { n - 1 } else { i - 1 },
            inside == (crossings(p, polygon@, i as int) % 2 == 1),
        decreases n - i,
    {
        let (xi, yi) = polygon[i];
        let (xj, yj) = polygon[j];
        if yi != yj && ((yi > y) != (yj > y)) {
            let hit: i32 = interpolate(xi, yi, xj, yj, y);
            if x < hit {
                inside = !inside;
            }
        }
        j = i;
        i = i + 1;
    }
    inside
}

} // verus!
