use crate::arith::intercept;
use crate::arith::interpolate;
use crate::color::Color;
use crate::image::Image;
use crate::image::lemma_painted_nothing;
use crate::image::lemma_painted_union;
use crate::image::Raster;
use crate::polygon::contains_point;
use crate::polygon::draw_polygon_edges;
use crate::polygon::outline;
use crate::polygon::point_in_polygon;
use crate::polygon::successor;
use crate::polygon::vertex;
use crate::sort::ascending;
use crate::sort::ints;
use crate::sort::lemma_sort_len;
use crate::sort::sort_ascending;
use vstd::prelude::*;

verus! {

/// Whether the edge from `a` to `b` meets scanline `y`: one end lies at or
/// above the line and the other strictly below it. The lower end of an edge
/// thus belongs to it and the upper end does not, and a horizontal edge
/// meets no scanline.
pub open spec fn edge_meets_row(a: (int, int), b: (int, int), y: int) -> bool {
    (a.1 <= y < b.1) || (b.1 <= y < a.1)
}

/// The x-coordinates at which the first `count` edges of a polygon meet
/// scanline `y`, in the order of the edges.
pub open spec fn row_crossings(polygon: Seq<(i32, i32)>, y: int, count: int) -> Seq<int>
    decreases count,
{
    if count <= 0 {
        Seq::empty()
    } else {
        let rest = row_crossings(polygon, y, count - 1);
        let a = vertex(polygon, count - 1);
        let b = successor(polygon, count - 1);
        if edge_meets_row(a, b, y) {
            rest.push(intercept(a, b, y))
        } else {
            rest
        }
    }
}

/// The x-coordinates at which the boundary of a polygon meets scanline `y`,
/// in ascending order.
pub open spec fn sorted_crossings(polygon: Seq<(i32, i32)>, y: int) -> Seq<int> {
    row_crossings(polygon, y, polygon.len() as int).sort_by(ascending())
}

/// The first pixel of span `j` of scanline `y`: crossing `2 * j`, moved to
/// the left edge of the buffer where it lies beyond it.
pub open spec fn span_start(polygon: Seq<(i32, i32)>, y: int, j: int) -> int {
    let x = sorted_crossings(polygon, y)[2 * j];
    if x < 0 {
        0
    } else {
        x
    }
}

/// The last pixel of span `j` of scanline `y`: crossing `2 * j + 1`, moved
/// to the right edge of a buffer of the given width where it lies beyond it.
pub open spec fn span_end(polygon: Seq<(i32, i32)>, width: int, y: int, j: int) -> int {
    let x = sorted_crossings(polygon, y)[2 * j + 1];
    if x > width - 1 {
        width - 1
    } else {
        x
    }
}

/// Whether a point lies inside at least one of the holes.
pub open spec fn in_some_hole(p: (int, int), holes: Seq<Seq<(i32, i32)>>) -> bool {
    exists|h: int| 0 <= h < holes.len() && contains_point(p, #[trigger] holes[h])
}

/// Whether span `j` of scanline `y` is painted: the crossings pair up to
/// give it both ends, it is not empty after clamping to the buffer, and its
/// midpoint lies in no hole. A crossing left without a partner at the end
/// of an odd row gives no span.
pub open spec fn span_filled(
    polygon: Seq<(i32, i32)>,
    holes: Seq<Seq<(i32, i32)>>,
    width: int,
    y: int,
    j: int,
) -> bool {
    let start = span_start(polygon, y, j);
    let end = span_end(polygon, width, y, j);
    &&& 0 <= j
    &&& 2 * j + 1 < sorted_crossings(polygon, y).len()
    &&& start <= end
    &&& !in_some_hole((start + (end - start) / 2, y), holes)
}

/// Whether pixel `p` belongs to span `j` of its scanline and that span is
/// painted.
pub open spec fn span_covers(
    polygon: Seq<(i32, i32)>,
    holes: Seq<Seq<(i32, i32)>>,
    width: int,
    p: (int, int),
    j: int,
) -> bool {
    &&& span_filled(polygon, holes, width, p.1, j)
    &&& span_start(polygon, p.1, j) <= p.0 <= span_end(polygon, width, p.1, j)
}

/// The pixels of scanline `y` that belong to one of its first `count`
/// spans, where that span is painted.
spec fn row_interior(
    polygon: Seq<(i32, i32)>,
    holes: Seq<Seq<(i32, i32)>>,
    width: int,
    y: int,
    count: int,
) -> Set<(int, int)> {
    Set::new(
        |p: (int, int)|
            p.1 == y && exists|j: int|
                j < count && #[trigger] span_covers(polygon, holes, width, p, j),
    )
}

/// The pixels that a scanline fill of a polygon paints in a buffer of the
/// given width: on every scanline, the painted spans between consecutive
/// pairs of boundary crossings.
pub open spec fn interior(
    polygon: Seq<(i32, i32)>,
    holes: Seq<Seq<(i32, i32)>>,
    width: int,
) -> Set<(int, int)> {
    Set::new(|p: (int, int)| exists|j: int| #[trigger] span_covers(polygon, holes, width, p, j))
}

/// A raster after a polygon has been filled into it: first the outline in
/// the border color, then the interior in the fill color on top.
pub open spec fn filled(
    r: Raster,
    polygon: Seq<(i32, i32)>,
    fill_color: Color,
    border_color: Color,
    holes: Seq<Seq<(i32, i32)>>,
) -> Raster {
    r.painted(outline(polygon), border_color).painted(
        interior(polygon, holes, r.width),
        fill_color,
    )
}

/// The hole polygons behind a slice of borrowed slices.
pub open spec fn hole_views(holes: Seq<&[(i32, i32)]>) -> Seq<Seq<(i32, i32)>> {
    Seq::new(holes.len(), |h: int| holes[h]@)
}

/// The pixels from `(start, y)` to `(end, y)`, both included.
spec fn span_pixels(start: int, end: int, y: int) -> Set<(int, int)> {
    Set::new(|p: (int, int)| p.1 == y && start <= p.0 <= end)
}

/// Filling is idempotent: a second fill of the same polygon in the same
/// colors, with the same holes, changes nothing.
pub proof fn lemma_fill_idempotent(
    r: Raster,
    polygon: Seq<(i32, i32)>,
    fill_color: Color,
    border_color: Color,
    holes: Seq<Seq<(i32, i32)>>,
)
    ensures
        filled(filled(r, polygon, fill_color, border_color, holes), polygon, fill_color,
            border_color, holes) == filled(r, polygon, fill_color, border_color, holes),
{
    let once = filled(r, polygon, fill_color, border_color, holes);
    let twice = filled(once, polygon, fill_color, border_color, holes);
    assert(twice.pixels =~= once.pixels);
}

/// Filling stays within the buffer: the raster keeps its dimensions and
/// holds a color for the same pixels as before, and every pixel that
/// belongs neither to the outline nor to the interior keeps its color.
pub proof fn lemma_fill_within_bounds(
    r: Raster,
    polygon: Seq<(i32, i32)>,
    fill_color: Color,
    border_color: Color,
    holes: Seq<Seq<(i32, i32)>>,
)
    requires
        r.wf(),
    ensures
        filled(r, polygon, fill_color, border_color, holes).wf(),
        filled(r, polygon, fill_color, border_color, holes).width == r.width,
        filled(r, polygon, fill_color, border_color, holes).height == r.height,
        forall|p: (int, int)|
            r.in_bounds(p) && !outline(polygon).contains(p) && !interior(
                polygon,
                holes,
                r.width,
            ).contains(p) ==> #[trigger] filled(
                r,
                polygon,
                fill_color,
                border_color,
                holes,
            ).pixels[p] == r.pixels[p],
{
    let after = filled(r, polygon, fill_color, border_color, holes);
    assert forall|p: (int, int)| after.pixels.dom().contains(p) <==> after.in_bounds(p) by {
        assert(r.pixels.dom().contains(p) <==> r.in_bounds(p));
    }
}

/// A scanline that no edge meets has no crossings.
proof fn lemma_no_crossings(polygon: Seq<(i32, i32)>, y: int, count: int)
    requires
        0 <= count <= polygon.len(),
        forall|i: int|
            0 <= i < polygon.len() ==> !edge_meets_row(
                #[trigger] vertex(polygon, i),
                successor(polygon, i),
                y,
            ),
    ensures
        row_crossings(polygon, y, count).len() == 0,
    decreases count,
{
    if count > 0 {
        lemma_no_crossings(polygon, y, count - 1);
        assert(!edge_meets_row(vertex(polygon, count - 1), successor(polygon, count - 1), y));
    }
}

/// A scanline above or below every vertex of a polygon has no spans.
proof fn lemma_rows_outside_extent(
    polygon: Seq<(i32, i32)>,
    holes: Seq<Seq<(i32, i32)>>,
    width: int,
    lowest: int,
    highest: int,
    p: (int, int),
    j: int,
)
    requires
        forall|i: int| 0 <= i < polygon.len() ==> lowest <= (#[trigger] polygon[i]).1 <= highest,
        span_covers(polygon, holes, width, p, j),
    ensures
        lowest <= p.1 <= highest,
{
    let n = polygon.len() as int;
    if !(lowest <= p.1 <= highest) {
        assert forall|i: int| 0 <= i < n implies !edge_meets_row(
            #[trigger] vertex(polygon, i),
            successor(polygon, i),
            p.1,
        ) by {
            let k = (i + 1) % n;
            assert(0 <= k < n);
            assert(lowest <= polygon[i].1 <= highest);
            assert(lowest <= polygon[k].1 <= highest);
        }
        lemma_no_crossings(polygon, p.1, n);
        lemma_sort_len(row_crossings(polygon, p.1, n));
    }
}

/// Finds the smallest and the largest y-coordinate among the vertices of a
/// polygon that has at least one.
fn vertical_extent(points: &[(i32, i32)]) -> (extent: (i32, i32))
    requires
        points@.len() > 0,
    ensures
        forall|i: int| 0 <= i < points@.len() ==> extent.0 <= (#[trigger] points@[i]).1 <= extent.1,
        exists|i: int| 0 <= i < points@.len() && (#[trigger] points@[i]).1 == extent.0,
        exists|i: int| 0 <= i < points@.len() && (#[trigger] points@[i]).1 == extent.1,
{
    let n: usize = points.len();
    let mut lowest: i32 = points[0].1;
    let mut highest: i32 = points[0].1;
    let ghost mut at_lowest: int = 0;
    let ghost mut at_highest: int = 0;
    let mut i: usize = 1;
    while i < n
        invariant
            n == points@.len(),
            1 <= i <= n,
            0 <= at_lowest < i,
            0 <= at_highest < i,
            points@[at_lowest].1 == lowest,
            points@[at_highest].1 == highest,
            forall|k: int| 0 <= k < i ==> lowest <= (#[trigger] points@[k]).1 <= highest,
        decreases n - i,
    {
        let y: i32 = points[i].1;
        if y < lowest {
            lowest = y;
            proof {
                at_lowest = i as int;
            }
        }
        if y > highest {
            highest = y;
            proof {
                at_highest = i as int;
            }
        }
        i = i + 1;
    }
    (lowest, highest)
}

/// Collects the x-coordinates at which the edges of a polygon meet scanline
/// `y`, in the order of the edges.
fn row_intersections(points: &[(i32, i32)], y: i32) -> (xs: Vec<i32>)
    ensures
        ints(xs@) == row_crossings(points@, y as int, points@.len() as int),
{
    let n: usize = points.len();
    let mut xs: Vec<i32> = Vec::new();
    let mut i: usize = 0;
    assert(ints(xs@) =~= row_crossings(points@, y as int, 0));
    while i < n
        invariant
            n == points@.len(),
            0 <= i <= n,
            ints(xs@) == row_crossings(points@, y as int, i as int),
        decreases n - i,
    {
        let (x0, y0) = points[i];
        let (x1, y1) = points[(i + 1) % n];
        let ghost before = xs@;
        if y0 != y1 && ((y0 <= y && y1 > y) || (y1 <= y && y0 > y)) {
            let x: i32 = interpolate(x0, y0, x1, y1, y);
            xs.push(x);
            assert(ints(xs@) =~= ints(before).push(x as int));
        }
        i = i + 1;
    }
    xs
}

/// Tests a point against every hole in turn.
fn in_any_hole(point: (i32, i32), holes: &[&[(i32, i32)]]) -> (found: bool)
    ensures
        found == in_some_hole((point.0 as int, point.1 as int), hole_views(holes@)),
{
    let ghost p = (point.0 as int, point.1 as int);
    let n: usize = holes.len();
    let mut h: usize = 0;
    while h < n
        invariant
            n == holes@.len(),
            0 <= h <= n,
            p == (point.0 as int, point.1 as int),
            forall|k: int| 0 <= k < h ==> !contains_point(p, #[trigger] hole_views(holes@)[k]),
        decreases n - h,
    {
        if point_in_polygon(point, holes[h]) {
            assert(contains_point(p, hole_views(holes@)[h as int]));
            return true;
        }
        h = h + 1;
    }
    false
}

/// Paints the pixels from `(start, y)` to `(end, y)`, both included.
fn paint_span(image: &mut Image, start: i32, end: i32, y: i32, color: Color)
    requires
        end < i32::MAX,
    ensures
        final(image)@ == old(image)@.painted(span_pixels(start as int, end as int, y as int), color),
{
    let mut x: i32 = start;
    proof {
        lemma_painted_nothing(old(image)@, span_pixels(start as int, start - 1, y as int), color);
    }
    while x <= end
        invariant
            end < i32::MAX,
            start <= x,
            x <= end + 1 || x == start,
            image@ == old(image)@.painted(span_pixels(start as int, x - 1, y as int), color),
        decreases end + 1 - x,
    {
        image.draw_pixel(x, y, color);
        proof {
            lemma_painted_union(
                old(image)@,
                span_pixels(start as int, x - 1, y as int),
                set![(x as int, y as int)],
                color,
            );
            assert(span_pixels(start as int, x - 1, y as int).union(set![(x as int, y as int)])
                =~= span_pixels(start as int, x as int, y as int));
        }
        x = x + 1;
    }
    proof {
        assert(span_pixels(start as int, x - 1, y as int) =~= span_pixels(
            start as int,
            end as int,
            y as int,
        ));
    }
}

/// Fills one scanline: pairs up the sorted crossings and paints every span
/// whose midpoint lies in no hole.
fn fill_row(
    image: &mut Image,
    points: &[(i32, i32)],
    y: i32,
    fill_color: Color,
    holes: &[&[(i32, i32)]],
)
    ensures
        final(image)@ == old(image)@.painted(
            row_interior(
                points@,
                hole_views(holes@),
                old(image)@.width,
                y as int,
                sorted_crossings(points@, y as int).len() as int,
            ),
            fill_color,
        ),
{
    let crossings: Vec<i32> = row_intersections(points, y);
    let xs: Vec<i32> = sort_ascending(&crossings);
    let width: i32 = image.width();
    let pairs: usize = xs.len() / 2;
    let ghost polygon = points@;
    let ghost hs = hole_views(holes@);
    let ghost w = width as int;
    proof {
        assert forall|p: (int, int)| !row_interior(polygon, hs, w, y as int, 0).contains(p) by {
            if row_interior(polygon, hs, w, y as int, 0).contains(p) {
                let i = choose|i: int| i < 0 && #[trigger] span_covers(polygon, hs, w, p, i);
            }
        }
        lemma_painted_nothing(old(image)@, row_interior(polygon, hs, w, y as int, 0), fill_color);
    }
    let mut j: usize = 0;
    while j < pairs
        invariant
            pairs == xs@.len() / 2,
            xs@.len() <= usize::MAX,
            0 <= j <= pairs,
            polygon == points@,
            hs == hole_views(holes@),
            w == old(image)@.width,
            w == width,
            0 <= w,
            ints(xs@) == sorted_crossings(polygon, y as int),
            image@ == old(image)@.painted(row_interior(polygon, hs, w, y as int, j as int), fill_color),
        decreases pairs - j,
    {
        assert(2 * j + 1 < xs@.len());
        let first: i32 = xs[2 * j];
        let second: i32 = xs[2 * j + 1];
        let x_start: i32 = if first < 0 {
            0
        } else {
            first
        };
        let x_end: i32 = if second > width - 1 {
            width - 1
        } else {
            second
        };
        let ghost span = span_pixels(x_start as int, x_end as int, y as int);
        let ghost before = row_interior(polygon, hs, w, y as int, j as int);
        let ghost after = row_interior(polygon, hs, w, y as int, j + 1);
        proof {
            assert(first == ints(xs@)[2 * j]);
            assert(second == ints(xs@)[2 * j + 1]);
            assert(x_start == span_start(polygon, y as int, j as int));
            assert(x_end == span_end(polygon, w, y as int, j as int));
        }
        let mut paint: bool = false;
        if x_start <= x_end {
            let mid: i32 = x_start + (x_end - x_start) / 2;
            paint = !in_any_hole((mid, y), holes);
        }
        proof {
            assert(paint == span_filled(polygon, hs, w, y as int, j as int));
            assert forall|p: (int, int)| after.contains(p) <==> before.contains(p) || (paint
                && span.contains(p)) by {
                if after.contains(p) {
                    let i = choose|i: int|
                        i < j + 1 && #[trigger] span_covers(polygon, hs, w, p, i);
                    if i < j {
                        assert(before.contains(p));
                    }
                }
                if before.contains(p) {
                    let i = choose|i: int| i < j && #[trigger] span_covers(polygon, hs, w, p, i);
                    assert(i < j + 1 && span_covers(polygon, hs, w, p, i));
                }
                if paint && span.contains(p) {
                    assert(span_covers(polygon, hs, w, p, j as int));
                }
            }
        }
        if paint {
            paint_span(image, x_start, x_end, y, fill_color);
            proof {
                lemma_painted_union(old(image)@, before, span, fill_color);
                assert(before.union(span) =~= after);
            }
        } else {
            proof {
                assert(before =~= after);
            }
        }
        j = j + 1;
    }
    proof {
        let total = sorted_crossings(polygon, y as int).len() as int;
        assert(row_interior(polygon, hs, w, y as int, pairs as int) =~= row_interior(
            polygon,
            hs,
            w,
            y as int,
            total,
        )) by {
            assert forall|p: (int, int)|
                row_interior(polygon, hs, w, y as int, total).contains(p) implies row_interior(
                polygon,
                hs,
                w,
                y as int,
                pairs as int,
            ).contains(p) by {
                let i = choose|i: int| i < total && #[trigger] span_covers(polygon, hs, w, p, i);
                assert(i < pairs);
            }
            assert forall|p: (int, int)|
                row_interior(polygon, hs, w, y as int, pairs as int).contains(
                    p,
                ) implies row_interior(polygon, hs, w, y as int, total).contains(p) by {
                let i = choose|i: int|
                    i < pairs && #[trigger] span_covers(polygon, hs, w, p, i);
                assert(i < total);
            }
        }
    }
}

/// The pixels of the scanlines from `from` up to, not including, `to` that
/// a scanline fill paints.
spec fn rows_interior(
    polygon: Seq<(i32, i32)>,
    holes: Seq<Seq<(i32, i32)>>,
    width: int,
    from: int,
    to: int,
) -> Set<(int, int)> {
    Set::new(|p: (int, int)| from <= p.1 < to && interior(polygon, holes, width).contains(p))
}

/// Fills a polygon: draws its outline in `border_color`, then paints its
/// interior in `fill_color`, scanline by scanline, leaving out every span
/// whose midpoint lies inside one of the `holes`. Whatever lies outside the
/// image is dropped. A polygon without vertices paints nothing.
pub fn fill_polygon(
    image: &mut Image,
    points: &[(i32, i32)],
    fill_color: Color,
    border_color: Color,
    holes: &[&[(i32, i32)]],
)
    ensures
        final(image)@ == filled(
            old(image)@,
            points@,
            fill_color,
            border_color,
            hole_views(holes@),
        ),
{
    draw_polygon_edges(image, points, border_color);
    let ghost polygon = points@;
    let ghost hs = hole_views(holes@);
    let ghost base = image@;
    let width: i32 = image.width();
    let height: i32 = image.height();
    let ghost w = width as int;
    if points.len() == 0 {
        proof {
            assert forall|p: (int, int)| !interior(polygon, hs, w).contains(p) by {
                lemma_sort_len(row_crossings(polygon, p.1, 0));
            }
            lemma_painted_nothing(base, interior(polygon, hs, w), fill_color);
        }
        return ;
    }
    let (lowest, highest) = vertical_extent(points);
    let first_row: i32 = if lowest < 0 {
        0
    } else {
        lowest
    };
    let last_row: i32 = if highest > height - 1 {
        height - 1
    } else {
        highest
    };
    let mut y: i32 = first_row;
    proof {
        lemma_painted_nothing(
            base,
            rows_interior(polygon, hs, w, first_row as int, first_row as int),
            fill_color,
        );
    }
    while y <= last_row
        invariant
            polygon == points@,
            hs == hole_views(holes@),
            base.wf(),
            base.width == w,
            base.height == height,
            first_row == if lowest < 0 { 0 } else { lowest as int },
            last_row == if highest > height - 1 { height - 1 } else { highest as int },
            forall|i: int|
                0 <= i < polygon.len() ==> lowest <= (#[trigger] polygon[i]).1 <= highest,
            first_row <= y,
            y <= last_row + 1 || y == first_row,
            image@ == base.painted(
                rows_interior(polygon, hs, w, first_row as int, y as int),
                fill_color,
            ),
        decreases last_row + 1 - y,
    {
        fill_row(image, points, y, fill_color, holes);
        proof {
            let total = sorted_crossings(polygon, y as int).len() as int;
            let row = row_interior(polygon, hs, w, y as int, total);
            let before = rows_interior(polygon, hs, w, first_row as int, y as int);
            lemma_painted_union(base, before, row, fill_color);
            assert(before.union(row) =~= rows_interior(polygon, hs, w, first_row as int, y + 1))
                by {
                assert forall|p: (int, int)|
                    rows_interior(polygon, hs, w, first_row as int, y + 1).contains(
                        p,
                    ) implies before.union(row).contains(p) by {
                    if p.1 == y {
                        let j = choose|j: int| #[trigger] span_covers(polygon, hs, w, p, j);
                        assert(j < total);
                    }
                }
                assert forall|p: (int, int)| before.union(row).contains(p) implies rows_interior(
                    polygon,
                    hs,
                    w,
                    first_row as int,
                    y + 1,
                ).contains(p) by {
                    if row.contains(p) {
                        let j = choose|j: int|
                            j < total && #[trigger] span_covers(polygon, hs, w, p, j);
                        assert(span_covers(polygon, hs, w, p, j));
                    }
                }
            }
        }
        y = y + 1;
    }
    proof {
        let done = rows_interior(polygon, hs, w, first_row as int, y as int);
        let goal = interior(polygon, hs, w);
        assert forall|p: (int, int)| base.pixels.dom().contains(p) implies (done.contains(p)
            <==> goal.contains(p)) by {
            if goal.contains(p) {
                let j = choose|j: int| #[trigger] span_covers(polygon, hs, w, p, j);
                lemma_rows_outside_extent(polygon, hs, w, lowest as int, highest as int, p, j);
                assert(base.in_bounds(p));
            }
        }
        assert(base.painted(done, fill_color).pixels =~= base.painted(goal, fill_color).pixels);
    }
}

} // verus!
