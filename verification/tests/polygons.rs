use scanfill::draw_polygon_edges;
use scanfill::fill_polygon;
use scanfill::point_in_polygon;
use scanfill::Color;
use scanfill::Image;

const WHITE: Color = Color { r: 255, g: 255, b: 255, a: 255 };
const BLUE: Color = Color { r: 0, g: 121, b: 241, a: 255 };
const BLACK: Color = Color { r: 0, g: 0, b: 0, a: 255 };

fn count(image: &Image, color: Color) -> usize {
    let mut n = 0;
    for y in 0..image.height() {
        for x in 0..image.width() {
            if image.get_color(x, y) == Some(color) {
                n += 1;
            }
        }
    }
    n
}

#[test]
fn edges_form_a_closed_loop() {
    let mut image = Image::gen_image_color(6, 6, WHITE);
    let square = [(1, 1), (4, 1), (4, 4), (1, 4)];
    draw_polygon_edges(&mut image, &square, BLACK);
    for y in 0..6 {
        for x in 0..6 {
            let on_edge = (1..=4).contains(&x)
                && (1..=4).contains(&y)
                && (x == 1 || x == 4 || y == 1 || y == 4);
            let expected = if on_edge { BLACK } else { WHITE };
            assert_eq!(image.get_color(x, y), Some(expected));
        }
    }
}

#[test]
fn edges_of_nothing_draw_nothing() {
    let mut image = Image::gen_image_color(4, 4, WHITE);
    draw_polygon_edges(&mut image, &[], BLACK);
    assert_eq!(count(&image, WHITE), 16);
}

#[test]
fn edges_of_one_point_draw_one_pixel() {
    let mut image = Image::gen_image_color(4, 4, WHITE);
    draw_polygon_edges(&mut image, &[(2, 1)], BLACK);
    assert_eq!(count(&image, BLACK), 1);
    assert_eq!(image.get_color(2, 1), Some(BLACK));
}

#[test]
fn square_contains_its_inner_points() {
    let square = [(0, 0), (10, 0), (10, 10), (0, 10)];
    assert!(point_in_polygon((5, 5), &square));
    assert!(point_in_polygon((1, 1), &square));
    assert!(point_in_polygon((8, 9), &square));
    assert!(!point_in_polygon((-1, 5), &square));
    assert!(!point_in_polygon((11, 5), &square));
    assert!(!point_in_polygon((5, -1), &square));
    assert!(!point_in_polygon((5, 11), &square));
    assert!(!point_in_polygon((20, 20), &square));
}

#[test]
fn orientation_does_not_matter_for_a_square() {
    let square = [(0, 10), (10, 10), (10, 0), (0, 0)];
    assert!(point_in_polygon((5, 5), &square));
    assert!(!point_in_polygon((15, 5), &square));
    assert!(!point_in_polygon((-5, 5), &square));
}

#[test]
fn triangle_contains_its_centroid() {
    let triangle = [(0, 0), (12, 0), (6, 12)];
    assert!(point_in_polygon((6, 4), &triangle));
    assert!(!point_in_polygon((0, 12), &triangle));
    assert!(!point_in_polygon((12, 12), &triangle));
    assert!(!point_in_polygon((6, 13), &triangle));
}

#[test]
fn vertex_in_the_middle_of_a_side_changes_nothing() {
    let square = [(0, 0), (5, 0), (10, 0), (10, 4), (10, 10), (0, 10)];
    assert!(point_in_polygon((5, 5), &square));
    assert!(point_in_polygon((9, 4), &square));
    assert!(point_in_polygon((1, 9), &square));
    assert!(!point_in_polygon((11, 4), &square));
    assert!(!point_in_polygon((-1, 4), &square));
    assert!(!point_in_polygon((5, -1), &square));
}

#[test]
fn pentagon_contains_points_away_from_its_edges() {
    let pentagon = [(10, 0), (20, 8), (16, 20), (4, 20), (0, 8)];
    let reversed = [(0, 8), (4, 20), (16, 20), (20, 8), (10, 0)];
    for shape in [&pentagon, &reversed] {
        assert!(point_in_polygon((10, 10), shape));
        assert!(point_in_polygon((10, 1), shape));
        assert!(point_in_polygon((2, 9), shape));
        assert!(point_in_polygon((17, 9), shape));
        assert!(!point_in_polygon((0, 0), shape));
        assert!(!point_in_polygon((20, 0), shape));
        assert!(!point_in_polygon((25, 10), shape));
        assert!(!point_in_polygon((-5, 10), shape));
        assert!(!point_in_polygon((10, 21), shape));
        assert!(!point_in_polygon((10, -1), shape));
    }
}

#[test]
fn fewer_than_three_points_contain_nothing() {
    assert!(!point_in_polygon((0, 0), &[]));
    assert!(!point_in_polygon((0, 0), &[(0, 0)]));
    assert!(!point_in_polygon((1, 1), &[(0, 0), (2, 2)]));
    assert!(!point_in_polygon((1, 0), &[(0, -5), (5, 5)]));
}

#[test]
fn point_just_left_of_a_slanted_edge_may_be_missed() {
    let triangle = [(0, 0), (0, 6), (3, 6)];
    assert!(!point_in_polygon((1, 3), &triangle));
    assert!(point_in_polygon((1, 4), &triangle));
    let mirrored = [(3, 6), (0, 6), (0, 0)];
    assert!(point_in_polygon((1, 3), &mirrored));
}

#[test]
fn lower_end_of_an_edge_belongs_to_it() {
    let diamond = [(5, 0), (10, 5), (5, 10), (0, 5)];
    assert!(point_in_polygon((5, 5), &diamond));
    assert!(point_in_polygon((1, 5), &diamond));
    assert!(!point_in_polygon((-1, 5), &diamond));
    assert!(!point_in_polygon((5, 10), &diamond));
}

#[test]
fn containment_handles_extreme_coordinates() {
    let huge = [
        (i32::MIN, i32::MIN),
        (i32::MAX, i32::MIN),
        (i32::MAX, i32::MAX),
        (i32::MIN, i32::MAX),
    ];
    assert!(point_in_polygon((0, 0), &huge));
    assert!(point_in_polygon((i32::MIN, 0), &huge));
    assert!(!point_in_polygon((i32::MAX, 0), &huge));
    assert!(!point_in_polygon((0, i32::MAX), &huge));
    let slanted = [(i32::MIN, i32::MIN), (i32::MAX, i32::MAX), (i32::MIN, i32::MAX)];
    assert!(point_in_polygon((-5, 5), &slanted));
    assert!(!point_in_polygon((5, -5), &slanted));
}

#[test]
fn triangle_fill() {
    let mut image = Image::gen_image_color(20, 20, WHITE);
    let triangle = [(0, 0), (10, 0), (5, 10)];
    fill_polygon(&mut image, &triangle, BLUE, BLACK, &[]);
    assert_eq!(image.get_color(5, 5), Some(BLUE));
    let top = image.get_color(5, 0);
    assert!(top == Some(BLUE) || top == Some(BLACK));
    assert_eq!(image.get_color(1, 5), Some(WHITE));
    assert_eq!(image.get_color(9, 5), Some(WHITE));
    assert_eq!(image.get_color(5, 11), Some(WHITE));
    assert_eq!(image.get_color(15, 15), Some(WHITE));
}

#[test]
fn triangle_fill_row_by_row() {
    let mut image = Image::gen_image_color(12, 12, WHITE);
    let triangle = [(0, 0), (10, 0), (5, 10)];
    fill_polygon(&mut image, &triangle, BLUE, BLACK, &[]);
    let spans = [
        (0, 10),
        (1, 10),
        (1, 9),
        (2, 9),
        (2, 8),
        (3, 8),
        (3, 7),
        (4, 7),
        (4, 6),
        (5, 6),
    ];
    for (y, &(start, end)) in spans.iter().enumerate() {
        for x in 0..12 {
            let color = image.get_color(x, y as i32).unwrap();
            if start <= x && x <= end {
                assert_eq!(color, BLUE);
            } else {
                assert_ne!(color, BLUE);
            }
        }
    }
    assert_eq!(image.get_color(5, 10), Some(BLACK));
    assert_eq!(image.get_color(0, 1), Some(WHITE));
    assert_eq!(image.get_color(5, 11), Some(WHITE));
}

#[test]
fn hole_is_left_unfilled() {
    let mut image = Image::gen_image_color(20, 20, WHITE);
    let outer = [(0, 0), (19, 0), (19, 19), (0, 19)];
    let hole = [(7, 7), (13, 7), (13, 13), (7, 13)];
    fill_polygon(&mut image, &outer, BLUE, BLACK, &[&hole[..]]);
    assert_eq!(image.get_color(10, 10), Some(WHITE));
    assert_eq!(image.get_color(1, 1), Some(BLUE));
    assert_eq!(image.get_color(10, 2), Some(BLUE));
    assert_eq!(image.get_color(18, 17), Some(BLUE));
}

#[test]
fn hole_skips_the_whole_span_it_covers_the_middle_of() {
    let mut image = Image::gen_image_color(20, 20, WHITE);
    let outer = [(0, 0), (19, 0), (19, 19), (0, 19)];
    let hole = [(7, 7), (13, 7), (13, 13), (7, 13)];
    fill_polygon(&mut image, &outer, BLUE, BLACK, &[&hole[..]]);
    for y in 0..19 {
        let skipped = (7..13).contains(&y);
        for x in 1..19 {
            let expected = if skipped { WHITE } else { BLUE };
            assert_eq!(image.get_color(x, y), Some(expected));
        }
    }
    for y in 7..13 {
        assert_eq!(image.get_color(0, y), Some(BLACK));
        assert_eq!(image.get_color(19, y), Some(BLACK));
    }
    for x in 0..20 {
        assert_eq!(image.get_color(x, 19), Some(BLACK));
    }
}

#[test]
fn any_of_several_holes_excludes_a_span() {
    let outer = [(0, 0), (19, 0), (19, 19), (0, 19)];
    let off_center = [(1, 2), (4, 2), (4, 5), (1, 5)];
    let centered = [(7, 10), (13, 10), (13, 13), (7, 13)];
    let mut image = Image::gen_image_color(20, 20, WHITE);
    fill_polygon(
        &mut image,
        &outer,
        BLUE,
        BLACK,
        &[&off_center[..], &centered[..]],
    );
    assert_eq!(image.get_color(2, 3), Some(BLUE));
    assert_eq!(image.get_color(10, 3), Some(BLUE));
    assert_eq!(image.get_color(10, 11), Some(WHITE));
    assert_eq!(image.get_color(2, 11), Some(WHITE));
    assert_eq!(image.get_color(10, 13), Some(BLUE));
}

#[test]
fn two_point_polygon_changes_no_interior_pixel() {
    let mut image = Image::gen_image_color(12, 8, WHITE);
    fill_polygon(&mut image, &[(2, 3), (9, 3)], BLUE, BLACK, &[]);
    for y in 0..8 {
        for x in 0..12 {
            let on_line = y == 3 && (2..=9).contains(&x);
            let expected = if on_line { BLACK } else { WHITE };
            assert_eq!(image.get_color(x, y), Some(expected));
        }
    }
}

#[test]
fn slanted_two_point_polygon_stays_on_its_line() {
    let mut image = Image::gen_image_color(6, 4, WHITE);
    fill_polygon(&mut image, &[(0, 0), (3, 2)], BLUE, BLACK, &[]);
    assert_eq!(image.get_color(0, 0), Some(BLUE));
    assert_eq!(image.get_color(1, 1), Some(BLUE));
    assert_eq!(image.get_color(2, 1), Some(BLUE));
    assert_eq!(image.get_color(3, 2), Some(BLACK));
    assert_eq!(count(&image, WHITE), 20);
}

#[test]
fn empty_and_single_point_polygons() {
    let mut image = Image::gen_image_color(5, 5, WHITE);
    let untouched = image.clone();
    fill_polygon(&mut image, &[], BLUE, BLACK, &[]);
    assert_eq!(image, untouched);
    fill_polygon(&mut image, &[(2, 2)], BLUE, BLACK, &[]);
    assert_eq!(image.get_color(2, 2), Some(BLACK));
    assert_eq!(count(&image, WHITE), 24);
    assert_eq!(count(&image, BLUE), 0);
}

#[test]
fn polygon_larger_than_the_image_is_clamped() {
    let mut image = Image::gen_image_color(20, 20, WHITE);
    let outer = [(-5, -5), (30, -5), (30, 30), (-5, 30)];
    fill_polygon(&mut image, &outer, BLUE, BLACK, &[]);
    assert_eq!(image.width(), 20);
    assert_eq!(image.height(), 20);
    assert_eq!(count(&image, BLUE), 400);
}

#[test]
fn polygon_partly_outside_paints_only_what_is_inside() {
    let mut image = Image::gen_image_color(10, 10, WHITE);
    let outer = [(5, -4), (14, 5), (5, 14), (-4, 5)];
    fill_polygon(&mut image, &outer, BLUE, BLACK, &[]);
    assert_eq!(image.get_color(5, 5), Some(BLUE));
    assert_eq!(image.get_color(0, 5), Some(BLUE));
    assert_eq!(image.get_color(9, 5), Some(BLUE));
    assert_eq!(image.get_color(0, 0), Some(WHITE));
    assert_eq!(image.get_color(9, 9), Some(BLUE));
    assert_eq!(image.get_color(10, 5), None);
}

#[test]
fn polygon_entirely_outside_paints_nothing() {
    let mut image = Image::gen_image_color(10, 10, WHITE);
    let untouched = image.clone();
    let far = [(100, 100), (140, 100), (120, 130)];
    fill_polygon(&mut image, &far, BLUE, BLACK, &[]);
    assert_eq!(image, untouched);
    let above = [(2, -30), (8, -30), (5, -10)];
    fill_polygon(&mut image, &above, BLUE, BLACK, &[]);
    assert_eq!(image, untouched);
}

#[test]
fn fill_on_an_empty_image_does_nothing() {
    let mut image = Image::gen_image_color(0, 0, WHITE);
    fill_polygon(&mut image, &[(0, 0), (5, 0), (5, 5)], BLUE, BLACK, &[]);
    assert_eq!(image.width(), 0);
    assert_eq!(image.height(), 0);
}

#[test]
fn filling_twice_equals_filling_once() {
    let shapes: [&[(i32, i32)]; 4] = [
        &[(0, 0), (10, 0), (5, 10)],
        &[(321 - 280, 335 - 250), (288 - 280, 286 - 250), (339 - 280, 251 - 250), (374 - 280, 302 - 250)],
        &[(2, 2), (17, 4), (9, 9), (16, 17), (3, 15)],
        &[(-3, 4), (25, 8)],
    ];
    let hole = [(8, 3), (12, 3), (12, 7), (8, 7)];
    for shape in shapes {
        let mut once = Image::gen_image_color(100, 100, WHITE);
        fill_polygon(&mut once, shape, BLUE, BLACK, &[&hole[..]]);
        let mut twice = once.clone();
        fill_polygon(&mut twice, shape, BLUE, BLACK, &[&hole[..]]);
        assert_eq!(once, twice);
    }
}

#[test]
fn concave_polygon_fills_by_the_even_odd_rule() {
    let mut image = Image::gen_image_color(12, 8, WHITE);
    let notch = [(0, 0), (10, 0), (10, 6), (5, 2), (0, 6)];
    fill_polygon(&mut image, &notch, BLUE, BLUE, &[]);
    assert_eq!(image.get_color(1, 4), Some(BLUE));
    assert_eq!(image.get_color(9, 4), Some(BLUE));
    assert_eq!(image.get_color(5, 4), Some(WHITE));
    assert_eq!(image.get_color(5, 1), Some(BLUE));
}

#[test]
fn quadrilateral_from_the_demo_is_filled() {
    let mut image = Image::gen_image_color(800, 450, WHITE);
    let quad = [(321, 335), (288, 286), (339, 251), (374, 302)];
    fill_polygon(&mut image, &quad, BLUE, WHITE, &[]);
    assert_eq!(image.get_color(330, 295), Some(BLUE));
    assert_eq!(image.get_color(339, 252), Some(BLUE));
    assert_eq!(image.get_color(300, 260), Some(WHITE));
    assert_eq!(image.get_color(0, 0), Some(WHITE));
    assert_eq!(image.get_color(799, 449), Some(WHITE));
}
