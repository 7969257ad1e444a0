use scanfill::draw_line_bresenham;
use scanfill::Color;
use scanfill::Image;

const WHITE: Color = Color { r: 255, g: 255, b: 255, a: 255 };
const RED: Color = Color { r: 230, g: 41, b: 55, a: 255 };

fn painted(image: &Image, color: Color) -> Vec<(i32, i32)> {
    let mut found = Vec::new();
    for y in 0..image.height() {
        for x in 0..image.width() {
            if image.get_color(x, y) == Some(color) {
                found.push((x, y));
            }
        }
    }
    found
}

#[test]
fn shallow_line_plots_the_expected_pixels() {
    let mut image = Image::gen_image_color(8, 4, WHITE);
    draw_line_bresenham(&mut image, 0, 0, 5, 2, RED);
    assert_eq!(
        painted(&image, RED),
        vec![(0, 0), (1, 0), (2, 1), (3, 1), (4, 2), (5, 2)]
    );
}

#[test]
fn steep_line_plots_the_expected_pixels() {
    let mut image = Image::gen_image_color(4, 8, WHITE);
    draw_line_bresenham(&mut image, 0, 0, 2, 5, RED);
    assert_eq!(
        painted(&image, RED),
        vec![(0, 0), (0, 1), (1, 2), (1, 3), (2, 4), (2, 5)]
    );
}

#[test]
fn reversed_line_starts_at_the_other_end() {
    let mut image = Image::gen_image_color(8, 4, WHITE);
    draw_line_bresenham(&mut image, 5, 2, 0, 0, RED);
    assert_eq!(
        painted(&image, RED),
        vec![(0, 0), (1, 0), (2, 1), (3, 1), (4, 2), (5, 2)]
    );
}

#[test]
fn uneven_line_rounds_differently_from_each_end() {
    let mut forward = Image::gen_image_color(5, 3, WHITE);
    draw_line_bresenham(&mut forward, 0, 0, 4, 1, RED);
    assert_eq!(
        painted(&forward, RED),
        vec![(0, 0), (1, 0), (2, 0), (3, 1), (4, 1)]
    );
    let mut backward = Image::gen_image_color(5, 3, WHITE);
    draw_line_bresenham(&mut backward, 4, 1, 0, 0, RED);
    assert_eq!(
        painted(&backward, RED),
        vec![(0, 0), (1, 0), (2, 1), (3, 1), (4, 1)]
    );
}

#[test]
fn diagonal_line_moves_along_both_axes_at_once() {
    let mut image = Image::gen_image_color(4, 4, WHITE);
    draw_line_bresenham(&mut image, 0, 0, 3, 3, RED);
    assert_eq!(painted(&image, RED), vec![(0, 0), (1, 1), (2, 2), (3, 3)]);
}

#[test]
fn single_point_line_draws_one_pixel() {
    let mut image = Image::gen_image_color(5, 5, WHITE);
    draw_line_bresenham(&mut image, 2, 3, 2, 3, RED);
    assert_eq!(painted(&image, RED), vec![(2, 3)]);
}

#[test]
fn line_plots_both_end_points() {
    let mut image = Image::gen_image_color(30, 30, WHITE);
    draw_line_bresenham(&mut image, 3, 27, 22, 4, RED);
    assert_eq!(image.get_color(3, 27), Some(RED));
    assert_eq!(image.get_color(22, 4), Some(RED));
}

#[test]
fn line_has_no_gaps() {
    let ends = [
        (0, 0, 19, 7),
        (19, 7, 0, 0),
        (3, 18, 11, 1),
        (15, 2, 15, 17),
        (1, 9, 18, 9),
        (18, 18, 2, 3),
    ];
    for (x0, y0, x1, y1) in ends {
        let mut image = Image::gen_image_color(20, 20, WHITE);
        draw_line_bresenham(&mut image, x0, y0, x1, y1, RED);
        let pixels = painted(&image, RED);
        let steps = (x1 - x0).abs().max((y1 - y0).abs());
        assert_eq!(pixels.len() as i32, steps + 1);
        for &(x, y) in &pixels {
            if (x, y) == (x0, y0) {
                continue;
            }
            let has_neighbor = pixels.iter().any(|&(u, v)| {
                (u, v) != (x, y) && (u - x).abs() <= 1 && (v - y).abs() <= 1
            });
            assert!(has_neighbor);
        }
    }
}

#[test]
fn axis_aligned_line_is_edge_connected() {
    let mut image = Image::gen_image_color(10, 10, WHITE);
    draw_line_bresenham(&mut image, 7, 4, 2, 4, RED);
    assert_eq!(
        painted(&image, RED),
        vec![(2, 4), (3, 4), (4, 4), (5, 4), (6, 4), (7, 4)]
    );
    let mut image = Image::gen_image_color(10, 10, WHITE);
    draw_line_bresenham(&mut image, 3, 1, 3, 4, RED);
    assert_eq!(painted(&image, RED), vec![(3, 1), (3, 2), (3, 3), (3, 4)]);
}

#[test]
fn line_outside_the_image_is_clipped() {
    let mut image = Image::gen_image_color(4, 4, WHITE);
    draw_line_bresenham(&mut image, -3, -3, 6, 6, RED);
    assert_eq!(painted(&image, RED), vec![(0, 0), (1, 1), (2, 2), (3, 3)]);
    let mut image = Image::gen_image_color(4, 4, WHITE);
    draw_line_bresenham(&mut image, -10, 7, 12, 7, RED);
    assert_eq!(painted(&image, RED), vec![]);
}

#[test]
fn line_overwrites_only_its_own_pixels() {
    let mut image = Image::gen_image_color(6, 6, WHITE);
    draw_line_bresenham(&mut image, 0, 5, 5, 5, RED);
    assert_eq!(painted(&image, WHITE).len(), 30);
    assert_eq!(painted(&image, RED).len(), 6);
}
