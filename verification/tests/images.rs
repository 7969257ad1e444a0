use scanfill::arith::interpolate;
use scanfill::sort::sort_ascending;
use scanfill::Color;
use scanfill::Image;

const WHITE: Color = Color { r: 255, g: 255, b: 255, a: 255 };
const GREEN: Color = Color { r: 0, g: 228, b: 48, a: 255 };

#[test]
fn color_new_keeps_the_channels() {
    let c = Color::new(1, 2, 3, 4);
    assert_eq!(c, Color { r: 1, g: 2, b: 3, a: 4 });
    assert_ne!(c, Color::new(4, 3, 2, 1));
}

#[test]
fn generated_image_is_solid() {
    let image = Image::gen_image_color(3, 2, GREEN);
    assert_eq!(image.width(), 3);
    assert_eq!(image.height(), 2);
    for y in 0..2 {
        for x in 0..3 {
            assert_eq!(image.get_color(x, y), Some(GREEN));
        }
    }
}

#[test]
fn reading_outside_the_image_gives_nothing() {
    let image = Image::gen_image_color(3, 2, GREEN);
    assert_eq!(image.get_color(-1, 0), None);
    assert_eq!(image.get_color(0, -1), None);
    assert_eq!(image.get_color(3, 0), None);
    assert_eq!(image.get_color(0, 2), None);
}

#[test]
fn empty_image_has_no_pixels() {
    let mut image = Image::gen_image_color(0, 0, GREEN);
    assert_eq!(image.get_color(0, 0), None);
    image.draw_pixel(0, 0, WHITE);
    assert_eq!(image.get_color(0, 0), None);
    let flat = Image::gen_image_color(5, 0, GREEN);
    assert_eq!(flat.width(), 5);
    assert_eq!(flat.height(), 0);
    assert_eq!(flat.get_color(2, 0), None);
}

#[test]
fn draw_pixel_changes_one_pixel() {
    let mut image = Image::gen_image_color(4, 3, WHITE);
    image.draw_pixel(2, 1, GREEN);
    for y in 0..3 {
        for x in 0..4 {
            let expected = if (x, y) == (2, 1) { GREEN } else { WHITE };
            assert_eq!(image.get_color(x, y), Some(expected));
        }
    }
}

#[test]
fn draw_pixel_distinguishes_rows_from_columns() {
    let mut image = Image::gen_image_color(4, 3, WHITE);
    image.draw_pixel(3, 0, GREEN);
    assert_eq!(image.get_color(3, 0), Some(GREEN));
    assert_eq!(image.get_color(0, 1), Some(WHITE));
    assert_eq!(image.get_color(0, 2), Some(WHITE));
}

#[test]
fn draw_pixel_outside_the_image_is_dropped() {
    let mut image = Image::gen_image_color(4, 3, WHITE);
    let untouched = image.clone();
    image.draw_pixel(4, 0, GREEN);
    image.draw_pixel(0, 3, GREEN);
    image.draw_pixel(-1, 1, GREEN);
    image.draw_pixel(1, -1, GREEN);
    image.draw_pixel(i32::MAX, i32::MIN, GREEN);
    assert_eq!(image, untouched);
}

#[test]
fn clone_is_equal_and_independent() {
    let mut image = Image::gen_image_color(2, 2, WHITE);
    let copy = image.clone();
    assert_eq!(image, copy);
    image.draw_pixel(0, 0, GREEN);
    assert_ne!(image, copy);
    assert_eq!(copy.get_color(0, 0), Some(WHITE));
}

#[test]
fn interpolate_rounds_toward_the_first_end() {
    assert_eq!(interpolate(0, 0, 3, 2, 1), 1);
    assert_eq!(interpolate(3, 2, 0, 0, 1), 2);
    assert_eq!(interpolate(5, 10, 0, 0, 1), 1);
    assert_eq!(interpolate(10, 0, 5, 10, 1), 10);
    assert_eq!(interpolate(-3, -2, 4, 5, -2), -3);
    assert_eq!(interpolate(-3, -2, 4, 5, 5), 4);
    assert_eq!(interpolate(0, 0, -7, 2, 1), -3);
}

#[test]
fn interpolate_handles_the_full_range() {
    assert_eq!(
        interpolate(i32::MIN, i32::MIN, i32::MAX, i32::MAX, i32::MAX),
        i32::MAX
    );
    assert_eq!(
        interpolate(i32::MAX, i32::MIN, i32::MIN, i32::MAX, i32::MIN),
        i32::MAX
    );
    assert_eq!(interpolate(i32::MIN, i32::MIN, i32::MAX, i32::MAX, 0), 0);
    assert_eq!(interpolate(i32::MAX, i32::MIN, i32::MIN, i32::MAX, -1), 0);
}

#[test]
fn sort_ascending_orders_and_keeps_duplicates() {
    assert_eq!(sort_ascending(&vec![]), Vec::<i32>::new());
    assert_eq!(sort_ascending(&vec![7]), vec![7]);
    assert_eq!(
        sort_ascending(&vec![5, -1, 5, 3, i32::MAX, i32::MIN, 0]),
        vec![i32::MIN, -1, 0, 3, 5, 5, i32::MAX]
    );
}
