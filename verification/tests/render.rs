use game::fixed::UNIT;
use game::host_api::Bitmap;
use game::math::V2;
use game::render::{
    alpha_of, blend_channel, channel_byte, far_edge, high_edge, low_edge, round_to_i32, Color,
    OffscreenBuffer, Pixel,
};

const MAGENTA: [u8; 4] = [255, 0, 255, 0];

fn buffer(width: usize, height: usize) -> OffscreenBuffer {
    OffscreenBuffer { buffer: vec![7; width * height * 4], width, height, bytes_per_pixel: 4 }
}

fn pixel(b: &OffscreenBuffer, x: usize, y: usize) -> [u8; 4] {
    let p = b.get(x, y);
    [p.blue, p.green, p.red, p.alpha]
}

fn px(x: i64, y: i64) -> V2 {
    V2::new(x * UNIT, y * UNIT)
}

#[test]
fn pitch_is_the_length_of_a_row() {
    assert_eq!(buffer(5, 3).pitch(), 20);
    assert_eq!(buffer(0, 3).pitch(), 0);
}

#[test]
fn put_writes_one_pixel() {
    let mut b = buffer(3, 2);
    b.put(1, 1, Pixel { blue: 1, green: 2, red: 3, alpha: 4 });
    assert_eq!(&b.buffer[16..20], &[1, 2, 3, 4]);
    assert_eq!(pixel(&b, 1, 1), [1, 2, 3, 4]);
    assert_eq!(b.buffer.iter().filter(|v| **v == 7).count(), 20);
}

#[test]
fn reset_makes_every_pixel_magenta() {
    let mut b = buffer(4, 3);
    b.reset();
    for y in 0..3 {
        for x in 0..4 {
            assert_eq!(pixel(&b, x, y), MAGENTA);
        }
    }
    assert_eq!(b.buffer.len(), 48);
}

#[test]
fn scalar_rounds_to_the_nearest_pixel() {
    assert_eq!(round_to_i32(2_499_999), 2);
    assert_eq!(round_to_i32(2_500_000), 3);
    assert_eq!(round_to_i32(-2_500_000), -3);
    assert_eq!(round_to_i32(-2_499_999), -2);
    assert_eq!(round_to_i32(i64::MAX), i32::MAX);
    assert_eq!(round_to_i32(i64::MIN), i32::MIN);
}

#[test]
fn part_of_one_as_a_byte() {
    assert_eq!(channel_byte(0), 0);
    assert_eq!(channel_byte(UNIT), 255);
    assert_eq!(channel_byte(500_000), 128);
    assert_eq!(channel_byte(2 * UNIT), 255);
    assert_eq!(channel_byte(-UNIT), 0);
}

#[test]
fn edges_stay_in_the_buffer() {
    assert_eq!(low_edge(-5), 0);
    assert_eq!(low_edge(5), 5);
    assert_eq!(high_edge(-5, 10), 0);
    assert_eq!(high_edge(5, 10), 5);
    assert_eq!(high_edge(15, 10), 10);
    assert_eq!(far_edge(-5, 3, 10), 0);
    assert_eq!(far_edge(-5, 8, 10), 3);
    assert_eq!(far_edge(5, 8, 10), 10);
    assert_eq!(far_edge(i32::MAX, usize::MAX, 10), 10);
}

#[test]
fn colours() {
    assert_eq!(Color::magenta(), Color { red: UNIT, green: 0, blue: UNIT });
    assert_eq!(Color::red(), Color { red: UNIT, green: 0, blue: 0 });
}

#[test]
fn rectangle_fills_from_its_lower_corner_up_to_its_upper_corner() {
    let mut b = buffer(5, 4);
    let grey = Color { red: 500_000, green: 250_000, blue: UNIT };
    b.render_rectangle(px(1, 1), px(4, 3), grey);
    for y in 0..4 {
        for x in 0..5 {
            let inside = (1..4).contains(&x) && (1..3).contains(&y);
            assert_eq!(pixel(&b, x, y), if inside { [255, 64, 128, 0] } else { [7, 7, 7, 7] });
        }
    }
}

#[test]
fn rectangle_is_cut_at_the_buffer() {
    let mut b = buffer(3, 3);
    b.render_rectangle(px(-10, 2), px(100, 100), Color::red());
    for y in 0..3 {
        for x in 0..3 {
            assert_eq!(pixel(&b, x, y), if y == 2 { [0, 0, 255, 0] } else { [7, 7, 7, 7] });
        }
    }
    b.render_rectangle(px(5, 0), px(9, 3), Color::magenta());
    b.render_rectangle(px(2, 2), px(1, 1), Color::magenta());
    b.render_rectangle(px(-9, -9), px(-1, -1), Color::magenta());
    assert_eq!(pixel(&b, 0, 0), [7, 7, 7, 7]);
    assert_eq!(pixel(&b, 2, 2), [0, 0, 255, 0]);
}

#[test]
fn rectangle_corners_are_rounded() {
    let mut b = buffer(4, 1);
    b.render_rectangle(V2::new(500_000, -400_000), V2::new(2_499_999, 600_000), Color::red());
    assert_eq!(pixel(&b, 0, 0), [7, 7, 7, 7]);
    assert_eq!(pixel(&b, 1, 0), [0, 0, 255, 0]);
    assert_eq!(pixel(&b, 2, 0), [7, 7, 7, 7]);
}

#[test]
fn alpha_of_a_pixel() {
    assert_eq!(alpha_of(UNIT, 255), UNIT);
    assert_eq!(alpha_of(UNIT, 0), 0);
    assert_eq!(alpha_of(UNIT, 128), 501_960);
    assert_eq!(alpha_of(500_000, 255), 500_000);
}

#[test]
fn bytes_mix_by_alpha() {
    assert_eq!(blend_channel(10, 200, UNIT), 200);
    assert_eq!(blend_channel(10, 200, 0), 10);
    assert_eq!(blend_channel(0, 255, 501_960), 128);
    assert_eq!(blend_channel(100, 200, 500_000), 150);
    assert_eq!(blend_channel(255, 255, 500_000), 255);
    assert_eq!(blend_channel(0, 255, 2 * UNIT), 255);
}

fn picture() -> Bitmap {
    let mut pixels = vec![];
    for i in 0..6u8 {
        pixels.extend_from_slice(&[10 * i, 10 * i + 1, 10 * i + 2, 255]);
    }
    Bitmap { align_x: 0, align_y: 0, width: 3, height: 2, pixels }
}

#[test]
fn bitmap_is_drawn_with_its_rows_upward() {
    let mut b = buffer(4, 3);
    b.render_bitmap(&picture(), px(1, 1), 0, 0, UNIT);
    assert_eq!(pixel(&b, 0, 1), [7, 7, 7, 7]);
    assert_eq!(pixel(&b, 1, 0), [7, 7, 7, 7]);
    assert_eq!(pixel(&b, 1, 1), [30, 31, 32, 7]);
    assert_eq!(pixel(&b, 2, 1), [40, 41, 42, 7]);
    assert_eq!(pixel(&b, 3, 1), [50, 51, 52, 7]);
    assert_eq!(pixel(&b, 1, 2), [0, 1, 2, 7]);
    assert_eq!(pixel(&b, 3, 2), [20, 21, 22, 7]);
}

#[test]
fn bitmap_is_put_with_its_own_point_on_the_place() {
    let mut b = buffer(4, 3);
    b.render_bitmap(&picture(), px(1, 1), 1, 1, UNIT);
    assert_eq!(pixel(&b, 0, 0), [30, 31, 32, 7]);
    assert_eq!(pixel(&b, 2, 0), [50, 51, 52, 7]);
    assert_eq!(pixel(&b, 0, 1), [0, 1, 2, 7]);
    assert_eq!(pixel(&b, 3, 0), [7, 7, 7, 7]);
    assert_eq!(pixel(&b, 0, 2), [7, 7, 7, 7]);
}

#[test]
fn bitmap_is_cut_at_the_buffer() {
    let mut b = buffer(2, 2);
    b.render_bitmap(&picture(), px(-1, -1), 0, 0, UNIT);
    assert_eq!(pixel(&b, 0, 0), [10, 11, 12, 7]);
    assert_eq!(pixel(&b, 1, 0), [20, 21, 22, 7]);
    assert_eq!(pixel(&b, 0, 1), [7, 7, 7, 7]);
    let mut b = buffer(2, 2);
    b.render_bitmap(&picture(), px(-10, 0), 0, 0, UNIT);
    b.render_bitmap(&picture(), px(0, 10), 0, 0, UNIT);
    b.render_bitmap(&picture(), px(1, 1), 0, 0, UNIT);
    assert_eq!(pixel(&b, 0, 0), [7, 7, 7, 7]);
    assert_eq!(pixel(&b, 1, 1), [30, 31, 32, 7]);
}

#[test]
fn bitmap_shows_through_by_its_alpha() {
    let mut b = buffer(1, 1);
    let half = Bitmap { align_x: 0, align_y: 0, width: 1, height: 1, pixels: vec![107, 207, 57, 128] };
    b.render_bitmap(&half, px(0, 0), 0, 0, UNIT);
    assert_eq!(pixel(&b, 0, 0), [57, 107, 32, 7]);
    let clear = Bitmap { align_x: 0, align_y: 0, width: 1, height: 1, pixels: vec![200, 200, 200, 0] };
    b.render_bitmap(&clear, px(0, 0), 0, 0, UNIT);
    assert_eq!(pixel(&b, 0, 0), [57, 107, 32, 7]);
    let solid = Bitmap { align_x: 0, align_y: 0, width: 1, height: 1, pixels: vec![1, 2, 3, 255] };
    b.render_bitmap(&solid, px(0, 0), 0, 0, 0);
    assert_eq!(pixel(&b, 0, 0), [57, 107, 32, 7]);
    b.render_bitmap(&solid, px(0, 0), 0, 0, UNIT);
    assert_eq!(pixel(&b, 0, 0), [1, 2, 3, 7]);
}
