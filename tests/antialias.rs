use rasterizer::antialias::{block_average, Antialias};
use rasterizer::buffer::Buffer2D;
use rasterizer::color::Color;
use rasterizer::raster::Raster;

fn filled(width: usize, height: usize, c: Color) -> Buffer2D<Color> {
    let mut b = Buffer2D::default();
    b.clear_and_resize(width, height, c);
    b
}

#[test]
fn block_average_truncates_each_channel() {
    let mut b = filled(2, 2, Color::new(0));
    *b.get_mut(0, 0) = Color::from_rgb(255, 0, 10);
    *b.get_mut(1, 0) = Color::from_rgb(0, 1, 10);
    *b.get_mut(0, 1) = Color::from_rgb(0, 1, 11);
    *b.get_mut(1, 1) = Color::from_rgb(0, 1, 10);
    // 255 / 4 = 63, 3 / 4 = 0, 41 / 4 = 10
    assert_eq!(block_average(&b, 0, 0, 2), Color::from_rgb(63, 0, 10));
}

#[test]
fn block_average_of_one_pixel_drops_high_byte() {
    let b = filled(1, 1, Color::new(0xFF_10_20_30));
    assert_eq!(block_average(&b, 0, 0, 1), Color::new(0x10_20_30));
}

#[test]
fn block_average_of_largest_block() {
    let b = filled(255, 255, Color::from_rgb(255, 255, 255));
    assert_eq!(block_average(&b, 0, 0, 255), Color::from_rgb(255, 255, 255));
}

#[test]
fn condense_samples_averages_blocks() {
    let aa = Antialias::new((), 2);
    let mut screen = filled(4, 2, Color::from_rgb(0, 0, 0));
    *screen.get_mut(0, 0) = Color::from_rgb(200, 100, 40);
    *screen.get_mut(3, 1) = Color::from_rgb(4, 8, 255);
    aa.condense_samples(&mut screen, 2, 1);
    assert_eq!(screen.width, 2);
    assert_eq!(screen.height, 1);
    assert_eq!(screen.data, vec![Color::from_rgb(50, 25, 10), Color::from_rgb(1, 2, 63)]);
}

#[test]
fn one_sample_per_pixel_keeps_the_frame() {
    let mut raster = Raster::new();
    let mut plain = Buffer2D::default();
    raster.begin_frame(&mut plain, 9, 7);
    raster.draw_triangle(&mut plain, [(0, 0), (8, 1), (2, 6)], Color::from_rgb(10, 200, 30), |x, y| (x + y) as u64);
    raster.draw_triangle(&mut plain, [(8, 6), (1, 0), (0, 5)], Color::from_rgb(250, 5, 99), |x, _| (10 - x) as u64);
    let aa = Antialias::new(Raster::new(), 1);
    let mut smoothed = Buffer2D { width: plain.width, height: plain.height, data: plain.data.clone() };
    aa.condense_samples(&mut smoothed, 9, 7);
    assert_eq!(smoothed.data, plain.data);
    assert_eq!((smoothed.width, smoothed.height), (9, 7));
}

#[test]
fn uniform_frame_keeps_its_color_at_two_samples() {
    let color = Color::from_rgb(17, 130, 254);
    let mut raster = Raster::new();
    let mut screen = Buffer2D::default();
    raster.begin_frame(&mut screen, 12, 8);
    raster.draw_triangle(&mut screen, [(-100, -100), (300, -100), (-100, 300)], color, |_, _| 1);
    assert!(screen.data.iter().all(|c| *c == color));
    let aa = Antialias::new(raster, 2);
    aa.condense_samples(&mut screen, 6, 4);
    assert_eq!(screen.data, vec![color; 24]);
}

#[test]
fn condense_samples_to_empty_frame() {
    let aa = Antialias::new((), 3);
    let mut screen = filled(0, 6, Color::new(0));
    aa.condense_samples(&mut screen, 0, 2);
    assert_eq!((screen.width, screen.height), (0, 2));
    assert!(screen.data.is_empty());
}

#[test]
fn sample_size_multiplies_each_side() {
    let aa = Antialias::new((), 4);
    assert_eq!(aa.sample_size(100, 30), Some((400, 120)));
    assert_eq!(aa.sample_size(0, 7), Some((0, 28)));
    assert_eq!(aa.sample_size(16383, 1), Some((65532, 4)));
    assert_eq!(aa.sample_size(16384, 1), None);
    assert_eq!(aa.sample_size(1, 20000), None);
    assert_eq!(Antialias::new((), 1).sample_size(65535, 65535), Some((65535, 65535)));
}
