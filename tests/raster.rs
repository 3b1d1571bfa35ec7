use rasterizer::buffer::Buffer2D;
use rasterizer::color::Color;
use rasterizer::raster::{Raster, FAR_DEPTH};

const RED: Color = Color(0xFF0000);
const BLUE: Color = Color(0x0000FF);
const BLACK: Color = Color(0);

fn frame(width: u16, height: u16) -> (Raster, Buffer2D<Color>) {
    let mut raster = Raster::new();
    let mut screen = Buffer2D::default();
    raster.begin_frame(&mut screen, width, height);
    (raster, screen)
}

#[test]
fn begin_frame_clears_both_buffers() {
    let (raster, screen) = frame(6, 4);
    assert_eq!(screen.width, 6);
    assert_eq!(screen.height, 4);
    assert!(screen.data.iter().all(|c| *c == BLACK));
    assert_eq!(raster.z_buffer.data, vec![FAR_DEPTH; 24]);
    assert_eq!(raster.horizontal_line_buffer, vec![None; 4]);
}

#[test]
fn begin_frame_empty_leaves_depth_alone() {
    let (mut raster, mut screen) = frame(3, 3);
    raster.draw_triangle(&mut screen, [(0, 0), (2, 0), (0, 2)], RED, |_, _| 1);
    let z = raster.z_buffer.data.clone();
    raster.begin_frame(&mut screen, 0, 5);
    assert_eq!(screen.width, 0);
    assert_eq!(screen.height, 5);
    assert!(screen.data.is_empty());
    assert_eq!(raster.z_buffer.data, z);
}

#[test]
fn draws_right_triangle_spans() {
    let (mut raster, mut screen) = frame(10, 10);
    raster.draw_triangle(&mut screen, [(1, 1), (8, 1), (1, 8)], RED, |_, _| 5);
    for y in 0..10usize {
        for x in 0..10usize {
            let inside = (1..=8).contains(&y) && x >= 1 && x + y <= 9;
            let expected = if inside { RED } else { BLACK };
            assert_eq!(*screen.get(x, y), expected, "pixel ({}, {})", x, y);
            let depth = if inside { 5 } else { FAR_DEPTH };
            assert_eq!(*raster.z_buffer.get(x, y), depth);
        }
    }
    assert_eq!(screen.data.iter().filter(|c| **c == RED).count(), 36);
    assert!(raster.horizontal_line_buffer.iter().all(|s| s.is_none()));
}

#[test]
fn winding_does_not_matter_to_filling() {
    let (mut r1, mut s1) = frame(10, 10);
    r1.draw_triangle(&mut s1, [(1, 1), (8, 1), (1, 8)], RED, |_, _| 5);
    let (mut r2, mut s2) = frame(10, 10);
    r2.draw_triangle(&mut s2, [(1, 8), (8, 1), (1, 1)], RED, |_, _| 5);
    assert_eq!(s1.data, s2.data);
}

#[test]
fn edge_columns_round_half_away_from_zero() {
    // The edge from (0, 0) to (3, 2) crosses row 1 at 1.5, which rounds to 2.
    let (mut raster, mut screen) = frame(5, 3);
    raster.draw_triangle(&mut screen, [(0, 0), (3, 2), (0, 2)], RED, |_, _| 1);
    let row1: Vec<Color> = screen.get_range(1, 0..=4).to_vec();
    assert_eq!(row1, vec![RED, RED, RED, BLACK, BLACK]);
    // Going the other way the crossing is -1.5 from x = 3, which rounds to 1.
    let (mut raster, mut screen) = frame(5, 3);
    raster.draw_triangle(&mut screen, [(3, 0), (0, 2), (3, 2)], RED, |_, _| 1);
    let row1: Vec<Color> = screen.get_range(1, 0..=4).to_vec();
    assert_eq!(row1, vec![BLACK, RED, RED, RED, BLACK]);
}

#[test]
fn depth_closure_receives_pixel_coordinates() {
    let (mut raster, mut screen) = frame(4, 4);
    raster.draw_triangle(&mut screen, [(0, 0), (3, 0), (0, 3)], RED, |x, y| (10 * y + x) as u64);
    assert_eq!(*raster.z_buffer.get(0, 0), 0);
    assert_eq!(*raster.z_buffer.get(2, 1), 12);
    assert_eq!(*raster.z_buffer.get(0, 3), 30);
    assert_eq!(*raster.z_buffer.get(3, 3), FAR_DEPTH);
}

#[test]
fn partly_offscreen_triangle_is_clipped_to_screen() {
    let (mut raster, mut screen) = frame(4, 4);
    raster.draw_triangle(&mut screen, [(-10, -10), (20, -10), (-10, 20)], BLUE, |_, _| 2);
    // The hypotenuse crosses row y at x = 10 - y: rows 0..=3 are filled up to the edge.
    assert!(screen.data.iter().all(|c| *c == BLUE));
    assert_eq!(raster.z_buffer.data, vec![2; 16]);
}

#[test]
fn offscreen_triangles_leave_buffers_unchanged() {
    let cases: [[(i32, i32); 3]; 4] = [
        [(-9, 0), (-1, 5), (-4, 9)],
        [(8, 0), (12, 5), (30, 9)],
        [(0, -9), (5, -1), (9, -4)],
        [(0, 8), (5, 12), (9, 30)],
    ];
    for pts in cases {
        let (mut raster, mut screen) = frame(8, 8);
        raster.draw_triangle(&mut screen, pts, RED, |_, _| 0);
        assert!(screen.data.iter().all(|c| *c == BLACK), "{:?}", pts);
        assert!(raster.z_buffer.data.iter().all(|z| *z == FAR_DEPTH));
    }
}

#[test]
fn degenerate_triangles_draw_nothing_on_one_row() {
    let (mut raster, mut screen) = frame(8, 8);
    raster.draw_triangle(&mut screen, [(1, 3), (6, 3), (4, 3)], RED, |_, _| 0);
    assert!(screen.data.iter().all(|c| *c == BLACK));
    raster.draw_triangle(&mut screen, [(2, 2), (2, 2), (2, 2)], RED, |_, _| 0);
    assert!(screen.data.iter().all(|c| *c == BLACK));
}

#[test]
fn vertical_sliver_covers_its_column() {
    let (mut raster, mut screen) = frame(8, 8);
    raster.draw_triangle(&mut screen, [(3, 1), (3, 4), (3, 6)], RED, |_, _| 0);
    for y in 0..8usize {
        for x in 0..8usize {
            let expected = if x == 3 && (1..=6).contains(&y) { RED } else { BLACK };
            assert_eq!(*screen.get(x, y), expected);
        }
    }
}

#[test]
fn depth_test_is_order_independent() {
    let (mut r1, mut s1) = frame(8, 8);
    r1.draw_triangle(&mut s1, [(0, 0), (7, 0), (0, 7)], RED, |_, _| 3);
    r1.draw_triangle(&mut s1, [(7, 7), (7, 0), (0, 7)], BLUE, |_, _| 7);
    let (mut r2, mut s2) = frame(8, 8);
    r2.draw_triangle(&mut s2, [(7, 7), (7, 0), (0, 7)], BLUE, |_, _| 7);
    r2.draw_triangle(&mut s2, [(0, 0), (7, 0), (0, 7)], RED, |_, _| 3);
    assert_eq!(s1.data, s2.data);
    assert_eq!(r1.z_buffer.data, r2.z_buffer.data);
    // On the shared diagonal the nearer triangle is visible.
    assert_eq!(*s1.get(7, 0), RED);
    assert_eq!(*s1.get(0, 7), RED);
    assert_eq!(*s1.get(7, 7), BLUE);
}

#[test]
fn equal_depth_goes_to_later_triangle() {
    let (mut r1, mut s1) = frame(8, 8);
    r1.draw_triangle(&mut s1, [(0, 0), (7, 0), (0, 7)], RED, |_, _| 4);
    r1.draw_triangle(&mut s1, [(7, 7), (7, 0), (0, 7)], BLUE, |_, _| 4);
    assert_eq!(*s1.get(7, 0), BLUE);
    assert_eq!(*s1.get(3, 4), BLUE);
    let (mut r2, mut s2) = frame(8, 8);
    r2.draw_triangle(&mut s2, [(7, 7), (7, 0), (0, 7)], BLUE, |_, _| 4);
    r2.draw_triangle(&mut s2, [(0, 0), (7, 0), (0, 7)], RED, |_, _| 4);
    assert_eq!(*s2.get(7, 0), RED);
    assert_eq!(*s2.get(3, 4), RED);
}

#[test]
fn farther_fragment_is_rejected() {
    let (mut raster, mut screen) = frame(4, 4);
    raster.draw_triangle(&mut screen, [(0, 0), (3, 0), (0, 3)], RED, |_, _| 1);
    raster.draw_triangle(&mut screen, [(0, 0), (3, 0), (0, 3)], BLUE, |_, _| 2);
    assert_eq!(*screen.get(0, 0), RED);
    assert_eq!(*raster.z_buffer.get(0, 0), 1);
}

/// The near face of a cube of half size 10 centred 75 ahead of an orthographic camera that
/// maps 100 by 100 world units onto a 100 by 100 screen.
#[test]
fn cube_silhouette_is_centered_square() {
    let project = |x: f64, y: f64| -> (i32, i32) {
        (((0.5 + x / 100.0) * 100.0).round() as i32, ((0.5 - y / 100.0) * 100.0).round() as i32)
    };
    let corner = |sx: f64, sy: f64| project(10.0 * sx, 10.0 * sy);
    let (mut raster, mut screen) = frame(100, 100);
    let white = Color::from_rgb(255, 255, 255);
    // Far face first, then the near face; depth is the camera-space z.
    for (z, color) in [(85u64, RED), (65u64, white)] {
        raster.draw_triangle(&mut screen, [corner(-1.0, 1.0), corner(1.0, 1.0), corner(-1.0, -1.0)], color, move |_, _| z);
        raster.draw_triangle(&mut screen, [corner(-1.0, -1.0), corner(1.0, 1.0), corner(1.0, -1.0)], color, move |_, _| z);
    }
    for y in 0..100usize {
        for x in 0..100usize {
            let inside = (40..=60).contains(&x) && (40..=60).contains(&y);
            if inside {
                assert!(*raster.z_buffer.get(x, y) < FAR_DEPTH);
                assert_eq!(*raster.z_buffer.get(x, y), 65);
                assert_eq!(*screen.get(x, y), white);
            } else {
                assert_eq!(*raster.z_buffer.get(x, y), FAR_DEPTH, "pixel ({}, {})", x, y);
                assert_eq!(*screen.get(x, y), BLACK);
            }
        }
    }
}
