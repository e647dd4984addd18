use rasterizer::geometry::{Triangle, Vector4};
use rasterizer::raster::Drawer;

fn count_colored(d: &Drawer, col: u32) -> usize {
    d.buffer.iter().filter(|&&p| p == col).count()
}

#[test]
fn new_buffer_is_black() {
    let d = Drawer::new(8, 6);
    assert_eq!(d.buffer.len(), 48);
    assert!(d.buffer.iter().all(|&p| p == 0));
}

#[test]
fn draw_sets_exactly_one_pixel() {
    let mut d = Drawer::new(10, 10);
    d.draw(3, 7, 0xabcdef);
    assert_eq!(d.get(3, 7), 0xabcdef);
    assert_eq!(count_colored(&d, 0xabcdef), 1);
}

#[test]
fn draw_out_of_bounds_is_silent_noop() {
    let mut d = Drawer::new(10, 10);
    let before = d.buffer.clone();
    d.draw(-1, 5, 0xff);
    d.draw(5, -1, 0xff);
    d.draw(10, 5, 0xff);
    d.draw(5, 10, 0xff);
    d.draw(i32::MIN, i32::MAX, 0xff);
    assert_eq!(d.buffer, before);
}

#[test]
fn horizontal_line_paints_five_pixels() {
    let mut d = Drawer::new(10, 10);
    d.draw_line(0, 0, 4, 0, 0x00ff00);
    for x in 0..=4 {
        assert_eq!(d.get(x, 0), 0x00ff00);
    }
    assert_eq!(count_colored(&d, 0x00ff00), 5);
}

#[test]
fn line_endpoints_painted_all_octants() {
    for &(x2, y2) in &[(7, 2), (2, 7), (-3, 6), (6, -3), (-5, -5), (0, -6), (-6, 0), (5, 5)] {
        let mut d = Drawer::new(32, 32);
        d.draw_line(10, 10, 10 + x2, 10 + y2, 0xffffff);
        assert_eq!(d.get(10, 10), 0xffffff);
        assert_eq!(d.get(10 + x2, 10 + y2), 0xffffff);
    }
}

#[test]
fn line_is_direction_symmetric() {
    let mut a = Drawer::new(20, 20);
    let mut b = Drawer::new(20, 20);
    a.draw_line(2, 3, 15, 9, 0xff);
    b.draw_line(15, 9, 2, 3, 0xff);
    assert_eq!(a.buffer, b.buffer);
}

#[test]
fn fill_triangle_covers_interior_not_far_corner() {
    let mut d = Drawer::new(10, 10);
    d.fill_triangle(0, 0, 0, 4, 4, 0, 0xff00ff);
    assert_eq!(d.get(0, 0), 0xff00ff);
    assert_eq!(d.get(2, 2), 0xff00ff);
    assert_eq!(d.get(4, 4), 0);
}

#[test]
fn fill_triangle_rows_shrink() {
    let mut d = Drawer::new(10, 10);
    d.fill_triangle(0, 0, 0, 4, 4, 0, 0x11);
    // the hypotenuse runs from (4,0) to (0,4): row y spans x in 0..=4-y
    for y in 0..=4 {
        for x in 0..=(4 - y) {
            assert_eq!(d.get(x, y), 0x11, "pixel ({x},{y})");
        }
        for x in (5 - y).max(0)..10 {
            assert_eq!(d.get(x, y), 0, "pixel ({x},{y})");
        }
    }
}

#[test]
fn fill_rectangle_inclusive() {
    let mut d = Drawer::new(8, 8);
    d.fill(1, 2, 3, 4, 0x42);
    for y in 0..8 {
        for x in 0..8 {
            let want = if (1..=3).contains(&x) && (2..=4).contains(&y) { 0x42 } else { 0 };
            assert_eq!(d.get(x, y), want);
        }
    }
}

#[test]
fn fill_whole_buffer_clears() {
    let mut d = Drawer::new(6, 4);
    d.fill(0, 0, 5, 3, 0x123456);
    assert!(d.buffer.iter().all(|&p| p == 0x123456));
}

#[test]
fn clip_clamps_into_rectangle() {
    let d = Drawer::new(10, 8);
    assert_eq!(d.clip(-5, -5), (0, 0));
    assert_eq!(d.clip(20, 20), (9, 7));
    assert_eq!(d.clip(3, 4), (3, 4));
}

#[test]
fn swap_exchanges() {
    let mut a = 3;
    let mut b = -7;
    Drawer::swap(&mut a, &mut b);
    assert_eq!((a, b), (-7, 3));
}

#[test]
fn circle_radius_zero_draws_nothing() {
    let mut d = Drawer::new(10, 10);
    d.draw_circle(5, 5, 0);
    assert!(d.buffer.iter().all(|&p| p == 0));
}

#[test]
fn circle_radius_one_paints_cross() {
    let mut d = Drawer::new(10, 10);
    d.draw_circle(5, 5, 1);
    assert_eq!(d.get(5, 6), 0xffffff);
    assert_eq!(d.get(5, 4), 0xffffff);
    assert_eq!(d.get(4, 5), 0xffffff);
    assert_eq!(d.get(6, 5), 0xffffff);
    assert_eq!(d.get(5, 5), 0);
    assert_eq!(count_colored(&d, 0xffffff), 4);
}

#[test]
fn triangle_outline_corners_painted() {
    let mut d = Drawer::new(16, 16);
    d.draw_triangle(1, 1, 9, 2, 4, 11, 0xee);
    assert_eq!(d.get(1, 1), 0xee);
    assert_eq!(d.get(9, 2), 0xee);
    assert_eq!(d.get(4, 11), 0xee);
    assert_eq!(d.get(5, 6), 0); // interior stays empty
}

#[test]
fn square_outline_painted() {
    let mut d = Drawer::new(16, 16);
    d.draw_square(2, 2, 10, 10, 0x77);
    for x in 2..=10 {
        assert_eq!(d.get(x, 2), 0x77);
        assert_eq!(d.get(x, 10), 0x77);
    }
    for y in 2..=10 {
        assert_eq!(d.get(2, y), 0x77);
        assert_eq!(d.get(10, y), 0x77);
    }
}

#[test]
fn fill_triangle_from_divides_out_w() {
    // the same corners as the scanline test, carried with denominator 2
    let t = Triangle::new(
        Vector4 { x: 0, y: 0, z: 0, w: 2 },
        Vector4 { x: 0, y: 8, z: 0, w: 2 },
        Vector4 { x: 8, y: 0, z: 0, w: 2 },
        0xff00ff,
    );
    let mut d = Drawer::new(10, 10);
    d.fill_triangle_from(t);
    let mut e = Drawer::new(10, 10);
    e.fill_triangle(0, 0, 0, 4, 4, 0, 0xff00ff);
    assert_eq!(d.buffer, e.buffer);
}

#[test]
fn draw_triangle_from_matches_outline() {
    let t = Triangle::new(
        Vector4::new(1, 1, 0),
        Vector4::new(9, 2, 0),
        Vector4::new(4, 11, 0),
        0xee,
    );
    let mut d = Drawer::new(16, 16);
    d.draw_triangle_from(t);
    let mut e = Drawer::new(16, 16);
    e.draw_triangle(1, 1, 9, 2, 4, 11, 0xee);
    assert_eq!(d.buffer, e.buffer);
}
