use rasterizer::depth::sort_by_depth;
use rasterizer::geometry::{Triangle, Vector4};
use rasterizer::mesh::resolve_face;
use rasterizer::shade::get_color;
use rasterizer::viewport::clip_to_viewport;

fn flat_tri(z: i128, tag: u32) -> Triangle {
    Triangle::new(
        Vector4::new(0, 0, z),
        Vector4::new(1, 0, z),
        Vector4::new(0, 1, z),
        tag,
    )
}

/// Depth sort puts mean depths {10, 5, 1} into render order [10, 5, 1],
/// whatever the input order.
#[test]
fn depth_sort_farthest_first() {
    let a = flat_tri(10, 10);
    let b = flat_tri(5, 5);
    let c = flat_tri(1, 1);
    let orders = [
        vec![a, b, c],
        vec![a, c, b],
        vec![b, a, c],
        vec![b, c, a],
        vec![c, a, b],
        vec![c, b, a],
    ];
    for input in orders {
        let mut tris = input.clone();
        sort_by_depth(&mut tris);
        let tags: Vec<u32> = tris.iter().map(|t| t.color).collect();
        assert_eq!(tags, vec![10, 5, 1], "input {:?}", input.iter().map(|t| t.color).collect::<Vec<_>>());
    }
}

/// The exact mean depth is a fraction: z values {1, 2, 6} average to 3.
#[test]
fn average_z_is_exact_fraction() {
    let t = Triangle::new(
        Vector4::new(0, 0, 1),
        Vector4::new(1, 0, 2),
        Vector4::new(0, 1, 6),
        0,
    );
    let f = t.average_z();
    assert_eq!(f.num, 9);
    assert_eq!(f.den, 3);
}

/// A triangle already inside the viewport passes the four-edge clip
/// unchanged.
#[test]
fn viewport_keeps_inner_triangle() {
    let t = Triangle::new(
        Vector4::new(16, 16, 5),
        Vector4::new(160, 16, 5),
        Vector4::new(16, 160, 5),
        0x77,
    );
    // 100 x 100 pixels at 16 grid units per pixel
    let out = clip_to_viewport(&t, 100, 100, 16);
    assert_eq!(out.len(), 1);
    assert_eq!(out[0], t);
}

/// A triangle hanging out over the left edge comes back clipped into the
/// viewport (within the pass's rounding tolerance of 4 grid units).
#[test]
fn viewport_clips_left_overhang() {
    let t = Triangle::new(
        Vector4::new(-160, 16, 5),
        Vector4::new(160, 16, 5),
        Vector4::new(160, 160, 5),
        0x77,
    );
    let out = clip_to_viewport(&t, 100, 100, 16);
    assert!(!out.is_empty());
    assert!(out.len() <= 16);
    for tri in &out {
        assert_eq!(tri.color, 0x77);
        for p in &tri.p {
            assert_eq!(p.w, 1);
            assert!(p.x >= -4 && p.x <= 99 * 16 + 4, "x = {}", p.x);
            assert!(p.y >= -4 && p.y <= 99 * 16 + 4, "y = {}", p.y);
        }
    }
}

/// A triangle crossing the left edge is split exactly as the clipper
/// says: two output triangles, with the two crossing points placed on
/// the edge, in the worklist's order.
#[test]
fn viewport_left_clip_exact_result() {
    let t = Triangle::new(
        Vector4::new(-2, 2, 5),
        Vector4::new(2, 2, 5),
        Vector4::new(2, 6, 5),
        0x9,
    );
    let out = clip_to_viewport(&t, 100, 100, 1);
    assert_eq!(out.len(), 2);
    assert_eq!(
        out[0],
        Triangle::new(Vector4::new(2, 2, 5), Vector4::new(2, 6, 5), Vector4::new(0, 2, 5), 0x9)
    );
    assert_eq!(
        out[1],
        Triangle::new(Vector4::new(2, 6, 5), Vector4::new(0, 2, 5), Vector4::new(0, 4, 5), 0x9)
    );
}

/// A triangle entirely right of the viewport is clipped away.
#[test]
fn viewport_drops_outside_triangle() {
    let t = Triangle::new(
        Vector4::new(3000, 16, 5),
        Vector4::new(4000, 16, 5),
        Vector4::new(3000, 900, 5),
        0x77,
    );
    let out = clip_to_viewport(&t, 100, 100, 16);
    assert_eq!(out.len(), 0);
}

/// The thirteen palette steps, the truncation toward zero, and the
/// black fallback outside the table.
#[test]
fn palette_levels() {
    assert_eq!(get_color(0, 1), 0x000000);
    assert_eq!(get_color(1, 10), 0x151515); // 1.3 truncates to 1
    assert_eq!(get_color(1, 2), 0x7f7f7f); // 6.5 truncates to 6
    assert_eq!(get_color(999, 1000), 0xffffff); // 12.987 truncates to 12
    assert_eq!(get_color(1, 1), 0x000000); // 13 falls off the table: black
    assert_eq!(get_color(-1, 10), 0x000000); // negative light: black
    assert_eq!(get_color(7, 10), 0xbfbfbf); // 9.1 truncates to 9
}

/// Face indices are 1-based; out-of-range faces are rejected.
#[test]
fn resolve_face_maps_and_rejects() {
    assert_eq!(resolve_face(8, 1, 2, 8), Some((0, 1, 7)));
    assert_eq!(resolve_face(8, 8, 8, 8), Some((7, 7, 7)));
    assert_eq!(resolve_face(8, 0, 2, 3), None);
    assert_eq!(resolve_face(8, 1, 9, 3), None);
    assert_eq!(resolve_face(8, 1, 2, -1), None);
    assert_eq!(resolve_face(0, 1, 1, 1), None);
}
