use rasterizer::clip::{clip_against_plane, signed_distance_num};
use rasterizer::geometry::{IVec3, Plane, Triangle, Vector4};
use rasterizer::GeomError;

fn z_plane() -> Plane {
    Plane {
        point: IVec3 { x: 0, y: 0, z: 0 },
        normal: IVec3 { x: 0, y: 0, z: 1 },
    }
}

fn v(x: i128, y: i128, z: i128) -> Vector4 {
    Vector4::new(x, y, z)
}

fn tri(p0: Vector4, p1: Vector4, p2: Vector4) -> Triangle {
    Triangle::new(p0, p1, p2, 0xabcd)
}

/// Exact signed distance of a homogeneous vertex to the z = 0 plane is
/// its z numerator.
#[test]
fn signed_distance_is_z_numerator() {
    let pl = z_plane();
    assert_eq!(signed_distance_num(&pl, &v(7, -3, 5)), 5);
    assert_eq!(signed_distance_num(&pl, &v(7, -3, -5)), -5);
    assert_eq!(signed_distance_num(&pl, &Vector4 { x: 0, y: 0, z: 6, w: 3 }), 6);
}

/// A triangle fully inside comes back unchanged: vertices and color
/// identical.
#[test]
fn clip_fully_inside_returns_identical() {
    let t = tri(v(0, 0, 1), v(0, 4, 2), v(4, 0, 3));
    let out = clip_against_plane(&z_plane(), &t).unwrap();
    assert_eq!(out.len(), 1);
    assert_eq!(out[0], t);
}

/// A vertex exactly on the plane counts as inside.
#[test]
fn clip_on_plane_counts_as_inside() {
    let t = tri(v(0, 0, 0), v(0, 4, 0), v(4, 0, 0));
    let out = clip_against_plane(&z_plane(), &t).unwrap();
    assert_eq!(out.len(), 1);
    assert_eq!(out[0], t);
}

/// A triangle fully outside is clipped away.
#[test]
fn clip_fully_outside_returns_empty() {
    let t = tri(v(0, 0, -1), v(0, 4, -2), v(4, 0, -3));
    let out = clip_against_plane(&z_plane(), &t).unwrap();
    assert_eq!(out.len(), 0);
}

/// One vertex inside: one triangle whose two new vertices sit exactly on
/// the plane.
#[test]
fn clip_one_inside_exact_intersections() {
    let t = tri(v(0, 0, 2), v(0, 4, -2), v(4, 0, -2));
    let out = clip_against_plane(&z_plane(), &t).unwrap();
    assert_eq!(out.len(), 1);
    assert_eq!(out[0].color, 0xabcd);
    // the surviving vertex is copied exactly
    assert_eq!(out[0].p[0], v(0, 0, 2));
    // both interpolated vertices: midpoints, scaled by the common factor 4
    assert_eq!(out[0].p[1], Vector4 { x: 0, y: 8, z: 0, w: 4 });
    assert_eq!(out[0].p[2], Vector4 { x: 8, y: 0, z: 0, w: 4 });
    // and both lie exactly on the plane
    assert_eq!(signed_distance_num(&z_plane(), &out[0].p[1]), 0);
    assert_eq!(signed_distance_num(&z_plane(), &out[0].p[2]), 0);
}

/// Two vertices inside: two triangles sharing their interpolated vertex,
/// so the split leaves no crack.
#[test]
fn clip_two_inside_shares_vertex() {
    let t = tri(v(0, 0, 2), v(0, 4, 2), v(4, 0, -2));
    let out = clip_against_plane(&z_plane(), &t).unwrap();
    assert_eq!(out.len(), 2);
    assert_eq!(out[0].p[0], v(0, 0, 2));
    assert_eq!(out[0].p[1], v(0, 4, 2));
    // shared interpolated vertex
    assert_eq!(out[0].p[2], out[1].p[1]);
    assert_eq!(out[1].p[0], v(0, 4, 2));
    // both new vertices on the plane
    assert_eq!(signed_distance_num(&z_plane(), &out[0].p[2]), 0);
    assert_eq!(signed_distance_num(&z_plane(), &out[1].p[2]), 0);
    assert_eq!(out[0].color, 0xabcd);
    assert_eq!(out[1].color, 0xabcd);
}

/// A zero plane normal is rejected as degenerate geometry.
#[test]
fn clip_zero_normal_is_degenerate() {
    let pl = Plane {
        point: IVec3 { x: 0, y: 0, z: 0 },
        normal: IVec3 { x: 0, y: 0, z: 0 },
    };
    let t = tri(v(0, 0, 1), v(0, 4, 2), v(4, 0, 3));
    assert_eq!(clip_against_plane(&pl, &t), Err(GeomError::DegenerateGeometry));
}

fn affine(p: &Vector4) -> (f64, f64, f64) {
    let w = p.w as f64;
    (p.x as f64 / w, p.y as f64 / w, p.z as f64 / w)
}

fn area(t: &Triangle) -> f64 {
    let (ax, ay, az) = affine(&t.p[0]);
    let (bx, by, bz) = affine(&t.p[1]);
    let (cx, cy, cz) = affine(&t.p[2]);
    let (ux, uy, uz) = (bx - ax, by - ay, bz - az);
    let (vx, vy, vz) = (cx - ax, cy - ay, cz - az);
    let (nx, ny, nz) = (uy * vz - uz * vy, uz * vx - ux * vz, ux * vy - uy * vx);
    0.5 * (nx * nx + ny * ny + nz * nz).sqrt()
}

/// The two triangles of a one-vertex-outside clip cover exactly the
/// inside part of the original: their areas sum to the original area
/// minus the clipped-off corner's area.
#[test]
fn clip_two_inside_areas_add_up() {
    let t = tri(v(0, 0, 2), v(1, 4, 3), v(4, 0, -2));
    let out = clip_against_plane(&z_plane(), &t).unwrap();
    assert_eq!(out.len(), 2);
    let corner = tri(out[0].p[2], out[1].p[2], v(4, 0, -2));
    let combined = area(&out[0]) + area(&out[1]);
    let inside_region = area(&t) - area(&corner);
    assert!((combined - inside_region).abs() < 1e-9, "{combined} vs {inside_region}");
}

/// The segment intersection lands exactly on the plane, at the exact
/// rational point: from z = 3 to z = -1 the crossing sits 3/4 along.
#[test]
fn intersects_plane_exact_point() {
    let pl = z_plane();
    let s = v(0, 0, 3);
    let e = v(4, 8, -1);
    let r = Vector4::intersects_plane(&pl, &s, &e);
    assert_eq!(signed_distance_num(&pl, &r), 0);
    // r = sd(s)*e - sd(e)*s = 3*e + 1*s
    assert_eq!(r, Vector4 { x: 12, y: 24, z: 0, w: 4 });
}
