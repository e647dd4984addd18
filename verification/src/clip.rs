use vstd::prelude::*;

use crate::geometry::{
    is_inside, isect, gtri_bounded, gtri_inside, gtri_small, gtri_vbound, gtri_wf, gtri_wmargin,
    lemma_isect_bounds, lemma_isect_keeps_halfspace, lemma_isect_on_plane,
    lemma_isect_value_bounded, lemma_mul_bound, lemma_signed_dist_bound, normal_nonzero,
    plane_small, signed_dist, vec_small, wf_vec, GTri, GVec4, Plane, Triangle, Vector4,
    MAX_COORD,
};
use crate::GeomError;

verus! {

/// The bound on the components of a clipped vertex: an exact intersection
/// point of small inputs fits within `8 * MAX_COORD^4`.
pub open spec fn clip_bound() -> int {
    8 * (MAX_COORD as int) * (MAX_COORD as int) * (MAX_COORD as int) * (MAX_COORD as int)
}

/// What clipping one triangle against one plane returns, exactly.
///
/// Vertices 0, 1, 2 are classified inside/outside in that fixed order; the
/// inside and outside lists keep index order, which decides which vertex
/// pairs are interpolated:
/// - all three inside: the triangle unchanged;
/// - none inside: nothing;
/// - one inside `i` with outside `o1`, `o2` (in index order): the single
///   triangle `(i, isect(i, o1), isect(i, o2))`;
/// - two inside `i1`, `i2` (in index order) with outside `o`: the two
///   triangles `(i1, i2, isect(i1, o))` and `(i2, isect(i1, o),
///   isect(i2, o))`, which share an edge so the split leaves no crack.
pub open spec fn clip_expected(pl: Plane, t: GTri) -> Seq<GTri> {
    let b0 = is_inside(pl, t.p0);
    let b1 = is_inside(pl, t.p1);
    let b2 = is_inside(pl, t.p2);
    if b0 && b1 && b2 {
        seq![t]
    } else if !b0 && !b1 && !b2 {
        Seq::empty()
    } else if b0 && !b1 && !b2 {
        seq![
            GTri { p0: t.p0, p1: isect(pl, t.p0, t.p1), p2: isect(pl, t.p0, t.p2), color: t.color },
        ]
    } else if !b0 && b1 && !b2 {
        seq![
            GTri { p0: t.p1, p1: isect(pl, t.p1, t.p0), p2: isect(pl, t.p1, t.p2), color: t.color },
        ]
    } else if !b0 && !b1 && b2 {
        seq![
            GTri { p0: t.p2, p1: isect(pl, t.p2, t.p0), p2: isect(pl, t.p2, t.p1), color: t.color },
        ]
    } else if b0 && b1 {
        let i0 = isect(pl, t.p0, t.p2);
        seq![
            GTri { p0: t.p0, p1: t.p1, p2: i0, color: t.color },
            GTri { p0: t.p1, p1: i0, p2: isect(pl, t.p1, t.p2), color: t.color },
        ]
    } else if b0 && b2 {
        let i0 = isect(pl, t.p0, t.p1);
        seq![
            GTri { p0: t.p0, p1: t.p2, p2: i0, color: t.color },
            GTri { p0: t.p2, p1: i0, p2: isect(pl, t.p2, t.p1), color: t.color },
        ]
    } else {
        let i0 = isect(pl, t.p1, t.p0);
        seq![
            GTri { p0: t.p1, p1: t.p2, p2: i0, color: t.color },
            GTri { p0: t.p2, p1: i0, p2: isect(pl, t.p2, t.p0), color: t.color },
        ]
    }
}

/// The scaled signed distance from a point to a plane, as an integer: the
/// true signed distance times the positive factor `v.w * |normal|`. Its
/// sign classifies the point exactly.
pub fn signed_distance_num(pl: &Plane, v: &Vector4) -> (d: i128)
    requires
        plane_small(*pl),
        vec_small(v@),
    ensures
        d as int == signed_dist(*pl, v@),
{
    proof {
        let m = MAX_COORD as int;
        lemma_mul_bound(pl.normal.x as int, v@.x, m, m);
        lemma_mul_bound(pl.normal.y as int, v@.y, m, m);
        lemma_mul_bound(pl.normal.z as int, v@.z, m, m);
        lemma_mul_bound(pl.normal.x as int, pl.point.x as int, m, m);
        lemma_mul_bound(pl.normal.y as int, pl.point.y as int, m, m);
        lemma_mul_bound(pl.normal.z as int, pl.point.z as int, m, m);
        lemma_mul_bound(
            pl.normal.x as int * pl.point.x as int + pl.normal.y as int * pl.point.y as int
                + pl.normal.z as int * pl.point.z as int,
            v@.w,
            3 * m * m,
            m,
        );
        lemma_mul_bound(3 * m * m, m, 3 * m * m, m);
    }
    let nx = pl.normal.x as i128;
    let ny = pl.normal.y as i128;
    let nz = pl.normal.z as i128;
    let offset = nx * (pl.point.x as i128) + ny * (pl.point.y as i128) + nz * (pl.point.z as i128);
    nx * v.x + ny * v.y + nz * v.z - offset * v.w
}

impl Vector4 {
    /// The exact intersection of the segment from `line_start` to
    /// `line_end` with the plane, as a homogeneous point. The start must
    /// be inside and the end strictly outside, which is how the clipper
    /// calls it; a segment parallel to the plane never satisfies that, so
    /// the zero-denominator hazard of the floating-point formula cannot
    /// arise here.
    pub fn intersects_plane(pl: &Plane, line_start: &Vector4, line_end: &Vector4) -> (r: Vector4)
        requires
            plane_small(*pl),
            vec_small(line_start@),
            vec_small(line_end@),
            is_inside(*pl, line_start@),
            !is_inside(*pl, line_end@),
        ensures
            r@ == isect(*pl, line_start@, line_end@),
            signed_dist(*pl, r@) == 0,
            wf_vec(r@),
    {
        proof {
            let m = MAX_COORD as int;
            lemma_signed_dist_bound(*pl, line_start@);
            lemma_signed_dist_bound(*pl, line_end@);
            let sb = 4 * m * m * m;
            lemma_mul_bound(signed_dist(*pl, line_start@), line_end@.x, sb, m);
            lemma_mul_bound(signed_dist(*pl, line_end@), line_start@.x, sb, m);
            lemma_mul_bound(signed_dist(*pl, line_start@), line_end@.y, sb, m);
            lemma_mul_bound(signed_dist(*pl, line_end@), line_start@.y, sb, m);
            lemma_mul_bound(signed_dist(*pl, line_start@), line_end@.z, sb, m);
            lemma_mul_bound(signed_dist(*pl, line_end@), line_start@.z, sb, m);
            lemma_mul_bound(signed_dist(*pl, line_start@), line_end@.w, sb, m);
            lemma_mul_bound(signed_dist(*pl, line_end@), line_start@.w, sb, m);
            lemma_isect_on_plane(*pl, line_start@, line_end@);
            lemma_isect_bounds(*pl, line_start@, line_end@);
        }
        let a = signed_distance_num(pl, line_start);
        let b = signed_distance_num(pl, line_end);
        Vector4 {
            x: a * line_end.x - b * line_start.x,
            y: a * line_end.y - b * line_start.y,
            z: a * line_end.z - b * line_start.z,
            w: a * line_end.w - b * line_start.w,
        }
    }
}

/// Clips one triangle against one plane, exactly: the result is 0, 1 or 2
/// triangles, all on the kept side, with new vertices placed exactly on
/// the plane and the color preserved.
///
/// A plane with a zero normal is reported as degenerate geometry rather
/// than clipped against; the caller drops the triangle and the frame goes
/// on.
pub fn clip_against_plane(pl: &Plane, in_tri: &Triangle) -> (r: Result<Vec<Triangle>, GeomError>)
    requires
        plane_small(*pl),
        gtri_small(in_tri@),
    ensures
        r is Err <==> !normal_nonzero(*pl),
        r matches Ok(ts) ==> {
            &&& ts@.len() == clip_expected(*pl, in_tri@).len()
            &&& forall|i: int|
                0 <= i < ts@.len() ==> ts@[i]@ == clip_expected(*pl, in_tri@)[i]
            &&& forall|i: int|
                0 <= i < ts@.len() ==> {
                    &&& gtri_wf(#[trigger] ts@[i]@)
                    &&& gtri_inside(*pl, ts@[i]@)
                    &&& gtri_bounded(ts@[i]@, clip_bound())
                    &&& ts@[i]@.color == in_tri@.color
                }
            &&& gtri_vbound(in_tri@, MAX_COORD as int) ==> forall|i: int|
                0 <= i < ts@.len() ==> gtri_vbound(#[trigger] ts@[i]@, MAX_COORD as int)
            &&& forall|pl2: Plane, c: int, i: int|
                c >= 0 && gtri_wmargin(pl2, in_tri@, c) && 0 <= i < ts@.len()
                    ==> #[trigger] gtri_wmargin(pl2, ts@[i]@, c)
        },
{
    if pl.normal.x == 0 && pl.normal.y == 0 && pl.normal.z == 0 {
        return Err(GeomError::DegenerateGeometry);
    }

    let d0 = signed_distance_num(pl, &in_tri.p[0]);
    let d1 = signed_distance_num(pl, &in_tri.p[1]);
    let d2 = signed_distance_num(pl, &in_tri.p[2]);
    let b0 = d0 >= 0;
    let b1 = d1 >= 0;
    let b2 = d2 >= 0;

    proof {
        let m = MAX_COORD as int;
        assert(m <= clip_bound()) by (nonlinear_arith)
            requires
                m == MAX_COORD as int,
        ;
    }

    let mut out: Vec<Triangle> = Vec::new();

    if b0 && b1 && b2 {
        out.push(*in_tri);
        return Ok(out);
    }
    if !b0 && !b1 && !b2 {
        return Ok(out);
    }

    if b0 && !b1 && !b2 {
        let q1 = Vector4::intersects_plane(pl, &in_tri.p[0], &in_tri.p[1]);
        let q2 = Vector4::intersects_plane(pl, &in_tri.p[0], &in_tri.p[2]);
        proof {
            lemma_isect_bounds(*pl, in_tri@.p0, in_tri@.p1);
            lemma_isect_bounds(*pl, in_tri@.p0, in_tri@.p2);
            if gtri_vbound(in_tri@, MAX_COORD as int) {
                lemma_isect_value_bounded(*pl, in_tri@.p0, in_tri@.p1, MAX_COORD as int);
                lemma_isect_value_bounded(*pl, in_tri@.p0, in_tri@.p2, MAX_COORD as int);
            }
            assert forall|pl2: Plane, cc: int|
                cc >= 0 && gtri_wmargin(pl2, in_tri@, cc) implies {
                &&& signed_dist(pl2, isect(*pl, in_tri@.p0, in_tri@.p1))
                    >= -cc * isect(*pl, in_tri@.p0, in_tri@.p1).w
                &&& signed_dist(pl2, isect(*pl, in_tri@.p0, in_tri@.p2))
                    >= -cc * isect(*pl, in_tri@.p0, in_tri@.p2).w
            } by {
                lemma_isect_keeps_halfspace(pl2, *pl, in_tri@.p0, in_tri@.p1, cc);
                lemma_isect_keeps_halfspace(pl2, *pl, in_tri@.p0, in_tri@.p2, cc);
            }
        }
        out.push(Triangle { p: [in_tri.p[0], q1, q2], color: in_tri.color });
        return Ok(out);
    }
    if !b0 && b1 && !b2 {
        let q1 = Vector4::intersects_plane(pl, &in_tri.p[1], &in_tri.p[0]);
        let q2 = Vector4::intersects_plane(pl, &in_tri.p[1], &in_tri.p[2]);
        proof {
            lemma_isect_bounds(*pl, in_tri@.p1, in_tri@.p0);
            lemma_isect_bounds(*pl, in_tri@.p1, in_tri@.p2);
            if gtri_vbound(in_tri@, MAX_COORD as int) {
                lemma_isect_value_bounded(*pl, in_tri@.p1, in_tri@.p0, MAX_COORD as int);
                lemma_isect_value_bounded(*pl, in_tri@.p1, in_tri@.p2, MAX_COORD as int);
            }
            assert forall|pl2: Plane, cc: int|
                cc >= 0 && gtri_wmargin(pl2, in_tri@, cc) implies {
                &&& signed_dist(pl2, isect(*pl, in_tri@.p1, in_tri@.p0))
                    >= -cc * isect(*pl, in_tri@.p1, in_tri@.p0).w
                &&& signed_dist(pl2, isect(*pl, in_tri@.p1, in_tri@.p2))
                    >= -cc * isect(*pl, in_tri@.p1, in_tri@.p2).w
            } by {
                lemma_isect_keeps_halfspace(pl2, *pl, in_tri@.p1, in_tri@.p0, cc);
                lemma_isect_keeps_halfspace(pl2, *pl, in_tri@.p1, in_tri@.p2, cc);
            }
        }
        out.push(Triangle { p: [in_tri.p[1], q1, q2], color: in_tri.color });
        return Ok(out);
    }
    if !b0 && !b1 && b2 {
        let q1 = Vector4::intersects_plane(pl, &in_tri.p[2], &in_tri.p[0]);
        let q2 = Vector4::intersects_plane(pl, &in_tri.p[2], &in_tri.p[1]);
        proof {
            lemma_isect_bounds(*pl, in_tri@.p2, in_tri@.p0);
            lemma_isect_bounds(*pl, in_tri@.p2, in_tri@.p1);
            if gtri_vbound(in_tri@, MAX_COORD as int) {
                lemma_isect_value_bounded(*pl, in_tri@.p2, in_tri@.p0, MAX_COORD as int);
                lemma_isect_value_bounded(*pl, in_tri@.p2, in_tri@.p1, MAX_COORD as int);
            }
            assert forall|pl2: Plane, cc: int|
                cc >= 0 && gtri_wmargin(pl2, in_tri@, cc) implies {
                &&& signed_dist(pl2, isect(*pl, in_tri@.p2, in_tri@.p0))
                    >= -cc * isect(*pl, in_tri@.p2, in_tri@.p0).w
                &&& signed_dist(pl2, isect(*pl, in_tri@.p2, in_tri@.p1))
                    >= -cc * isect(*pl, in_tri@.p2, in_tri@.p1).w
            } by {
                lemma_isect_keeps_halfspace(pl2, *pl, in_tri@.p2, in_tri@.p0, cc);
                lemma_isect_keeps_halfspace(pl2, *pl, in_tri@.p2, in_tri@.p1, cc);
            }
        }
        out.push(Triangle { p: [in_tri.p[2], q1, q2], color: in_tri.color });
        return Ok(out);
    }

    if b0 && b1 {
        let q1 = Vector4::intersects_plane(pl, &in_tri.p[0], &in_tri.p[2]);
        let q2 = Vector4::intersects_plane(pl, &in_tri.p[1], &in_tri.p[2]);
        proof {
            lemma_isect_bounds(*pl, in_tri@.p0, in_tri@.p2);
            lemma_isect_bounds(*pl, in_tri@.p1, in_tri@.p2);
            if gtri_vbound(in_tri@, MAX_COORD as int) {
                lemma_isect_value_bounded(*pl, in_tri@.p0, in_tri@.p2, MAX_COORD as int);
                lemma_isect_value_bounded(*pl, in_tri@.p1, in_tri@.p2, MAX_COORD as int);
            }
            assert forall|pl2: Plane, cc: int|
                cc >= 0 && gtri_wmargin(pl2, in_tri@, cc) implies {
                &&& signed_dist(pl2, isect(*pl, in_tri@.p0, in_tri@.p2))
                    >= -cc * isect(*pl, in_tri@.p0, in_tri@.p2).w
                &&& signed_dist(pl2, isect(*pl, in_tri@.p1, in_tri@.p2))
                    >= -cc * isect(*pl, in_tri@.p1, in_tri@.p2).w
            } by {
                lemma_isect_keeps_halfspace(pl2, *pl, in_tri@.p0, in_tri@.p2, cc);
                lemma_isect_keeps_halfspace(pl2, *pl, in_tri@.p1, in_tri@.p2, cc);
            }
        }
        out.push(Triangle { p: [in_tri.p[0], in_tri.p[1], q1], color: in_tri.color });
        out.push(Triangle { p: [in_tri.p[1], q1, q2], color: in_tri.color });
        return Ok(out);
    }
    if b0 && b2 {
        let q1 = Vector4::intersects_plane(pl, &in_tri.p[0], &in_tri.p[1]);
        let q2 = Vector4::intersects_plane(pl, &in_tri.p[2], &in_tri.p[1]);
        proof {
            lemma_isect_bounds(*pl, in_tri@.p0, in_tri@.p1);
            lemma_isect_bounds(*pl, in_tri@.p2, in_tri@.p1);
            if gtri_vbound(in_tri@, MAX_COORD as int) {
                lemma_isect_value_bounded(*pl, in_tri@.p0, in_tri@.p1, MAX_COORD as int);
                lemma_isect_value_bounded(*pl, in_tri@.p2, in_tri@.p1, MAX_COORD as int);
            }
            assert forall|pl2: Plane, cc: int|
                cc >= 0 && gtri_wmargin(pl2, in_tri@, cc) implies {
                &&& signed_dist(pl2, isect(*pl, in_tri@.p0, in_tri@.p1))
                    >= -cc * isect(*pl, in_tri@.p0, in_tri@.p1).w
                &&& signed_dist(pl2, isect(*pl, in_tri@.p2, in_tri@.p1))
                    >= -cc * isect(*pl, in_tri@.p2, in_tri@.p1).w
            } by {
                lemma_isect_keeps_halfspace(pl2, *pl, in_tri@.p0, in_tri@.p1, cc);
                lemma_isect_keeps_halfspace(pl2, *pl, in_tri@.p2, in_tri@.p1, cc);
            }
        }
        out.push(Triangle { p: [in_tri.p[0], in_tri.p[2], q1], color: in_tri.color });
        out.push(Triangle { p: [in_tri.p[2], q1, q2], color: in_tri.color });
        return Ok(out);
    }

    let q1 = Vector4::intersects_plane(pl, &in_tri.p[1], &in_tri.p[0]);
    let q2 = Vector4::intersects_plane(pl, &in_tri.p[2], &in_tri.p[0]);
    proof {
        lemma_isect_bounds(*pl, in_tri@.p1, in_tri@.p0);
        lemma_isect_bounds(*pl, in_tri@.p2, in_tri@.p0);
        if gtri_vbound(in_tri@, MAX_COORD as int) {
            lemma_isect_value_bounded(*pl, in_tri@.p1, in_tri@.p0, MAX_COORD as int);
            lemma_isect_value_bounded(*pl, in_tri@.p2, in_tri@.p0, MAX_COORD as int);
        }
        assert forall|pl2: Plane, cc: int|
            cc >= 0 && gtri_wmargin(pl2, in_tri@, cc) implies {
            &&& signed_dist(pl2, isect(*pl, in_tri@.p1, in_tri@.p0))
                >= -cc * isect(*pl, in_tri@.p1, in_tri@.p0).w
            &&& signed_dist(pl2, isect(*pl, in_tri@.p2, in_tri@.p0))
                >= -cc * isect(*pl, in_tri@.p2, in_tri@.p0).w
        } by {
            lemma_isect_keeps_halfspace(pl2, *pl, in_tri@.p1, in_tri@.p0, cc);
            lemma_isect_keeps_halfspace(pl2, *pl, in_tri@.p2, in_tri@.p0, cc);
        }
    }
    out.push(Triangle { p: [in_tri.p[1], in_tri.p[2], q1], color: in_tri.color });
    out.push(Triangle { p: [in_tri.p[2], q1, q2], color: in_tri.color });
    Ok(out)
}

/// Law: a triangle that lies entirely inside the plane's kept half-space
/// is returned unchanged, vertices and color identical.
pub proof fn lemma_clip_all_inside(pl: Plane, t: GTri)
    requires
        gtri_inside(pl, t),
    ensures
        clip_expected(pl, t) =~= seq![t],
{
}

/// Law: a triangle that lies entirely outside the plane's kept half-space
/// is clipped away completely.
pub proof fn lemma_clip_all_outside(pl: Plane, t: GTri)
    requires
        !is_inside(pl, t.p0),
        !is_inside(pl, t.p1),
        !is_inside(pl, t.p2),
    ensures
        clip_expected(pl, t).len() == 0,
{
}

/// Law: with exactly one vertex inside, clipping returns exactly one
/// triangle; its first vertex is the surviving one, and its two new
/// vertices lie exactly on the plane (signed distance zero).
pub proof fn lemma_clip_one_inside(pl: Plane, t: GTri)
    requires
        gtri_wf(t),
        ({
            let n = (if is_inside(pl, t.p0) { 1int } else { 0int })
                + (if is_inside(pl, t.p1) { 1int } else { 0int })
                + (if is_inside(pl, t.p2) { 1int } else { 0int });
            n == 1
        }),
    ensures
        clip_expected(pl, t).len() == 1,
        signed_dist(pl, clip_expected(pl, t)[0].p1) == 0,
        signed_dist(pl, clip_expected(pl, t)[0].p2) == 0,
        is_inside(pl, clip_expected(pl, t)[0].p0),
        clip_expected(pl, t)[0].color == t.color,
{
    if is_inside(pl, t.p0) {
        lemma_isect_on_plane(pl, t.p0, t.p1);
        lemma_isect_on_plane(pl, t.p0, t.p2);
    } else if is_inside(pl, t.p1) {
        lemma_isect_on_plane(pl, t.p1, t.p0);
        lemma_isect_on_plane(pl, t.p1, t.p2);
    } else {
        lemma_isect_on_plane(pl, t.p2, t.p0);
        lemma_isect_on_plane(pl, t.p2, t.p1);
    }
}

/// Law: with exactly two vertices inside, clipping returns exactly two
/// triangles; they share their interpolated vertex (so the split leaves no
/// crack), their new vertices lie exactly on the plane, and their other
/// vertices are the two surviving input vertices.
pub proof fn lemma_clip_two_inside(pl: Plane, t: GTri)
    requires
        gtri_wf(t),
        ({
            let n = (if is_inside(pl, t.p0) { 1int } else { 0int })
                + (if is_inside(pl, t.p1) { 1int } else { 0int })
                + (if is_inside(pl, t.p2) { 1int } else { 0int });
            n == 2
        }),
    ensures
        clip_expected(pl, t).len() == 2,
        clip_expected(pl, t)[0].p2 == clip_expected(pl, t)[1].p1,
        signed_dist(pl, clip_expected(pl, t)[0].p2) == 0,
        signed_dist(pl, clip_expected(pl, t)[1].p2) == 0,
        is_inside(pl, clip_expected(pl, t)[0].p0),
        is_inside(pl, clip_expected(pl, t)[0].p1),
        is_inside(pl, clip_expected(pl, t)[1].p0),
        clip_expected(pl, t)[0].color == t.color,
        clip_expected(pl, t)[1].color == t.color,
{
    if is_inside(pl, t.p0) && is_inside(pl, t.p1) {
        lemma_isect_on_plane(pl, t.p0, t.p2);
        lemma_isect_on_plane(pl, t.p1, t.p2);
    } else if is_inside(pl, t.p0) && is_inside(pl, t.p2) {
        lemma_isect_on_plane(pl, t.p0, t.p1);
        lemma_isect_on_plane(pl, t.p2, t.p1);
    } else {
        lemma_isect_on_plane(pl, t.p1, t.p0);
        lemma_isect_on_plane(pl, t.p2, t.p0);
    }
}

/// One component of the cross product of the integer parts of two
/// homogeneous points.
pub open spec fn cross_x(a: GVec4, b: GVec4) -> int {
    a.y * b.z - a.z * b.y
}

/// See `cross_x`.
pub open spec fn cross_y(a: GVec4, b: GVec4) -> int {
    a.z * b.x - a.x * b.z
}

/// See `cross_x`.
pub open spec fn cross_z(a: GVec4, b: GVec4) -> int {
    a.x * b.y - a.y * b.x
}

/// One component of the numerator of a triangle's doubled vector area:
/// for affine vertices `a/a.w`, `b/b.w`, `c/c.w`, the doubled vector area
/// `(b - a) x (c - a)` equals `(va2_x, va2_y, va2_z) / va2_den`.
pub open spec fn va2_x(a: GVec4, b: GVec4, c: GVec4) -> int {
    cross_x(a, b) * c.w + cross_x(b, c) * a.w + cross_x(c, a) * b.w
}

/// See `va2_x`.
pub open spec fn va2_y(a: GVec4, b: GVec4, c: GVec4) -> int {
    cross_y(a, b) * c.w + cross_y(b, c) * a.w + cross_y(c, a) * b.w
}

/// See `va2_x`.
pub open spec fn va2_z(a: GVec4, b: GVec4, c: GVec4) -> int {
    cross_z(a, b) * c.w + cross_z(b, c) * a.w + cross_z(c, a) * b.w
}

/// Denominator of a triangle's doubled vector area.
pub open spec fn va2_den(a: GVec4, b: GVec4, c: GVec4) -> int {
    a.w * b.w * c.w
}

/// One cross-product component of three homogeneous points is a 3x3
/// determinant over rows of the matching coordinate pair and `w`; the
/// area law is proved through the determinant's multilinearity.
pub ghost struct Row3 {
    pub u: int,
    pub v: int,
    pub w: int,
}

/// The 3x3 determinant, grouped exactly as the `va2` components are.
pub open spec fn det3(a: Row3, b: Row3, c: Row3) -> int {
    (a.u * b.v - a.v * b.u) * c.w + (b.u * c.v - b.v * c.u) * a.w + (c.u * a.v - c.v * a.u) * b.w
}

/// The row of a homogeneous point for the x component of the cross
/// product (which reads the y and z coordinates).
pub open spec fn row_x(p: GVec4) -> Row3 {
    Row3 { u: p.y, v: p.z, w: p.w }
}

/// See `row_x`.
pub open spec fn row_y(p: GVec4) -> Row3 {
    Row3 { u: p.z, v: p.x, w: p.w }
}

/// See `row_x`.
pub open spec fn row_z(p: GVec4) -> Row3 {
    Row3 { u: p.x, v: p.y, w: p.w }
}

/// `t * (al*x - be*y) == al*(t*x) - be*(t*y)`.
proof fn lemma_mul_comb(t: int, al: int, x: int, be: int, y: int) by (nonlinear_arith)
    ensures
        t * (al * x - be * y) == al * (t * x) - be * (t * y),
{
}

/// `(al*x - be*y) * t == al*(x*t) - be*(y*t)`.
proof fn lemma_comb_mul(al: int, x: int, be: int, y: int, t: int) by (nonlinear_arith)
    ensures
        (al * x - be * y) * t == al * (x * t) - be * (y * t),
{
}

/// `t * (x - y) == t*x - t*y`.
proof fn lemma_mul_dist2(t: int, x: int, y: int) by (nonlinear_arith)
    ensures
        t * (x - y) == t * x - t * y,
{
}

/// `(x - y) * t == x*t - y*t`.
proof fn lemma_dist2_mul(x: int, y: int, t: int) by (nonlinear_arith)
    ensures
        (x - y) * t == x * t - y * t,
{
}

/// Middle factor substituted by a combination, one determinant group.
proof fn lemma_comb_pair_right(
    t1: int, t2: int, m: int, al: int, be: int, o1: int, o2: int, r1: int, r2: int,
)
    ensures
        (t1 * (al * o2 - be * r2) - t2 * (al * o1 - be * r1)) * m == al * ((t1 * o2 - t2 * o1)
            * m) - be * ((t1 * r2 - t2 * r1) * m),
{
    lemma_mul_comb(t1, al, o2, be, r2);
    lemma_mul_comb(t2, al, o1, be, r1);
    lemma_dist2_mul(t1 * (al * o2 - be * r2), t2 * (al * o1 - be * r1), m);
    lemma_comb_mul(al, t1 * o2, be, t1 * r2, m);
    lemma_comb_mul(al, t2 * o1, be, t2 * r1, m);
    lemma_dist2_mul(t1 * o2, t2 * o1, m);
    lemma_dist2_mul(t1 * r2, t2 * r1, m);
    lemma_mul_dist2(al, (t1 * o2) * m, (t2 * o1) * m);
    lemma_mul_dist2(be, (t1 * r2) * m, (t2 * r1) * m);
    assert((t1 * (al * o2 - be * r2)) * m == al * ((t1 * o2) * m) - be * ((t1 * r2) * m)) by {
        lemma_comb_mul(al, t1 * o2, be, t1 * r2, m);
    }
    assert((t2 * (al * o1 - be * r1)) * m == al * ((t2 * o1) * m) - be * ((t2 * r1) * m)) by {
        lemma_comb_mul(al, t2 * o1, be, t2 * r1, m);
    }
}

/// First factor substituted by a combination, one determinant group.
proof fn lemma_comb_pair_left(
    t1: int, t2: int, m: int, al: int, be: int, o1: int, o2: int, r1: int, r2: int,
)
    ensures
        ((al * o1 - be * r1) * t1 - (al * o2 - be * r2) * t2) * m == al * ((o1 * t1 - o2 * t2)
            * m) - be * ((r1 * t1 - r2 * t2) * m),
{
    lemma_comb_mul(al, o1, be, r1, t1);
    lemma_comb_mul(al, o2, be, r2, t2);
    lemma_dist2_mul((al * o1 - be * r1) * t1, (al * o2 - be * r2) * t2, m);
    lemma_dist2_mul(o1 * t1, o2 * t2, m);
    lemma_dist2_mul(r1 * t1, r2 * t2, m);
    lemma_mul_dist2(al, (o1 * t1) * m, (o2 * t2) * m);
    lemma_mul_dist2(be, (r1 * t1) * m, (r2 * t2) * m);
    assert(((al * o1 - be * r1) * t1) * m == al * ((o1 * t1) * m) - be * ((r1 * t1) * m)) by {
        lemma_comb_mul(al, o1 * t1, be, r1 * t1, m);
    }
    assert(((al * o2 - be * r2) * t2) * m == al * ((o2 * t2) * m) - be * ((r2 * t2) * m)) by {
        lemma_comb_mul(al, o2 * t2, be, r2 * t2, m);
    }
}

/// The determinant is linear in its third row.
proof fn lemma_det3_comb3(p: Row3, q: Row3, o: Row3, r: Row3, al: int, be: int)
    ensures
        det3(
            p,
            q,
            Row3 { u: al * o.u - be * r.u, v: al * o.v - be * r.v, w: al * o.w - be * r.w },
        ) == al * det3(p, q, o) - be * det3(p, q, r),
{
    let c = Row3 { u: al * o.u - be * r.u, v: al * o.v - be * r.v, w: al * o.w - be * r.w };
    assert((p.u * q.v - p.v * q.u) * c.w == al * ((p.u * q.v - p.v * q.u) * o.w) - be * ((p.u
        * q.v - p.v * q.u) * r.w)) by (nonlinear_arith)
        requires
            c.w == al * o.w - be * r.w,
    ;
    assert((q.u * c.v - q.v * c.u) * p.w == al * ((q.u * o.v - q.v * o.u) * p.w) - be * ((q.u
        * r.v - q.v * r.u) * p.w)) by {
        lemma_comb_pair_right(q.u, q.v, p.w, al, be, o.u, o.v, r.u, r.v);
    }
    assert((c.u * p.v - c.v * p.u) * q.w == al * ((o.u * p.v - o.v * p.u) * q.w) - be * ((r.u
        * p.v - r.v * p.u) * q.w)) by {
        lemma_comb_pair_left(p.v, p.u, q.w, al, be, o.u, o.v, r.u, r.v);
    }
    assert(al * det3(p, q, o) == al * ((p.u * q.v - p.v * q.u) * o.w) + al * ((q.u * o.v - q.v
        * o.u) * p.w) + al * ((o.u * p.v - o.v * p.u) * q.w)) by (nonlinear_arith)
        requires
            det3(p, q, o) == (p.u * q.v - p.v * q.u) * o.w + (q.u * o.v - q.v * o.u) * p.w + (o.u
                * p.v - o.v * p.u) * q.w,
    ;
    assert(be * det3(p, q, r) == be * ((p.u * q.v - p.v * q.u) * r.w) + be * ((q.u * r.v - q.v
        * r.u) * p.w) + be * ((r.u * p.v - r.v * p.u) * q.w)) by (nonlinear_arith)
        requires
            det3(p, q, r) == (p.u * q.v - p.v * q.u) * r.w + (q.u * r.v - q.v * r.u) * p.w + (r.u
                * p.v - r.v * p.u) * q.w,
    ;
}

/// The determinant is linear in its second row.
proof fn lemma_det3_comb2(p: Row3, o: Row3, r: Row3, al: int, be: int, c: Row3)
    ensures
        det3(
            p,
            Row3 { u: al * o.u - be * r.u, v: al * o.v - be * r.v, w: al * o.w - be * r.w },
            c,
        ) == al * det3(p, o, c) - be * det3(p, r, c),
{
    let q = Row3 { u: al * o.u - be * r.u, v: al * o.v - be * r.v, w: al * o.w - be * r.w };
    assert((p.u * q.v - p.v * q.u) * c.w == al * ((p.u * o.v - p.v * o.u) * c.w) - be * ((p.u
        * r.v - p.v * r.u) * c.w)) by {
        lemma_comb_pair_right(p.u, p.v, c.w, al, be, o.u, o.v, r.u, r.v);
    }
    assert((q.u * c.v - q.v * c.u) * p.w == al * ((o.u * c.v - o.v * c.u) * p.w) - be * ((r.u
        * c.v - r.v * c.u) * p.w)) by {
        lemma_comb_pair_left(c.v, c.u, p.w, al, be, o.u, o.v, r.u, r.v);
    }
    assert((c.u * p.v - c.v * p.u) * q.w == al * ((c.u * p.v - c.v * p.u) * o.w) - be * ((c.u
        * p.v - c.v * p.u) * r.w)) by (nonlinear_arith)
        requires
            q.w == al * o.w - be * r.w,
    ;
    assert(al * det3(p, o, c) == al * ((p.u * o.v - p.v * o.u) * c.w) + al * ((o.u * c.v - o.v
        * c.u) * p.w) + al * ((c.u * p.v - c.v * p.u) * o.w)) by (nonlinear_arith)
        requires
            det3(p, o, c) == (p.u * o.v - p.v * o.u) * c.w + (o.u * c.v - o.v * c.u) * p.w + (c.u
                * p.v - c.v * p.u) * o.w,
    ;
    assert(be * det3(p, r, c) == be * ((p.u * r.v - p.v * r.u) * c.w) + be * ((r.u * c.v - r.v
        * c.u) * p.w) + be * ((c.u * p.v - c.v * p.u) * r.w)) by (nonlinear_arith)
        requires
            det3(p, r, c) == (p.u * r.v - p.v * r.u) * c.w + (r.u * c.v - r.v * c.u) * p.w + (c.u
                * p.v - c.v * p.u) * r.w,
    ;
}

/// A determinant with a repeated row vanishes, and swapping two rows
/// flips its sign.
proof fn lemma_det3_alternating(p: Row3, q: Row3, r: Row3) by (nonlinear_arith)
    ensures
        det3(p, q, p) == 0,
        det3(p, q, q) == 0,
        det3(q, p, r) == -det3(p, q, r),
{
}

/// The area law for one cross-product component, over rows: with the two
/// interpolated rows written as the combinations the clipper builds, the
/// two output triangles (the second with opposite winding) carry the same
/// total doubled area as the two halves of the inside quadrilateral,
/// denominators cleared.
proof fn lemma_area_split_rows(i0: Row3, i1: Row3, o: Row3, a0: int, a1: int, b: int)
    requires
        i0.w == 1,
        i1.w == 1,
    ensures
        ({
            let f0 = Row3 { u: a0 * o.u - b * i0.u, v: a0 * o.v - b * i0.v, w: a0 * o.w - b
                * i0.w };
            let f1 = Row3 { u: a1 * o.u - b * i1.u, v: a1 * o.v - b * i1.v, w: a1 * o.w - b
                * i1.w };
            det3(i0, i1, f0) * (a1 * o.w - b * i1.w) - det3(i1, f0, f1) == det3(i0, i1, f1) * (a0
                * o.w - b * i0.w) + det3(i0, f1, f0)
        }),
{
    let f0 = Row3 { u: a0 * o.u - b * i0.u, v: a0 * o.v - b * i0.v, w: a0 * o.w - b * i0.w };
    let f1 = Row3 { u: a1 * o.u - b * i1.u, v: a1 * o.v - b * i1.v, w: a1 * o.w - b * i1.w };
    let k = det3(i0, i1, o);
    lemma_det3_comb3(i0, i1, o, i0, a0, b);
    lemma_det3_comb3(i0, i1, o, i1, a1, b);
    lemma_det3_alternating(i0, i1, o);
    assert(det3(i0, i1, f0) == a0 * k);
    assert(det3(i0, i1, f1) == a1 * k);
    lemma_det3_comb3(i1, f0, o, i1, a1, b);
    lemma_det3_comb2(i1, o, i0, a0, b, o);
    lemma_det3_alternating(i1, o, o);
    lemma_det3_alternating(i1, f0, o);
    lemma_det3_alternating(i0, i1, o);
    assert(det3(i1, i0, o) == -k);
    assert(det3(i1, f0, o) == a0 * det3(i1, o, o) - b * det3(i1, i0, o));
    assert(det3(i1, f0, f1) == a1 * det3(i1, f0, o) - b * det3(i1, f0, i1));
    assert(det3(i1, f0, i1) == 0) by {
        lemma_det3_comb2(i1, o, i0, a0, b, i1);
        lemma_det3_alternating(i1, o, i1);
        lemma_det3_alternating(i1, i0, i1);
        lemma_det3_alternating(i0, i1, i1);
    }
    assert(det3(i1, f0, f1) == a1 * (b * k)) by {
        assert(a1 * (a0 * 0 - b * (-k)) == a1 * (b * k)) by (nonlinear_arith);
    }
    lemma_det3_comb3(i0, f1, o, i0, a0, b);
    lemma_det3_comb2(i0, o, i1, a1, b, o);
    lemma_det3_alternating(i0, o, o);
    assert(det3(i0, f1, o) == a1 * det3(i0, o, o) - b * det3(i0, i1, o));
    assert(det3(i0, f1, i0) == 0) by {
        lemma_det3_comb2(i0, o, i1, a1, b, i0);
        lemma_det3_alternating(i0, o, i0);
        lemma_det3_alternating(i0, i1, i0);
    }
    assert(det3(i0, f1, f0) == a0 * (a1 * 0 - b * k) - b * 0);
    lemma_mul_comb(a0 * k, a1, o.w, b, i1.w);
    lemma_mul_comb(a1 * k, a0, o.w, b, i0.w);
    lemma_mul_comb(a0, a1, 0int, b, k);
    assert((a0 * k) * 1int == a0 * k) by (nonlinear_arith);
    assert((a1 * k) * 1int == a1 * k) by (nonlinear_arith);
    assert(a0 * 0int == 0int && b * 0int == 0int) by (nonlinear_arith);
    assert(a1 * ((a0 * k) * o.w) == a0 * ((a1 * k) * o.w)) by (nonlinear_arith);
    assert(a1 * (b * k) == b * (a1 * k)) by (nonlinear_arith);
    assert((a0 * k) * (a1 * o.w - b * i1.w) - a1 * (b * k) == (a1 * k) * (a0 * o.w - b * i0.w)
        + (a0 * (a1 * 0 - b * k) - b * 0));
}

/// Law: in the one-vertex-outside case the two output triangles tile the
/// inside region of the clipped triangle exactly. The inside region is
/// the quadrilateral `(i0, i1, f1, f0)` (the two kept vertices and the
/// two interpolated ones); split along its diagonal `i0`--`f1` it falls
/// into the triangles `(i0, i1, f1)` and `(i0, f1, f0)`. The identity is
/// stated per vector-area component over the exact homogeneous
/// coordinates, denominators cleared; the second output triangle winds
/// opposite to the first, so its area enters with a minus sign. Since all
/// four triangles lie in the clipped triangle's own plane, this says the
/// two output areas add up to the inside region's area. The law is for
/// affine kept and outside vertices (denominator 1): that is the form
/// every triangle has when it reaches a clip, and the cleared-denominator
/// equation below is specific to it.
pub proof fn lemma_clip_two_inside_area(pl: Plane, i0: GVec4, i1: GVec4, o: GVec4)
    requires
        i0.w == 1,
        i1.w == 1,
        o.w == 1,
        is_inside(pl, i0),
        is_inside(pl, i1),
        !is_inside(pl, o),
    ensures
        ({
            let f0 = isect(pl, i0, o);
            let f1 = isect(pl, i1, o);
            &&& f0.w > 0
            &&& f1.w > 0
            &&& va2_x(i0, i1, f0) * f1.w - va2_x(i1, f0, f1) == va2_x(i0, i1, f1) * f0.w
                + va2_x(i0, f1, f0)
            &&& va2_y(i0, i1, f0) * f1.w - va2_y(i1, f0, f1) == va2_y(i0, i1, f1) * f0.w
                + va2_y(i0, f1, f0)
            &&& va2_z(i0, i1, f0) * f1.w - va2_z(i1, f0, f1) == va2_z(i0, i1, f1) * f0.w
                + va2_z(i0, f1, f0)
        }),
{
    let a0 = signed_dist(pl, i0);
    let a1 = signed_dist(pl, i1);
    let b = signed_dist(pl, o);
    let f0 = isect(pl, i0, o);
    let f1 = isect(pl, i1, o);
    assert(a0 * 1 == a0 && a1 * 1 == a1 && b * 1 == b) by (nonlinear_arith);
    lemma_area_split_rows(row_x(i0), row_x(i1), row_x(o), a0, a1, b);
    lemma_area_split_rows(row_y(i0), row_y(i1), row_y(o), a0, a1, b);
    lemma_area_split_rows(row_z(i0), row_z(i1), row_z(o), a0, a1, b);
    assert(row_x(f0) == (Row3 {
        u: a0 * row_x(o).u - b * row_x(i0).u,
        v: a0 * row_x(o).v - b * row_x(i0).v,
        w: a0 * row_x(o).w - b * row_x(i0).w,
    }));
    assert(row_y(f0) == (Row3 {
        u: a0 * row_y(o).u - b * row_y(i0).u,
        v: a0 * row_y(o).v - b * row_y(i0).v,
        w: a0 * row_y(o).w - b * row_y(i0).w,
    }));
    assert(row_z(f0) == (Row3 {
        u: a0 * row_z(o).u - b * row_z(i0).u,
        v: a0 * row_z(o).v - b * row_z(i0).v,
        w: a0 * row_z(o).w - b * row_z(i0).w,
    }));
    assert(row_x(f1) == (Row3 {
        u: a1 * row_x(o).u - b * row_x(i1).u,
        v: a1 * row_x(o).v - b * row_x(i1).v,
        w: a1 * row_x(o).w - b * row_x(i1).w,
    }));
    assert(row_y(f1) == (Row3 {
        u: a1 * row_y(o).u - b * row_y(i1).u,
        v: a1 * row_y(o).v - b * row_y(i1).v,
        w: a1 * row_y(o).w - b * row_y(i1).w,
    }));
    assert(row_z(f1) == (Row3 {
        u: a1 * row_z(o).u - b * row_z(i1).u,
        v: a1 * row_z(o).v - b * row_z(i1).v,
        w: a1 * row_z(o).w - b * row_z(i1).w,
    }));
    assert(f0.w > 0 && f1.w > 0) by (nonlinear_arith)
        requires
            a0 >= 0,
            a1 >= 0,
            b < 0,
            f0.w == a0 * 1 - b * 1,
            f1.w == a1 * 1 - b * 1,
    ;
}


} // verus!
