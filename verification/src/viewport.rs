use vstd::prelude::*;

use vstd::arithmetic::div_mod::{lemma_fundamental_div_mod, lemma_mod_bound};
use vstd::math::abs;

use crate::clip::{clip_against_plane, clip_bound, clip_expected};
use crate::geometry::{
    gtri_vbound, gtri_wmargin, normal_nonzero, signed_dist, vec_bounded, wf_vec, GTri, GVec4,
    IVec3, Plane, Triangle, Vector4, MAX_COORD,
};

verus! {

/// A rational coordinate `x / w` rounded to the nearest integer, with ties
/// rounded upward: `floor(x / w + 1/2)`.
pub open spec fn round_q(x: int, w: int) -> int {
    (2 * x + w) / (2 * w)
}

/// The rounded coordinate is within half a grid unit of the exact value:
/// `|round_q(x, w) - x/w| <= 1/2`, stated multiplied through by `2 * w`.
pub proof fn lemma_round_q_err(x: int, w: int)
    requires
        w > 0,
    ensures
        -w <= 2 * round_q(x, w) * w - 2 * x <= w,
{
    lemma_fundamental_div_mod(2 * x + w, 2 * w);
    lemma_mod_bound(2 * x + w, 2 * w);
    let q = round_q(x, w);
    assert(2 * w * q == 2 * q * w) by (nonlinear_arith);
}

/// Rounding keeps a coordinate box: a position in `[-m, m]` rounds into
/// `[-m, m]`.
pub proof fn lemma_round_q_in_box(x: int, w: int, m: int)
    requires
        w > 0,
        m >= 0,
        -m * w <= x <= m * w,
    ensures
        -m <= round_q(x, w) <= m,
{
    lemma_round_q_err(x, w);
    let q = round_q(x, w);
    assert(-m <= q <= m) by (nonlinear_arith)
        requires
            w > 0,
            m >= 0,
            -m * w <= x <= m * w,
            -w <= 2 * q * w - 2 * x <= w,
    ;
}

/// The raw arithmetic of grid rounding against a plane form: if each
/// rounded coordinate `r` is within half a unit of the exact one and the
/// exact point has form value at least `-c * w`, the rounded point's form
/// value is at least `-c` minus the L1 norm of the form's coefficients.
proof fn lemma_snap_sd_raw(
    nx: int, ny: int, nz: int, off: int, w: int,
    vx: int, vy: int, vz: int, rx: int, ry: int, rz: int,
    c: int, ax: int, ay: int, az: int,
)
    requires
        w > 0,
        c >= 0,
        -ax <= nx <= ax,
        -ay <= ny <= ay,
        -az <= nz <= az,
        -w <= 2 * rx * w - 2 * vx <= w,
        -w <= 2 * ry * w - 2 * vy <= w,
        -w <= 2 * rz * w - 2 * vz <= w,
        nx * vx + ny * vy + nz * vz - off * w >= -c * w,
    ensures
        nx * rx + ny * ry + nz * rz - off >= -c - ax - ay - az,
{
    lemma_snap_term(nx, ax, w, vx, rx);
    lemma_snap_term(ny, ay, w, vy, ry);
    lemma_snap_term(nz, az, w, vz, rz);
    assert((-c) * w == -(c * w)) by (nonlinear_arith);
    assert(nx * vx + ny * vy + nz * vz - off * w >= -(c * w));
    assert(2 * w * (nx * rx + ny * ry + nz * rz - off) >= -2 * (c * w) - ax * w - ay * w - az
        * w) by (nonlinear_arith)
        requires
            2 * ((nx * rx) * w) >= 2 * (nx * vx) - ax * w,
            2 * ((ny * ry) * w) >= 2 * (ny * vy) - ay * w,
            2 * ((nz * rz) * w) >= 2 * (nz * vz) - az * w,
            nx * vx + ny * vy + nz * vz - off * w >= -(c * w),
    ;
    lemma_snap_cancel(w, nx * rx + ny * ry + nz * rz - off, c, ax, ay, az);
}

/// One coefficient applied to a rounded coordinate moves by at most
/// `|coefficient| * w` (doubled scale).
proof fn lemma_snap_term(n: int, a: int, w: int, vx: int, rx: int) by (nonlinear_arith)
    requires
        w > 0,
        -a <= n <= a,
        -w <= 2 * rx * w - 2 * vx <= w,
    ensures
        2 * ((n * rx) * w) >= 2 * (n * vx) - a * w,
{
}

/// Cancelling the positive factor `w` out of the accumulated inequality.
proof fn lemma_snap_cancel(w: int, sdr: int, c: int, ax: int, ay: int, az: int)
    by (nonlinear_arith)
    requires
        w > 0,
        c >= 0,
        ax >= 0,
        ay >= 0,
        az >= 0,
        2 * w * sdr >= -2 * (c * w) - ax * w - ay * w - az * w,
    ensures
        sdr >= -c - ax - ay - az,
{
}

/// Rounding a point to the grid moves its scaled signed distance to any
/// plane by at most the L1 norm of the plane's normal: a point with
/// distance at least `-c` times its denominator rounds to a grid point
/// with distance at least `-c - |n|_1`.
pub proof fn lemma_snap_margin(pl: Plane, v: GVec4, r: GVec4, c: int)
    requires
        v.w > 0,
        c >= 0,
        r.w == 1,
        r.x == round_q(v.x, v.w),
        r.y == round_q(v.y, v.w),
        r.z == round_q(v.z, v.w),
        signed_dist(pl, v) >= -c * v.w,
    ensures
        signed_dist(pl, r) >= -c - abs(pl.normal.x as int) - abs(pl.normal.y as int) - abs(
            pl.normal.z as int,
        ),
{
    let w = v.w;
    let nx = pl.normal.x as int;
    let ny = pl.normal.y as int;
    let nz = pl.normal.z as int;
    let off = crate::geometry::plane_offset(pl);
    lemma_round_q_err(v.x, w);
    lemma_round_q_err(v.y, w);
    lemma_round_q_err(v.z, w);
    lemma_snap_sd_raw(
        nx, ny, nz, off, w,
        v.x, v.y, v.z, r.x, r.y, r.z,
        c, abs(nx) as int, abs(ny) as int, abs(nz) as int,
    );
}

/// Rounds a homogeneous point to the nearest integer grid point (ties
/// upward); the result has denominator 1.
pub fn snap_vertex(v: &Vector4) -> (r: Vector4)
    requires
        wf_vec(v@),
        vec_bounded(v@, clip_bound()),
    ensures
        r@.w == 1,
        r@.x == round_q(v@.x, v@.w),
        r@.y == round_q(v@.y, v@.w),
        r@.z == round_q(v@.z, v@.w),
{
    proof {
        lemma_round_q_err(v@.x, v@.w);
        lemma_round_q_err(v@.y, v@.w);
        lemma_round_q_err(v@.z, v@.w);
        let cb = clip_bound();
        assert(-2 * cb <= round_q(v@.x, v@.w) <= 2 * cb && -2 * cb <= round_q(v@.y, v@.w) <= 2
            * cb && -2 * cb <= round_q(v@.z, v@.w) <= 2 * cb) by (nonlinear_arith)
            requires
                0 < v@.w <= cb,
                cb > 0,
                -cb <= v@.x <= cb,
                -cb <= v@.y <= cb,
                -cb <= v@.z <= cb,
                -v@.w <= 2 * round_q(v@.x, v@.w) * v@.w - 2 * v@.x <= v@.w,
                -v@.w <= 2 * round_q(v@.y, v@.w) * v@.w - 2 * v@.y <= v@.w,
                -v@.w <= 2 * round_q(v@.z, v@.w) * v@.w - 2 * v@.z <= v@.w,
        ;
    }
    let d = 2 * v.w;
    let x = (2 * v.x + v.w).checked_div_euclid(d).unwrap();
    let y = (2 * v.y + v.w).checked_div_euclid(d).unwrap();
    let z = (2 * v.z + v.w).checked_div_euclid(d).unwrap();
    Vector4 { x, y, z, w: 1 }
}

/// A grid triangle: every vertex has denominator 1 and coordinates within
/// `[-b, b]`.
pub open spec fn vec_grid(v: GVec4, b: int) -> bool {
    v.w == 1 && -b <= v.x <= b && -b <= v.y <= b && -b <= v.z <= b
}

/// All three vertices on the grid within `[-b, b]`.
pub open spec fn gtri_grid(t: GTri, b: int) -> bool {
    vec_grid(t.p0, b) && vec_grid(t.p1, b) && vec_grid(t.p2, b)
}

/// The grid rounding of one homogeneous point, at spec level: each
/// coordinate rounded by `round_q`, denominator cleared to 1.
pub open spec fn snap_point(v: GVec4) -> GVec4 {
    GVec4 { x: round_q(v.x, v.w), y: round_q(v.y, v.w), z: round_q(v.z, v.w), w: 1 }
}

/// A triangle with every vertex snapped to the grid.
pub open spec fn snap_gtri(t: GTri) -> GTri {
    GTri { p0: snap_point(t.p0), p1: snap_point(t.p1), p2: snap_point(t.p2), color: t.color }
}

/// One worklist element processed against one plane: the exact clip
/// result with every vertex snapped back to the grid.
pub open spec fn clip_snap_one(pl: Plane, t: GTri) -> Seq<GTri> {
    clip_expected(pl, t).map_values(|u: GTri| snap_gtri(u))
}

/// One full plane pass over a worklist: every triangle replaced by its
/// clipped-and-snapped parts, in order, concatenated.
pub open spec fn clip_pass(pl: Plane, ts: Seq<GTri>) -> Seq<GTri>
    decreases ts.len(),
{
    if ts.len() == 0 {
        Seq::empty()
    } else {
        clip_snap_one(pl, ts[0]) + clip_pass(pl, ts.drop_first())
    }
}

/// The worklist after the first `k` planes have been processed.
pub open spec fn clip_passes(planes: Seq<Plane>, k: int, ts: Seq<GTri>) -> Seq<GTri>
    decreases k,
{
    if k <= 0 {
        ts
    } else {
        clip_pass(planes[k - 1], clip_passes(planes, k - 1, ts))
    }
}

/// The four viewport half-planes, in clipping order: top, bottom, left,
/// right, with the viewport bounds in grid units.
pub open spec fn viewport_planes(width: int, height: int, scale: int) -> Seq<Plane> {
    seq![
        Plane { point: IVec3 { x: 0, y: 0, z: 0 }, normal: IVec3 { x: 0, y: 1, z: 0 } },
        Plane {
            point: IVec3 { x: 0, y: ((height - 1) * scale) as i64, z: 0 },
            normal: IVec3 { x: 0, y: -1i64, z: 0 },
        },
        Plane { point: IVec3 { x: 0, y: 0, z: 0 }, normal: IVec3 { x: 1, y: 0, z: 0 } },
        Plane {
            point: IVec3 { x: ((width - 1) * scale) as i64, y: 0, z: 0 },
            normal: IVec3 { x: -1i64, y: 0, z: 0 },
        },
    ]
}

/// Exactly what the viewport pass returns for one triangle: the worklist
/// fold of the four edge planes, each step clipping exactly and snapping
/// the new vertices to the grid.
pub open spec fn viewport_result(t: GTri, width: int, height: int, scale: int) -> Seq<GTri> {
    clip_passes(viewport_planes(width, height, scale), 4, seq![t])
}

/// The executable list carries exactly the given mathematical triangles.
pub open spec fn views_match(ts: Seq<Triangle>, gs: Seq<GTri>) -> bool {
    ts.len() == gs.len() && (forall|i: int| 0 <= i < ts.len() ==> #[trigger] ts[i]@ == gs[i])
}

/// Processing a worklist extended by one triangle appends exactly that
/// triangle's clipped-and-snapped parts.
proof fn lemma_clip_pass_snoc(pl: Plane, s: Seq<GTri>, t: GTri)
    ensures
        clip_pass(pl, s.push(t)) == clip_pass(pl, s) + clip_snap_one(pl, t),
    decreases s.len(),
{
    if s.len() == 0 {
        assert(s.push(t)[0] == t);
        assert(s.push(t).drop_first() =~= s);
        assert(clip_pass(pl, s) == Seq::<GTri>::empty());
        assert(clip_pass(pl, s.push(t)) =~= clip_pass(pl, s) + clip_snap_one(pl, t));
    } else {
        assert(s.push(t)[0] == s[0]);
        assert(s.push(t).drop_first() =~= s.drop_first().push(t));
        lemma_clip_pass_snoc(pl, s.drop_first(), t);
        assert(clip_pass(pl, s.push(t)) == clip_snap_one(pl, s[0]) + clip_pass(
            pl,
            s.drop_first().push(t),
        ));
        assert(clip_snap_one(pl, s[0]) + (clip_pass(pl, s.drop_first()) + clip_snap_one(pl, t))
            =~= (clip_snap_one(pl, s[0]) + clip_pass(pl, s.drop_first())) + clip_snap_one(pl, t));
    }
}

/// A vertex within the screen box `[0, wmax] x [0, hmax]`, with the
/// tolerance of at most 4 grid units that grid rounding between the four
/// edge clips can introduce.
pub open spec fn in_screen_box(v: GVec4, wmax: int, hmax: int) -> bool {
    -4 <= v.x <= wmax + 4 && -4 <= v.y <= hmax + 4
}

/// Every vertex of `t` at signed distance at least `-c` from the plane.
pub open spec fn gtri_margin(pl: Plane, t: GTri, c: int) -> bool {
    &&& signed_dist(pl, t.p0) >= -c
    &&& signed_dist(pl, t.p1) >= -c
    &&& signed_dist(pl, t.p2) >= -c
}

/// Snapping is the identity on points that are already on the grid
/// (denominator 1): `round_q(x, 1) == x`.
pub proof fn lemma_snap_identity(t: GTri)
    requires
        t.p0.w == 1,
        t.p1.w == 1,
        t.p2.w == 1,
    ensures
        snap_gtri(t) == t,
{
    lemma_round_q_one(t.p0.x);
    lemma_round_q_one(t.p0.y);
    lemma_round_q_one(t.p0.z);
    lemma_round_q_one(t.p1.x);
    lemma_round_q_one(t.p1.y);
    lemma_round_q_one(t.p1.z);
    lemma_round_q_one(t.p2.x);
    lemma_round_q_one(t.p2.y);
    lemma_round_q_one(t.p2.z);
    assert(snap_point(t.p0) == t.p0);
    assert(snap_point(t.p1) == t.p1);
    assert(snap_point(t.p2) == t.p2);
}

/// `round_q(x, 1) == x`: an integer rounds to itself.
proof fn lemma_round_q_one(x: int)
    ensures
        round_q(x, 1) == x,
{
    vstd::arithmetic::div_mod::lemma_fundamental_div_mod_converse_div(2 * x + 1, 2, x, 1);
}

/// Law: a triangle already inside all four viewport half-planes passes
/// the whole viewport clip unchanged: clipping keeps it as it is, and
/// snapping its grid vertices is the identity.
pub proof fn lemma_viewport_inside_unchanged(t: GTri, width: int, height: int, scale: int)
    requires
        t.p0.w == 1,
        t.p1.w == 1,
        t.p2.w == 1,
        forall|j: int|
            0 <= j < 4 ==> crate::geometry::gtri_inside(
                #[trigger] viewport_planes(width, height, scale)[j],
                t,
            ),
    ensures
        viewport_result(t, width, height, scale) == seq![t],
{
    let ps = viewport_planes(width, height, scale);
    lemma_snap_identity(t);
    assert forall|j: int| 0 <= j < 4 implies #[trigger] clip_pass(ps[j], seq![t]) == seq![
        t,
    ] by {
        assert(clip_expected(ps[j], t) == seq![t]);
        assert(clip_snap_one(ps[j], t) =~= seq![snap_gtri(t)]);
        assert(seq![t][0] == t);
        assert(seq![t].drop_first() =~= Seq::<GTri>::empty());
        assert(clip_pass(ps[j], seq![t].drop_first()) == Seq::<GTri>::empty());
        assert(clip_pass(ps[j], seq![t]) =~= seq![t]);
    }
    assert(clip_passes(ps, 0, seq![t]) == seq![t]);
    assert(clip_passes(ps, 1, seq![t]) == seq![t]);
    assert(clip_passes(ps, 2, seq![t]) == seq![t]);
    assert(clip_passes(ps, 3, seq![t]) == seq![t]);
    assert(clip_passes(ps, 4, seq![t]) == seq![t]);
}

/// The screen box of a grid vertex follows from its four margins against
/// the concrete viewport planes, whose signed-distance forms reduce to
/// `y`, `h1 - y`, `x` and `w1 - x`.
proof fn lemma_box_from_margins(
    pl_t: Plane, pl_b: Plane, pl_l: Plane, pl_r: Plane, v: GVec4, w1: i64, h1: i64,
)
    requires
        v.w == 1,
        pl_t.normal == (IVec3 { x: 0, y: 1, z: 0 }),
        pl_t.point == (IVec3 { x: 0, y: 0, z: 0 }),
        pl_b.normal == (IVec3 { x: 0, y: -1i64, z: 0 }),
        pl_b.point == (IVec3 { x: 0, y: h1, z: 0 }),
        pl_l.normal == (IVec3 { x: 1, y: 0, z: 0 }),
        pl_l.point == (IVec3 { x: 0, y: 0, z: 0 }),
        pl_r.normal == (IVec3 { x: -1i64, y: 0, z: 0 }),
        pl_r.point == (IVec3 { x: w1, y: 0, z: 0 }),
        signed_dist(pl_t, v) >= -4,
        signed_dist(pl_b, v) >= -4,
        signed_dist(pl_l, v) >= -4,
        signed_dist(pl_r, v) >= -4,
    ensures
        -4 <= v.x <= w1 + 4,
        -4 <= v.y <= h1 + 4,
{
    assert(-4 <= v.y && v.y <= h1 + 4 && -4 <= v.x && v.x <= w1 + 4) by (nonlinear_arith)
        requires
            v.w == 1,
            0 * v.x + 1 * v.y + 0 * v.z - (0 * 0 + 1 * 0 + 0 * 0) * v.w >= -4,
            0 * v.x + (-1) * v.y + 0 * v.z - (0 * 0 + (-1) * (h1 as int) + 0 * 0) * v.w >= -4,
            1 * v.x + 0 * v.y + 0 * v.z - (1 * 0 + 0 * 0 + 0 * 0) * v.w >= -4,
            (-1) * v.x + 0 * v.y + 0 * v.z - ((-1) * (w1 as int) + 0 * 0 + 0 * 0) * v.w >= -4,
    ;
}

/// One clipped vertex, after snapping to the grid: it stays in the
/// coordinate box, sits at distance at least `-1` from the plane just
/// clipped against, and loses at most one unit of margin against each
/// earlier plane (all four viewport planes have unit-L1 normals).
proof fn lemma_viewport_snapped_vertex(planes: Seq<Plane>, v: GVec4, s: GVec4, k: int)
    requires
        0 <= k < planes.len(),
        v.w > 0,
        s.w == 1,
        s.x == round_q(v.x, v.w),
        s.y == round_q(v.y, v.w),
        s.z == round_q(v.z, v.w),
        crate::geometry::vec_vbound(v, MAX_COORD as int),
        forall|j: int|
            0 <= j <= k ==> abs((#[trigger] planes[j]).normal.x as int) + abs(
                planes[j].normal.y as int,
            ) + abs(planes[j].normal.z as int) == 1,
        signed_dist(planes[k], v) >= 0,
        forall|j: int| 0 <= j < k ==> #[trigger] signed_dist(planes[j], v) >= -(k - j) * v.w,
    ensures
        vec_grid(s, MAX_COORD as int),
        forall|j: int| 0 <= j <= k ==> #[trigger] signed_dist(planes[j], s) >= -(k + 1 - j),
{
    lemma_round_q_in_box(v.x, v.w, MAX_COORD as int);
    lemma_round_q_in_box(v.y, v.w, MAX_COORD as int);
    lemma_round_q_in_box(v.z, v.w, MAX_COORD as int);
    assert forall|j: int| 0 <= j <= k implies #[trigger] signed_dist(planes[j], s) >= -(k + 1
        - j) by {
        if j == k {
            assert(signed_dist(planes[j], v) >= -0 * v.w) by (nonlinear_arith)
                requires
                    signed_dist(planes[j], v) >= 0,
            ;
            lemma_snap_margin(planes[j], v, s, 0);
        } else {
            lemma_snap_margin(planes[j], v, s, k - j);
        }
    }
}

/// Clips one screen-space triangle against the four viewport edges, as a
/// worklist: the triangle is clipped against the top, bottom, left and
/// right half-planes in that order, each plane replacing the list with the
/// concatenation of its results. Coordinates are on an integer grid of
/// `scale` units per pixel; after each plane the exact rational vertices
/// are rounded back to the grid, so each surviving vertex sits within 4
/// grid units (half a pixel for `scale >= 8`) of the viewport.
///
/// The result is pinned exactly: it is `viewport_result`, the fold of the
/// four planes over the worklist, each step clipping by `clip_expected`
/// and snapping the vertices by `round_q`. In particular a triangle
/// already inside the viewport comes back unchanged
/// (`lemma_viewport_inside_unchanged`), and one entirely outside comes
/// back as nothing.
#[verifier::loop_isolation(false)]
#[verifier::rlimit(100)]
pub fn clip_to_viewport(tri: &Triangle, width: usize, height: usize, scale: i64) -> (r: Vec<
    Triangle,
>)
    requires
        1 <= width,
        1 <= height,
        1 <= scale,
        width * scale <= MAX_COORD,
        height * scale <= MAX_COORD,
        gtri_grid(tri@, MAX_COORD as int),
    ensures
        views_match(r@, viewport_result(tri@, width as int, height as int, scale as int)),
        r@.len() <= 16,
        forall|i: int|
            0 <= i < r@.len() ==> {
                &&& gtri_grid(#[trigger] r@[i]@, MAX_COORD as int)
                &&& r@[i]@.color == tri@.color
                &&& in_screen_box(r@[i]@.p0, (width - 1) * scale, (height - 1) * scale)
                &&& in_screen_box(r@[i]@.p1, (width - 1) * scale, (height - 1) * scale)
                &&& in_screen_box(r@[i]@.p2, (width - 1) * scale, (height - 1) * scale)
            },
{
    proof {
        assert(width <= MAX_COORD && height <= MAX_COORD && (width - 1) * scale >= 0 && (height
            - 1) * scale >= 0 && (width - 1) * scale <= width * scale - 1 && (height - 1) * scale
            <= height * scale - 1) by (nonlinear_arith)
            requires
                1 <= width,
                1 <= height,
                1 <= scale,
                width * scale <= MAX_COORD,
                height * scale <= MAX_COORD,
        ;
    }
    let w1 = ((width - 1) as i64) * scale;
    let h1 = ((height - 1) as i64) * scale;
    let planes: [Plane; 4] = [
        Plane { point: IVec3 { x: 0, y: 0, z: 0 }, normal: IVec3 { x: 0, y: 1, z: 0 } },
        Plane { point: IVec3 { x: 0, y: h1, z: 0 }, normal: IVec3 { x: 0, y: -1, z: 0 } },
        Plane { point: IVec3 { x: 0, y: 0, z: 0 }, normal: IVec3 { x: 1, y: 0, z: 0 } },
        Plane { point: IVec3 { x: w1, y: 0, z: 0 }, normal: IVec3 { x: -1, y: 0, z: 0 } },
    ];

    proof {
        assert(planes@ =~= viewport_planes(width as int, height as int, scale as int));
        assert forall|j: int| 0 <= j < 4 implies normal_nonzero(#[trigger] planes@[j]) by {
            if j == 0 {
                assert(planes@[j].normal.y == 1);
            } else if j == 1 {
                assert(planes@[j].normal.y == -1);
            } else if j == 2 {
                assert(planes@[j].normal.x == 1);
            } else {
                assert(planes@[j].normal.x == -1);
            }
        }
        assert forall|j: int| 0 <= j < 4 implies abs((#[trigger] planes@[j]).normal.x as int)
            + abs(planes@[j].normal.y as int) + abs(planes@[j].normal.z as int) == 1 by {
            if j == 0 {
                assert(abs(0int) == 0 && abs(1int) == 1);
            } else if j == 1 {
                assert(abs(0int) == 0 && abs(-1int) == 1);
            } else if j == 2 {
                assert(abs(0int) == 0 && abs(1int) == 1);
            } else {
                assert(abs(0int) == 0 && abs(-1int) == 1);
            }
        }
    }

    let mut list: Vec<Triangle> = Vec::new();
    list.push(*tri);
    proof {
        assert(clip_passes(planes@, 0, seq![tri@]) == seq![tri@]);
        assert(list@[0]@ == tri@);
    }

    let mut k: usize = 0;
    while k < 4
        invariant
            k <= 4,
            views_match(list@, clip_passes(planes@, k as int, seq![tri@])),
            list@.len() <= seq![1int, 2, 4, 8, 16][k as int],
            forall|t: int|
                0 <= t < list@.len() ==> gtri_grid(#[trigger] list@[t]@, MAX_COORD as int),
            forall|t: int| 0 <= t < list@.len() ==> (#[trigger] list@[t]@).color == tri@.color,
            forall|t: int, j: int|
                0 <= t < list@.len() && 0 <= j < k ==> gtri_margin(
                    #[trigger] planes@[j],
                    #[trigger] list@[t]@,
                    k - j,
                ),
        decreases 4 - k,
    {
        let mut next: Vec<Triangle> = Vec::new();
        proof {
            let fold_k = clip_passes(planes@, k as int, seq![tri@]);
            assert(fold_k.take(0) =~= Seq::<GTri>::empty());
            assert(clip_pass(planes@[k as int], fold_k.take(0)) == Seq::<GTri>::empty());
        }
        let mut i: usize = 0;
        while i < list.len()
            invariant
                i <= list@.len(),
                views_match(
                    next@,
                    clip_pass(
                        planes@[k as int],
                        clip_passes(planes@, k as int, seq![tri@]).take(i as int),
                    ),
                ),
                next@.len() <= 2 * i,
                forall|t: int|
                    0 <= t < next@.len() ==> gtri_grid(#[trigger] next@[t]@, MAX_COORD as int),
                forall|t: int|
                    0 <= t < next@.len() ==> (#[trigger] next@[t]@).color == tri@.color,
                forall|t: int, j: int|
                    0 <= t < next@.len() && 0 <= j <= k ==> gtri_margin(
                        #[trigger] planes@[j],
                        #[trigger] next@[t]@,
                        k + 1 - j,
                    ),
            decreases list@.len() - i,
        {
            let cur = list[i];
            proof {
                assert(gtri_vbound(cur@, MAX_COORD as int)) by (nonlinear_arith)
                    requires
                        gtri_grid(cur@, MAX_COORD as int),
                ;
                assert forall|j: int| 0 <= j < k implies gtri_wmargin(
                    #[trigger] planes@[j],
                    cur@,
                    k - j,
                ) by {
                    assert((-((k - j) as int)) * 1int == -((k - j) as int)) by (nonlinear_arith);
                }
            }
            match clip_against_plane(&planes[k], &cur) {
                Ok(ts) => {
                    proof {
                        let gone = clip_snap_one(planes@[k as int], cur@);
                        assert(gone.take(0) =~= Seq::<GTri>::empty());
                        assert(clip_pass(
                            planes@[k as int],
                            clip_passes(planes@, k as int, seq![tri@]).take(i as int),
                        ) + gone.take(0) =~= clip_pass(
                            planes@[k as int],
                            clip_passes(planes@, k as int, seq![tri@]).take(i as int),
                        ));
                    }
                    let mut j: usize = 0;
                    while j < ts.len()
                        invariant
                            j <= ts@.len(),
                            ts@.len() == clip_snap_one(planes@[k as int], cur@).len(),
                            views_match(
                                next@,
                                clip_pass(
                                    planes@[k as int],
                                    clip_passes(planes@, k as int, seq![tri@]).take(i as int),
                                ) + clip_snap_one(planes@[k as int], cur@).take(j as int),
                            ),
                            next@.len() <= 2 * i + j,
                            forall|t: int|
                                0 <= t < next@.len() ==> gtri_grid(
                                    #[trigger] next@[t]@,
                                    MAX_COORD as int,
                                ),
                            forall|t: int|
                                0 <= t < next@.len() ==> (#[trigger] next@[t]@).color
                                    == tri@.color,
                            forall|t: int, jj: int|
                                0 <= t < next@.len() && 0 <= jj <= k ==> gtri_margin(
                                    #[trigger] planes@[jj],
                                    #[trigger] next@[t]@,
                                    k + 1 - jj,
                                ),
                        decreases ts@.len() - j,
                    {
                        let t = ts[j];
                        proof {
                            assert(t@ == ts@[j as int]@);
                        }
                        let s0 = snap_vertex(&t.p[0]);
                        let s1 = snap_vertex(&t.p[1]);
                        let s2 = snap_vertex(&t.p[2]);
                        proof {
                            assert forall|jj: int| 0 <= jj < k implies gtri_wmargin(
                                planes@[jj],
                                t@,
                                k - jj,
                            ) by {}
                            lemma_viewport_snapped_vertex(planes@, t@.p0, s0@, k as int);
                            lemma_viewport_snapped_vertex(planes@, t@.p1, s1@, k as int);
                            lemma_viewport_snapped_vertex(planes@, t@.p2, s2@, k as int);
                            let gone = clip_snap_one(planes@[k as int], cur@);
                            let head = clip_pass(
                                planes@[k as int],
                                clip_passes(planes@, k as int, seq![tri@]).take(i as int),
                            );
                            assert(s0@ == snap_point(t@.p0));
                            assert(s1@ == snap_point(t@.p1));
                            assert(s2@ == snap_point(t@.p2));
                            assert(gone[j as int] == snap_gtri(ts@[j as int]@));
                            assert(gone.take(j + 1) =~= gone.take(j as int).push(
                                gone[j as int],
                            ));
                            assert(head + gone.take(j + 1) =~= (head + gone.take(j as int)).push(
                                gone[j as int],
                            ));
                        }
                        next.push(Triangle { p: [s0, s1, s2], color: t.color });
                        proof {
                            assert(next@[next@.len() - 1]@ == snap_gtri(ts@[j as int]@));
                        }
                        j += 1;
                    }
                    proof {
                        let pl = planes@[k as int];
                        let fold_k = clip_passes(planes@, k as int, seq![tri@]);
                        let gone = clip_snap_one(pl, cur@);
                        assert(gone.take(gone.len() as int) =~= gone);
                        lemma_clip_pass_snoc(pl, fold_k.take(i as int), cur@);
                        assert(fold_k[i as int] == cur@);
                        assert(fold_k.take(i + 1) =~= fold_k.take(i as int).push(cur@));
                    }
                },
                Err(_) => {
                    proof {
                        assert(false);
                    }
                },
            }
            i += 1;
        }
        proof {
            let fold_k = clip_passes(planes@, k as int, seq![tri@]);
            assert(fold_k.take(fold_k.len() as int) =~= fold_k);
            assert(clip_passes(planes@, k + 1, seq![tri@]) == clip_pass(
                planes@[k as int],
                fold_k,
            ));
        }
        list = next;
        k += 1;
    }
    proof {
        assert(views_match(
            list@,
            viewport_result(tri@, width as int, height as int, scale as int),
        ));
        assert forall|t: int| 0 <= t < list@.len() implies {
            &&& in_screen_box(#[trigger] list@[t]@.p0, (width - 1) * scale, (height - 1) * scale)
            &&& in_screen_box(list@[t]@.p1, (width - 1) * scale, (height - 1) * scale)
            &&& in_screen_box(list@[t]@.p2, (width - 1) * scale, (height - 1) * scale)
        } by {
            assert(gtri_margin(planes@[0], list@[t]@, 4 - 0));
            assert(gtri_margin(planes@[1], list@[t]@, 4 - 1));
            assert(gtri_margin(planes@[2], list@[t]@, 4 - 2));
            assert(gtri_margin(planes@[3], list@[t]@, 4 - 3));
            lemma_box_from_margins(
                planes@[0], planes@[1], planes@[2], planes@[3], list@[t]@.p0, w1, h1,
            );
            lemma_box_from_margins(
                planes@[0], planes@[1], planes@[2], planes@[3], list@[t]@.p1, w1, h1,
            );
            lemma_box_from_margins(
                planes@[0], planes@[1], planes@[2], planes@[3], list@[t]@.p2, w1, h1,
            );
        }
    }
    list
}

} // verus!
