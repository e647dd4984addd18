use vstd::prelude::*;

verus! {

/// All coordinates handed to the geometry pipeline (numerators as well as
/// denominators) must fit in this bound so that every intermediate product
/// of the exact clipping arithmetic fits comfortably in `i128`.
pub const MAX_COORD: i128 = 0x10_0000;

/// A point (or direction) with integer components, used for clipping planes:
/// a plane is given by an integer point on it and an integer normal.
#[derive(Clone, Copy, Debug, PartialEq, Eq, Structural)]
pub struct IVec3 {
    pub x: i64,
    pub y: i64,
    pub z: i64,
}

/// A clipping plane: the half-space of points `q` with
/// `dot(normal, q - point) >= 0` is kept.
///
/// The normal does not have to be normalized: the sign of the distance and
/// the position of the plane-segment intersection are invariant under
/// positive scaling of the normal, so working with the integer normal is
/// exact where normalizing first would not be.
#[derive(Clone, Copy, Debug, PartialEq, Eq, Structural)]
pub struct Plane {
    pub point: IVec3,
    pub normal: IVec3,
}

/// A homogeneous point: it stands for the rational position
/// `(x/w, y/w, z/w)` with `w > 0`. A plain position `(x, y, z)` is held as
/// `(x, y, z, 1)`; clipping produces points whose coordinates are exact
/// rationals, carried in the same four integers.
#[derive(Clone, Copy, Debug, PartialEq, Eq, Structural)]
pub struct Vector4 {
    pub x: i128,
    pub y: i128,
    pub z: i128,
    pub w: i128,
}

/// The mathematical value of a homogeneous point: four unbounded integers.
pub ghost struct GVec4 {
    pub x: int,
    pub y: int,
    pub z: int,
    pub w: int,
}

impl View for Vector4 {
    type V = GVec4;

    open spec fn view(&self) -> GVec4 {
        GVec4 { x: self.x as int, y: self.y as int, z: self.z as int, w: self.w as int }
    }
}

impl Vector4 {
    /// A plain position: homogeneous coordinate `w` defaults to 1.
    pub fn new(x: i128, y: i128, z: i128) -> (r: Vector4)
        ensures
            r@ == (GVec4 { x: x as int, y: y as int, z: z as int, w: 1int }),
    {
        Vector4 { x, y, z, w: 1 }
    }
}

/// Well-formed homogeneous point: positive denominator.
pub open spec fn wf_vec(v: GVec4) -> bool {
    v.w > 0
}

/// All four components bounded by `b` (and the denominator positive).
pub open spec fn vec_bounded(v: GVec4, b: int) -> bool {
    &&& -b <= v.x <= b
    &&& -b <= v.y <= b
    &&& -b <= v.z <= b
    &&& 0 < v.w <= b
}

/// The bound under which the clipping arithmetic is overflow-free.
pub open spec fn vec_small(v: GVec4) -> bool {
    vec_bounded(v, MAX_COORD as int)
}

/// Plane components bounded so that the distance form stays in range.
pub open spec fn plane_small(pl: Plane) -> bool {
    &&& -MAX_COORD <= pl.point.x <= MAX_COORD
    &&& -MAX_COORD <= pl.point.y <= MAX_COORD
    &&& -MAX_COORD <= pl.point.z <= MAX_COORD
    &&& -MAX_COORD <= pl.normal.x <= MAX_COORD
    &&& -MAX_COORD <= pl.normal.y <= MAX_COORD
    &&& -MAX_COORD <= pl.normal.z <= MAX_COORD
}

/// A zero normal carries no orientation; clipping rejects such a plane.
pub open spec fn normal_nonzero(pl: Plane) -> bool {
    pl.normal.x != 0 || pl.normal.y != 0 || pl.normal.z != 0
}

/// `dot(normal, point)` for the plane's own anchor point.
pub open spec fn plane_offset(pl: Plane) -> int {
    pl.normal.x * pl.point.x + pl.normal.y * pl.point.y + pl.normal.z * pl.point.z
}

/// The scaled signed distance from `v` to the plane: the true signed
/// distance `dot(n^, v/v.w - point)` (with `n^` the unit normal) multiplied
/// by the positive factor `v.w * |normal|`. The scaling keeps the value an
/// integer; the sign, and ratios of distances along a segment, are exactly
/// those of the true distance.
pub open spec fn signed_dist(pl: Plane, v: GVec4) -> int {
    pl.normal.x * v.x + pl.normal.y * v.y + pl.normal.z * v.z - plane_offset(pl) * v.w
}

/// A point is inside the plane's kept half-space when its signed distance
/// is nonnegative; points exactly on the plane count as inside.
pub open spec fn is_inside(pl: Plane, v: GVec4) -> bool {
    signed_dist(pl, v) >= 0
}

/// The exact intersection of segment `s`--`e` with the plane, as a
/// homogeneous point: with `a = signed_dist(pl, s)` and
/// `b = signed_dist(pl, e)`, the combination `a*e - b*s` of the two
/// four-tuples. For `a >= 0 > b` its denominator `a*e.w - b*s.w` is
/// positive, and it is the point at parameter `t = a/(a - b)` along the
/// segment, the exact value of the usual clipping formula.
pub open spec fn isect(pl: Plane, s: GVec4, e: GVec4) -> GVec4 {
    let a = signed_dist(pl, s);
    let b = signed_dist(pl, e);
    GVec4 {
        x: a * e.x - b * s.x,
        y: a * e.y - b * s.y,
        z: a * e.z - b * s.z,
        w: a * e.w - b * s.w,
    }
}

/// A triangle of three homogeneous vertices and one flat color. Triangles
/// are immutable values: every pipeline stage produces fresh ones.
#[derive(Clone, Copy, Debug, PartialEq)]
pub struct Triangle {
    pub p: [Vector4; 3],
    pub color: u32,
}

/// The mathematical value of a triangle.
pub ghost struct GTri {
    pub p0: GVec4,
    pub p1: GVec4,
    pub p2: GVec4,
    pub color: u32,
}

impl View for Triangle {
    type V = GTri;

    open spec fn view(&self) -> GTri {
        GTri { p0: self.p[0]@, p1: self.p[1]@, p2: self.p[2]@, color: self.color }
    }
}

impl Triangle {
    /// A triangle from three vertices; `new` keeps the vertex order given.
    pub fn new(p0: Vector4, p1: Vector4, p2: Vector4, color: u32) -> (r: Triangle)
        ensures
            r@ == (GTri { p0: p0@, p1: p1@, p2: p2@, color }),
    {
        Triangle { p: [p0, p1, p2], color }
    }
}

/// All three vertices well-formed.
pub open spec fn gtri_wf(t: GTri) -> bool {
    wf_vec(t.p0) && wf_vec(t.p1) && wf_vec(t.p2)
}

/// All three vertices bounded by `b`.
pub open spec fn gtri_bounded(t: GTri, b: int) -> bool {
    vec_bounded(t.p0, b) && vec_bounded(t.p1, b) && vec_bounded(t.p2, b)
}

/// All three vertices within the overflow-free bound.
pub open spec fn gtri_small(t: GTri) -> bool {
    vec_small(t.p0) && vec_small(t.p1) && vec_small(t.p2)
}

/// All three vertices inside the plane's kept half-space.
pub open spec fn gtri_inside(pl: Plane, t: GTri) -> bool {
    is_inside(pl, t.p0) && is_inside(pl, t.p1) && is_inside(pl, t.p2)
}

/// Position (not representation) bounded by `m`: each rational coordinate
/// of the point lies in `[-m, m]`, stated multiplied through by `w`.
pub open spec fn vec_vbound(v: GVec4, m: int) -> bool {
    &&& -m * v.w <= v.x <= m * v.w
    &&& -m * v.w <= v.y <= m * v.w
    &&& -m * v.w <= v.z <= m * v.w
}

/// All three vertex positions within the `[-m, m]` box.
pub open spec fn gtri_vbound(t: GTri, m: int) -> bool {
    vec_vbound(t.p0, m) && vec_vbound(t.p1, m) && vec_vbound(t.p2, m)
}

/// Every vertex at scaled signed distance at least `-c` times its own
/// denominator from the plane: a tolerance that clipping against other
/// planes keeps, because an intersection point is a convex combination of
/// its segment's endpoints.
pub open spec fn gtri_wmargin(pl: Plane, t: GTri, c: int) -> bool {
    &&& signed_dist(pl, t.p0) >= -c * t.p0.w
    &&& signed_dist(pl, t.p1) >= -c * t.p1.w
    &&& signed_dist(pl, t.p2) >= -c * t.p2.w
}

/// `n / d` truncated toward zero, for `d > 0`: the rounding of an integer
/// cast of a quotient.
pub open spec fn trunc_div(n: int, d: int) -> int {
    if n >= 0 {
        n / d
    } else {
        -((-n) / d)
    }
}

/// Truncating division stays inside a symmetric box around zero.
pub proof fn lemma_trunc_div_in_box(n: int, d: int, m: int)
    requires
        d > 0,
        m >= 0,
        -m * d <= n <= m * d,
    ensures
        -m <= trunc_div(n, d) <= m,
{
    assert((-m) * d == -(m * d)) by (nonlinear_arith);
    if n >= 0 {
        vstd::arithmetic::div_mod::lemma_fundamental_div_mod(n, d);
        vstd::arithmetic::div_mod::lemma_mod_bound(n, d);
        assert(0 <= n / d <= m) by (nonlinear_arith)
            requires
                d > 0,
                m >= 0,
                0 <= n <= m * d,
                n == d * (n / d) + (n % d),
                0 <= n % d < d,
        ;
    } else {
        vstd::arithmetic::div_mod::lemma_fundamental_div_mod(-n, d);
        vstd::arithmetic::div_mod::lemma_mod_bound(-n, d);
        assert(0 <= (-n) / d <= m) by (nonlinear_arith)
            requires
                d > 0,
                m >= 0,
                0 < -n <= m * d,
                -n == d * ((-n) / d) + ((-n) % d),
                0 <= (-n) % d < d,
        ;
    }
}

/// `|u * v| <= cu * cv` for `|u| <= cu`, `|v| <= cv`.
pub proof fn lemma_mul_bound(u: int, v: int, cu: int, cv: int) by (nonlinear_arith)
    requires
        -cu <= u <= cu,
        -cv <= v <= cv,
    ensures
        -(cu * cv) <= u * v <= cu * cv,
{
}

/// The signed-distance form is bounded by `4 * MAX_COORD^3` on small
/// points and small planes.
pub proof fn lemma_signed_dist_bound(pl: Plane, v: GVec4)
    requires
        plane_small(pl),
        vec_small(v),
    ensures
        -4 * MAX_COORD * MAX_COORD * MAX_COORD <= signed_dist(pl, v)
            <= 4 * MAX_COORD * MAX_COORD * MAX_COORD,
{
    let m = MAX_COORD as int;
    lemma_mul_bound(pl.normal.x as int, v.x, m, m);
    lemma_mul_bound(pl.normal.y as int, v.y, m, m);
    lemma_mul_bound(pl.normal.z as int, v.z, m, m);
    lemma_mul_bound(pl.normal.x as int, pl.point.x as int, m, m);
    lemma_mul_bound(pl.normal.y as int, pl.point.y as int, m, m);
    lemma_mul_bound(pl.normal.z as int, pl.point.z as int, m, m);
    lemma_mul_bound(plane_offset(pl), v.w, 3 * m * m, m);
    assert(3 * m * m * m + 3 * m * m * m == (3 * m * m) * m + (3 * m * m) * m)
        by (nonlinear_arith);
    assert(4 * m * m * m - 3 * m * m * m == m * m * m) by (nonlinear_arith);
    assert(m * m * m > 0) by (nonlinear_arith)
        requires
            m > 0,
    ;
}

/// Components of the exact intersection are bounded by `8 * MAX_COORD^4`
/// on small inputs, and its denominator is positive when the segment
/// straddles the plane.
pub proof fn lemma_isect_bounds(pl: Plane, s: GVec4, e: GVec4)
    requires
        plane_small(pl),
        vec_small(s),
        vec_small(e),
        signed_dist(pl, s) >= 0,
        signed_dist(pl, e) < 0,
    ensures
        ({
            let i = isect(pl, s, e);
            let ib = 8 * MAX_COORD * MAX_COORD * MAX_COORD * MAX_COORD;
            &&& -ib <= i.x <= ib
            &&& -ib <= i.y <= ib
            &&& -ib <= i.z <= ib
            &&& 0 < i.w <= ib
        }),
{
    let m = MAX_COORD as int;
    let a = signed_dist(pl, s);
    let b = signed_dist(pl, e);
    lemma_signed_dist_bound(pl, s);
    lemma_signed_dist_bound(pl, e);
    let sb = 4 * m * m * m;
    lemma_mul_bound(a, e.x, sb, m);
    lemma_mul_bound(b, s.x, sb, m);
    lemma_mul_bound(a, e.y, sb, m);
    lemma_mul_bound(b, s.y, sb, m);
    lemma_mul_bound(a, e.z, sb, m);
    lemma_mul_bound(b, s.z, sb, m);
    lemma_mul_bound(a, e.w, sb, m);
    lemma_mul_bound(b, s.w, sb, m);
    assert(sb * m + sb * m == 8 * m * m * m * m) by (nonlinear_arith)
        requires
            sb == 4 * m * m * m,
    ;
    assert(a * e.w - b * s.w > 0) by (nonlinear_arith)
        requires
            a >= 0,
            b < 0,
            s.w > 0,
            e.w > 0,
    ;
}

/// Distribution of a factor over the two-point combination.
proof fn lemma_distr(p: int, a: int, b: int, u: int, v: int) by (nonlinear_arith)
    ensures
        p * (a * u - b * v) == a * (p * u) - b * (p * v),
{
}

/// Distribution of a factor over the four-term distance form.
proof fn lemma_mul_form(a: int, u: int, v: int, w: int, y: int) by (nonlinear_arith)
    ensures
        a * (u + v + w - y) == a * u + a * v + a * w - a * y,
{
}

/// The signed distance of any plane `pl2` at the intersection point taken
/// against `pl` equals the same combination of the endpoint distances:
/// the signed-distance form is linear over homogeneous four-tuples.
pub proof fn lemma_signed_dist_at_isect(pl2: Plane, pl: Plane, s: GVec4, e: GVec4)
    ensures
        signed_dist(pl2, isect(pl, s, e))
            == signed_dist(pl, s) * signed_dist(pl2, e)
                - signed_dist(pl, e) * signed_dist(pl2, s),
{
    let a = signed_dist(pl, s);
    let b = signed_dist(pl, e);
    let nx = pl2.normal.x as int;
    let ny = pl2.normal.y as int;
    let nz = pl2.normal.z as int;
    let k = plane_offset(pl2);
    lemma_distr(nx, a, b, e.x, s.x);
    lemma_distr(ny, a, b, e.y, s.y);
    lemma_distr(nz, a, b, e.z, s.z);
    lemma_distr(k, a, b, e.w, s.w);
    lemma_mul_form(a, nx * e.x, ny * e.y, nz * e.z, k * e.w);
    lemma_mul_form(b, nx * s.x, ny * s.y, nz * s.z, k * s.w);
}

/// The intersection point lies exactly on the clipping plane.
pub proof fn lemma_isect_on_plane(pl: Plane, s: GVec4, e: GVec4)
    ensures
        signed_dist(pl, isect(pl, s, e)) == 0,
{
    lemma_signed_dist_at_isect(pl, pl, s, e);
    assert(signed_dist(pl, s) * signed_dist(pl, e) - signed_dist(pl, e) * signed_dist(pl, s)
        == 0) by (nonlinear_arith);
}

/// Clipping against one plane does not push a point out of any half-space
/// that both segment endpoints already satisfy, even with a margin: if both
/// endpoints have `pl2`-distance at least `-c` times their denominator,
/// so does the intersection point.
pub proof fn lemma_isect_keeps_halfspace(pl2: Plane, pl: Plane, s: GVec4, e: GVec4, c: int)
    requires
        wf_vec(s),
        wf_vec(e),
        signed_dist(pl, s) >= 0,
        signed_dist(pl, e) < 0,
        signed_dist(pl2, s) >= -c * s.w,
        signed_dist(pl2, e) >= -c * e.w,
        c >= 0,
    ensures
        signed_dist(pl2, isect(pl, s, e)) >= -c * isect(pl, s, e).w,
{
    lemma_signed_dist_at_isect(pl2, pl, s, e);
    let a = signed_dist(pl, s);
    let b = signed_dist(pl, e);
    assert(a * signed_dist(pl2, e) - b * signed_dist(pl2, s) >= -c * (a * e.w - b * s.w))
        by (nonlinear_arith)
        requires
            a >= 0,
            b < 0,
            s.w > 0,
            e.w > 0,
            c >= 0,
            signed_dist(pl2, s) >= -c * s.w,
            signed_dist(pl2, e) >= -c * e.w,
    ;
}

/// The intersection point's position stays within any coordinate box that
/// contains both endpoints: it is a convex combination of them.
pub proof fn lemma_isect_value_bounded(pl: Plane, s: GVec4, e: GVec4, m: int)
    requires
        wf_vec(s),
        wf_vec(e),
        signed_dist(pl, s) >= 0,
        signed_dist(pl, e) < 0,
        -m * s.w <= s.x <= m * s.w,
        -m * s.w <= s.y <= m * s.w,
        -m * s.w <= s.z <= m * s.w,
        -m * e.w <= e.x <= m * e.w,
        -m * e.w <= e.y <= m * e.w,
        -m * e.w <= e.z <= m * e.w,
        m >= 0,
    ensures
        ({
            let i = isect(pl, s, e);
            &&& -m * i.w <= i.x <= m * i.w
            &&& -m * i.w <= i.y <= m * i.w
            &&& -m * i.w <= i.z <= m * i.w
            &&& i.w > 0
        }),
{
    let a = signed_dist(pl, s);
    let b = signed_dist(pl, e);
    assert(a * e.w - b * s.w > 0) by (nonlinear_arith)
        requires
            a >= 0,
            b < 0,
            s.w > 0,
            e.w > 0,
    ;
    lemma_comb_bound(a, b, s.w, e.w, s.x, e.x, m);
    lemma_comb_bound(a, b, s.w, e.w, s.y, e.y, m);
    lemma_comb_bound(a, b, s.w, e.w, s.z, e.z, m);
}

/// One coordinate of the combination `a*e - b*s` stays within the box
/// `[-m, m]` (scaled by the denominators) that holds both endpoints.
proof fn lemma_comb_bound(a: int, b: int, sw: int, ew: int, sx: int, ex: int, m: int)
    by (nonlinear_arith)
    requires
        a >= 0,
        b < 0,
        sw > 0,
        ew > 0,
        m >= 0,
        -m * sw <= sx <= m * sw,
        -m * ew <= ex <= m * ew,
    ensures
        -m * (a * ew - b * sw) <= a * ex - b * sx <= m * (a * ew - b * sw),
{
}

} // verus!
