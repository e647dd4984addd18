use vstd::prelude::*;

use vstd::seq_lib::group_to_multiset_ensures;

use crate::geometry::{gtri_small, lemma_mul_bound, GTri, Triangle, MAX_COORD};

verus! {

/// An exact fraction: the mean depth of a triangle is a rational number,
/// carried as numerator and positive denominator.
#[derive(Clone, Copy, Debug, PartialEq, Eq, Structural)]
pub struct Frac {
    pub num: i128,
    pub den: i128,
}

/// Numerator of the mean z of a triangle's three vertices, over the
/// common denominator `az_den`.
pub open spec fn az_num(t: GTri) -> int {
    t.p0.z * t.p1.w * t.p2.w + t.p1.z * t.p0.w * t.p2.w + t.p2.z * t.p0.w * t.p1.w
}

/// Denominator of the mean z: three times the product of the vertex
/// denominators; positive for well-formed triangles.
pub open spec fn az_den(t: GTri) -> int {
    3 * (t.p0.w * t.p1.w * t.p2.w)
}

/// Triangle `a` is at least as deep as `b`: its exact mean z is at least
/// `b`'s, compared by cross multiplication of the two fractions. On exact
/// rationals this is a total order, so the incomparable case the original
/// floating-point sort had to absorb cannot arise.
pub open spec fn depth_ge(a: GTri, b: GTri) -> bool {
    az_num(a) * az_den(b) >= az_num(b) * az_den(a)
}

/// Bounds for the mean-depth arithmetic on small triangles.
proof fn lemma_az_bounds(t: GTri)
    requires
        gtri_small(t),
    ensures
        -3 * MAX_COORD * MAX_COORD * MAX_COORD <= az_num(t) <= 3 * MAX_COORD * MAX_COORD
            * MAX_COORD,
        0 < az_den(t) <= 3 * MAX_COORD * MAX_COORD * MAX_COORD,
{
    let m = MAX_COORD as int;
    lemma_mul_bound(t.p0.z, t.p1.w, m, m);
    lemma_mul_bound(t.p0.z * t.p1.w, t.p2.w, m * m, m);
    lemma_mul_bound(t.p1.z, t.p0.w, m, m);
    lemma_mul_bound(t.p1.z * t.p0.w, t.p2.w, m * m, m);
    lemma_mul_bound(t.p2.z, t.p0.w, m, m);
    lemma_mul_bound(t.p2.z * t.p0.w, t.p1.w, m * m, m);
    assert(0 < t.p0.w * t.p1.w * t.p2.w <= m * m * m) by (nonlinear_arith)
        requires
            0 < t.p0.w <= m,
            0 < t.p1.w <= m,
            0 < t.p2.w <= m,
    ;
}

impl Triangle {
    /// The mean depth of the triangle: the exact average of its three
    /// vertices' z coordinates, as a fraction.
    pub fn average_z(&self) -> (r: Frac)
        requires
            gtri_small(self@),
        ensures
            r.num == az_num(self@),
            r.den == az_den(self@),
            r.den > 0,
    {
        proof {
            lemma_az_bounds(self@);
            let m = MAX_COORD as int;
            lemma_mul_bound(self@.p0.z, self@.p1.w, m, m);
            lemma_mul_bound(self@.p0.z * self@.p1.w, self@.p2.w, m * m, m);
            lemma_mul_bound(self@.p1.z, self@.p0.w, m, m);
            lemma_mul_bound(self@.p1.z * self@.p0.w, self@.p2.w, m * m, m);
            lemma_mul_bound(self@.p2.z, self@.p0.w, m, m);
            lemma_mul_bound(self@.p2.z * self@.p0.w, self@.p1.w, m * m, m);
            lemma_mul_bound(self@.p0.w, self@.p1.w, m, m);
            lemma_mul_bound(self@.p0.w * self@.p1.w, self@.p2.w, m * m, m);
        }
        let num = self.p[0].z * self.p[1].w * self.p[2].w + self.p[1].z * self.p[0].w
            * self.p[2].w + self.p[2].z * self.p[0].w * self.p[1].w;
        let den = 3 * (self.p[0].w * self.p[1].w * self.p[2].w);
        Frac { num, den }
    }
}

/// Compares two triangles by exact mean depth.
fn depth_ge_exec(a: &Triangle, b: &Triangle) -> (r: bool)
    requires
        gtri_small(a@),
        gtri_small(b@),
    ensures
        r == depth_ge(a@, b@),
{
    let fa = a.average_z();
    let fb = b.average_z();
    proof {
        let m = MAX_COORD as int;
        lemma_az_bounds(a@);
        lemma_az_bounds(b@);
        assert(3 * m * m * m == 0x3000_0000_0000_0000) by (nonlinear_arith)
            requires
                m == 0x10_0000,
        ;
        lemma_mul_bound(
            az_num(a@),
            az_den(b@),
            0x3000_0000_0000_0000,
            0x3000_0000_0000_0000,
        );
        lemma_mul_bound(
            az_num(b@),
            az_den(a@),
            0x3000_0000_0000_0000,
            0x3000_0000_0000_0000,
        );
        assert(0x3000_0000_0000_0000int * 0x3000_0000_0000_0000 < 0x4000_0000_0000_0000_0000_0000_0000_0000int)
            by (nonlinear_arith);
    }
    fa.num * fb.den >= fb.num * fa.den
}

/// Transitivity of the exact depth order.
proof fn lemma_depth_ge_trans(a: GTri, b: GTri, c: GTri)
    requires
        az_den(a) > 0,
        az_den(b) > 0,
        az_den(c) > 0,
        depth_ge(a, b),
        depth_ge(b, c),
    ensures
        depth_ge(a, c),
{
    assert(az_num(a) * az_den(c) >= az_num(c) * az_den(a)) by (nonlinear_arith)
        requires
            az_den(a) > 0,
            az_den(b) > 0,
            az_den(c) > 0,
            az_num(a) * az_den(b) >= az_num(b) * az_den(a),
            az_num(b) * az_den(c) >= az_num(c) * az_den(b),
    ;
}

/// Inserting an element anywhere adds exactly it to the sequence's
/// multiset.
proof fn lemma_insert_to_multiset(s: Seq<Triangle>, i: int, v: Triangle)
    requires
        0 <= i <= s.len(),
    ensures
        s.insert(i, v).to_multiset() =~= s.to_multiset().insert(v),
{
    broadcast use group_to_multiset_ensures;

    let s2 = s.insert(i, v);
    assert(s2[i] == v);
    assert(s2.remove(i) =~= s);
    assert(s2.remove(i).to_multiset() =~= s2.to_multiset().remove(v));
    assert(s2.to_multiset().contains(v));
    assert(s2.to_multiset().remove(v).insert(v) =~= s2.to_multiset());
}

/// Sorts the triangle list by mean depth, farthest first: the painter's
/// algorithm draws back to front. The sort is a stable insertion sort: it
/// keeps the list's multiset of triangles and leaves it ordered by
/// descending exact mean z.
#[verifier::loop_isolation(false)]
pub fn sort_by_depth(tris: &mut Vec<Triangle>)
    requires
        forall|i: int| 0 <= i < old(tris)@.len() ==> gtri_small(#[trigger] old(tris)@[i]@),
    ensures
        final(tris)@.len() == old(tris)@.len(),
        final(tris)@.to_multiset() == old(tris)@.to_multiset(),
        forall|i: int, j: int|
            0 <= i <= j < final(tris)@.len() ==> depth_ge(
                #[trigger] final(tris)@[i]@,
                #[trigger] final(tris)@[j]@,
            ),
        forall|i: int| 0 <= i < final(tris)@.len() ==> gtri_small(#[trigger] final(tris)@[i]@),
{
    let mut i: usize = 1;
    while i < tris.len()
        invariant
            1 <= i,
            i <= tris@.len() || tris@.len() == 0,
            tris@.len() == old(tris)@.len(),
            tris@.to_multiset() == old(tris)@.to_multiset(),
            forall|k: int| 0 <= k < tris@.len() ==> gtri_small(#[trigger] tris@[k]@),
            forall|k: int, l: int|
                0 <= k <= l < i && l < tris@.len() ==> depth_ge(
                    #[trigger] tris@[k]@,
                    #[trigger] tris@[l]@,
                ),
        decreases tris@.len() - i,
    {
        let t = tris.remove(i);
        let ghost removed = tris@;
        let mut j: usize = i;
        while j > 0 && !depth_ge_exec(&tris[j - 1], &t)
            invariant
                j <= i,
                i < removed.len() + 1,
                tris@ == removed,
                forall|k: int| j <= k < i ==> !depth_ge(#[trigger] tris@[k]@, t@),
            decreases j,
        {
            j -= 1;
        }
        proof {
            broadcast use group_to_multiset_ensures;

            lemma_insert_to_multiset(tris@, j as int, t);
        }
        tris.insert(j, t);
        proof {
            assert forall|k: int, l: int|
                0 <= k <= l < i + 1 && l < tris@.len() implies depth_ge(
                #[trigger] tris@[k]@,
                #[trigger] tris@[l]@,
            ) by {
                lemma_az_bounds(tris@[k]@);
                lemma_az_bounds(tris@[l]@);
                if k < j && l == j {
                    if k < j - 1 {
                        lemma_az_bounds(removed[j - 1]@);
                        lemma_depth_ge_trans(tris@[k]@, removed[j - 1]@, t@);
                    }
                } else if k == j && l > j {
                } else if k < j && l > j {
                } else {
                }
            }
        }
        i += 1;
    }
}

} // verus!
