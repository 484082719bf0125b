//! Geometric primitives and the flat closest-hit scan over them.
use vstd::prelude::*;

use crate::geom::{
    cross, cross_w, diff, dot, dot_w, scale, vadd, vsub, wide, widen, within, Vec3, Wide, V3,
    COORD_MAX, NORMAL_MAX, TRIPLE_MAX, lemma_mul_within,
};
use crate::ray::Ray;

verus! {

/// A hit in mathematical terms: distance `num / den` along the ray (with
/// `den > 0`) and a surface normal, scaled by some positive factor.
pub struct HitModel {
    pub num: int,
    pub den: int,
    pub normal: V3,
}

/// `a` lies strictly nearer the ray origin than `b`.
pub open spec fn closer(a: HitModel, b: HitModel) -> bool {
    a.num * b.den < b.num * a.den
}

/// `a` lies no farther from the ray origin than `b`.
pub open spec fn no_farther(a: HitModel, b: HitModel) -> bool {
    a.num * b.den <= b.num * a.den
}

/// `a` and `b` lie at the same distance.
pub open spec fn same_distance(a: HitModel, b: HitModel) -> bool {
    a.num * b.den == b.num * a.den
}

/// The outcome of an intersection query: the hit distance as the exact ratio
/// `t_num / t_den`, and the surface normal at the hit.
#[derive(Clone, Copy, Debug)]
pub struct IntersectionRecord {
    pub t_num: i128,
    pub t_den: i128,
    pub normal: Wide,
}

impl View for IntersectionRecord {
    type V = HitModel;

    open spec fn view(&self) -> HitModel {
        HitModel { num: self.t_num as int, den: self.t_den as int, normal: wide(self.normal) }
    }
}

/// The distance is non-negative with a positive denominator, both bounded.
pub open spec fn hit_wf(h: HitModel) -> bool {
    0 <= h.num <= TRIPLE_MAX as int && 0 < h.den <= TRIPLE_MAX as int
}

pub open spec fn record_view(r: Option<IntersectionRecord>) -> Option<HitModel> {
    match r {
        Some(h) => Some(h@),
        None => None,
    }
}

pub proof fn lemma_closer_trans(a: HitModel, b: HitModel, c: HitModel)
    requires
        a.den > 0,
        b.den > 0,
        c.den > 0,
        no_farther(a, b),
        no_farther(b, c),
    ensures
        no_farther(a, c),
{
    assert(a.num * c.den <= c.num * a.den) by (nonlinear_arith)
        requires
            a.den > 0,
            b.den > 0,
            c.den > 0,
            a.num * b.den <= b.num * a.den,
            b.num * c.den <= c.num * b.den,
    ;
}

pub proof fn lemma_closer_strict_trans(a: HitModel, b: HitModel, c: HitModel)
    requires
        a.den > 0,
        b.den > 0,
        c.den > 0,
        closer(a, b),
        no_farther(b, c),
    ensures
        closer(a, c),
{
    assert(a.num * c.den < c.num * a.den) by (nonlinear_arith)
        requires
            a.den > 0,
            b.den > 0,
            c.den > 0,
            a.num * b.den < b.num * a.den,
            b.num * c.den <= c.num * b.den,
    ;
}

impl IntersectionRecord {
    /// Whether this hit lies strictly nearer than `other`.
    pub fn closer_than(&self, other: &IntersectionRecord) -> (r: bool)
        requires
            hit_wf(self@),
            hit_wf(other@),
        ensures
            r == closer(self@, other@),
    {
        proof {
            lemma_mul_within(self.t_num as int, other.t_den as int, TRIPLE_MAX as int, TRIPLE_MAX as int);
            lemma_mul_within(other.t_num as int, self.t_den as int, TRIPLE_MAX as int, TRIPLE_MAX as int);
        }
        self.t_num * other.t_den < other.t_num * self.t_den
    }
}

/// A mesh vertex: a position and a shading normal.
#[derive(Clone, Copy, Debug, PartialEq, Eq, Structural)]
pub struct Vertex {
    pub pos: Vec3,
    pub nrm: Vec3,
}

impl Vertex {
    pub open spec fn wf(&self) -> bool {
        within(self.pos@, COORD_MAX as int) && within(self.nrm@, NORMAL_MAX as int)
    }
}

/// A triangle with per-vertex shading normals.
#[derive(Clone, Copy, Debug)]
pub struct Triangle {
    pub vert: [Vertex; 3],
}

/// The terms of the Moller-Trumbore solution for `ray` against the triangle
/// `a b c`: the determinant and the numerators of `t`, `u` and `v`.
pub open spec fn mt_terms(a: V3, b: V3, c: V3, o: V3, d: V3) -> (int, int, int, int) {
    let oa = vsub(o, a);
    let e1 = vsub(b, a);
    let e2 = vsub(c, a);
    let p = cross(d, e2);
    let q = cross(oa, e1);
    (dot(p, e1), dot(q, e2), dot(p, oa), dot(q, d))
}

/// `x` with the sign of the determinant `det` divided out.
pub open spec fn unsign(det: int, x: int) -> int {
    if det < 0 {
        -x
    } else {
        x
    }
}

impl Triangle {
    pub open spec fn v(&self, i: int) -> Vertex {
        self.vert@[i]
    }

    pub open spec fn wf(&self) -> bool {
        self.v(0).wf() && self.v(1).wf() && self.v(2).wf()
    }

    /// The hit of `ray` on this triangle: the determinant must be non-zero,
    /// the barycentric weights `u`, `v` must satisfy `0 <= u <= 1`,
    /// `0 <= v`, `u + v <= 1`, and the distance must be non-negative. The
    /// normal is the barycentric blend of the vertex normals.
    pub open spec fn hit(&self, ray: Ray) -> Option<HitModel> {
        let terms = mt_terms(self.v(0).pos@, self.v(1).pos@, self.v(2).pos@, ray.origin@, ray.direction@);
        let det = terms.0;
        let den = unsign(det, det);
        let t = unsign(det, terms.1);
        let u = unsign(det, terms.2);
        let v = unsign(det, terms.3);
        if det != 0 && 0 <= u && u <= den && 0 <= v && u + v <= den && 0 <= t {
            Some(HitModel {
                num: t,
                den,
                normal: vadd(
                    vadd(scale(den - u - v, self.v(0).nrm@), scale(u, self.v(1).nrm@)),
                    scale(v, self.v(2).nrm@),
                ),
            })
        } else {
            None
        }
    }

    /// A triangle from the first three vertices of `v`.
    pub fn new(v: &Vec<Vertex>) -> (r: Triangle)
        requires
            v.len() == 3,
        ensures
            r.v(0) == v@[0],
            r.v(1) == v@[1],
            r.v(2) == v@[2],
    {
        Triangle { vert: [v[0], v[1], v[2]] }
    }

    pub fn intersect(&self, ray: &Ray) -> (r: Option<IntersectionRecord>)
        requires
            self.wf(),
            ray.wf(),
        ensures
            record_view(r) == self.hit(*ray),
            r.is_some() ==> hit_wf(r.unwrap()@),
    {
        let v0 = self.vert[0];
        let v1 = self.vert[1];
        let v2 = self.vert[2];
        let oa = diff(&ray.origin, &v0.pos);
        let e1 = diff(&v1.pos, &v0.pos);
        let e2 = diff(&v2.pos, &v0.pos);
        let d = widen(&ray.direction);

        let p = cross_w(d, e2);
        let q = cross_w(oa, e1);

        let det = dot_w(p, e1);
        let tn = dot_w(q, e2);
        let un = dot_w(p, oa);
        let vn = dot_w(q, d);

        if det == 0 {
            return None;
        }
        let (den, t, u, v) = if det < 0 {
            (-det, -tn, -un, -vn)
        } else {
            (det, tn, un, vn)
        };

        if u < 0 || u > den || v < 0 || u + v > den || t < 0 {
            None
        } else {
            let w = den - u - v;
            let n0 = widen(&v0.nrm);
            let n1 = widen(&v1.nrm);
            let n2 = widen(&v2.nrm);
            let ghost nm = NORMAL_MAX as int;
            let ghost tm = TRIPLE_MAX as int;
            proof {
                lemma_mul_within(w as int, n0.0 as int, tm, nm);
                lemma_mul_within(w as int, n0.1 as int, tm, nm);
                lemma_mul_within(w as int, n0.2 as int, tm, nm);
                lemma_mul_within(u as int, n1.0 as int, tm, nm);
                lemma_mul_within(u as int, n1.1 as int, tm, nm);
                lemma_mul_within(u as int, n1.2 as int, tm, nm);
                lemma_mul_within(v as int, n2.0 as int, tm, nm);
                lemma_mul_within(v as int, n2.1 as int, tm, nm);
                lemma_mul_within(v as int, n2.2 as int, tm, nm);
                assert(tm * nm < 0x1000_0000_0000_0000_0000_0000_0000);
            }
            let normal = (
                w * n0.0 + u * n1.0 + v * n2.0,
                w * n0.1 + u * n1.1 + v * n2.1,
                w * n0.2 + u * n1.2 + v * n2.2,
            );
            Some(IntersectionRecord { t_num: t, t_den: den, normal })
        }
    }
}

/// An infinite plane through `pos` with normal `nrm`; it is hit from either
/// side.
#[derive(Clone, Copy, Debug, PartialEq, Eq, Structural)]
pub struct Plane {
    pub pos: Vec3,
    pub nrm: Vec3,
}

impl Plane {
    pub open spec fn wf(&self) -> bool {
        within(self.pos@, COORD_MAX as int) && within(self.nrm@, COORD_MAX as int)
    }

    /// The hit of `ray`: the ray must not run parallel to the plane, and the
    /// distance `(nrm . (pos - origin)) / (nrm . direction)` must be
    /// non-negative. The plane is hit from either side; the normal returned
    /// is the plane's own.
    pub open spec fn hit(&self, ray: Ray) -> Option<HitModel> {
        let dn = dot(self.nrm@, ray.direction@);
        let tn = dot(self.nrm@, vsub(self.pos@, ray.origin@));
        let den = unsign(dn, dn);
        let t = unsign(dn, tn);
        if dn != 0 && t >= 0 {
            Some(HitModel { num: t, den, normal: self.nrm@ })
        } else {
            None
        }
    }

    pub fn intersect(&self, ray: &Ray) -> (r: Option<IntersectionRecord>)
        requires
            self.wf(),
            ray.wf(),
        ensures
            record_view(r) == self.hit(*ray),
            r.is_some() ==> hit_wf(r.unwrap()@),
    {
        let n = widen(&self.nrm);
        let dn = dot_w(n, widen(&ray.direction));
        if dn == 0 {
            return None;
        }
        let tn = dot_w(n, diff(&self.pos, &ray.origin));
        let (den, t) = if dn < 0 {
            (-dn, -tn)
        } else {
            (dn, tn)
        };
        if t >= 0 {
            Some(IntersectionRecord { t_num: t, t_den: den, normal: n })
        } else {
            None
        }
    }
}

/// Every triangle of `s` is well formed.
pub open spec fn all_wf(s: Seq<Triangle>) -> bool {
    forall|i: int| 0 <= i < s.len() ==> #[trigger] s[i].wf()
}

/// `r` is a closest hit of `ray` among the triangles of `s`: it is `None`
/// exactly when no triangle is hit, and otherwise it is the hit of one of
/// them and no hit of any of them is nearer.
pub open spec fn is_closest(s: Seq<Triangle>, ray: Ray, r: Option<HitModel>) -> bool {
    match r {
        None => forall|j: int| 0 <= j < s.len() ==> (#[trigger] s[j].hit(ray)).is_none(),
        Some(h) => {
            &&& exists|k: int| 0 <= k < s.len() && (#[trigger] s[k].hit(ray)) == Some(h)
            &&& forall|j: int|
                0 <= j < s.len() && (#[trigger] s[j].hit(ray)).is_some() ==> no_farther(
                    h,
                    s[j].hit(ray).unwrap(),
                )
        },
    }
}

/// Of equally near hits, `r` is the one of the earliest triangle in `s`.
pub open spec fn is_first(s: Seq<Triangle>, ray: Ray, r: Option<HitModel>) -> bool {
    match r {
        None => true,
        Some(h) => exists|k: int|
            0 <= k < s.len() && (#[trigger] s[k].hit(ray)) == Some(h) && forall|j: int|
                0 <= j < k && (#[trigger] s[j].hit(ray)).is_some() ==> closer(
                    h,
                    s[j].hit(ray).unwrap(),
                ),
    }
}

/// Scans every triangle of `s` and keeps the nearest hit; of equally near
/// hits the first one seen stays.
pub fn closest_hit(s: &Vec<Triangle>, ray: &Ray) -> (r: Option<IntersectionRecord>)
    requires
        all_wf(s@),
        ray.wf(),
    ensures
        is_closest(s@, *ray, record_view(r)),
        is_first(s@, *ray, record_view(r)),
        r.is_some() ==> hit_wf(r.unwrap()@),
{
    let mut closest: Option<IntersectionRecord> = None;
    let ghost mut at: int = 0;
    let mut i: usize = 0;
    while i < s.len()
        invariant
            i <= s.len(),
            all_wf(s@),
            ray.wf(),
            closest.is_none() ==> forall|j: int| 0 <= j < i ==> (#[trigger] s@[j].hit(*ray)).is_none(),
            closest.is_some() ==> {
                &&& hit_wf(closest.unwrap()@)
                &&& 0 <= at < i
                &&& s@[at].hit(*ray) == Some(closest.unwrap()@)
                &&& forall|j: int|
                    0 <= j < at && (#[trigger] s@[j].hit(*ray)).is_some() ==> closer(
                        closest.unwrap()@,
                        s@[j].hit(*ray).unwrap(),
                    )
                &&& forall|j: int|
                    0 <= j < i && (#[trigger] s@[j].hit(*ray)).is_some() ==> no_farther(
                        closest.unwrap()@,
                        s@[j].hit(*ray).unwrap(),
                    )
            },
        decreases s.len() - i,
    {
        if let Some(record) = s[i].intersect(ray) {
            match closest {
                Some(old) => {
                    if record.closer_than(&old) {
                        proof {
                            assert forall|j: int|
                                0 <= j < i + 1 && (#[trigger] s@[j].hit(*ray)).is_some() implies
                                no_farther(record@, s@[j].hit(*ray).unwrap()) by {
                                if j < i {
                                    lemma_closer_strict_trans(record@, old@, s@[j].hit(*ray).unwrap());
                                }
                            }
                            assert forall|j: int|
                                0 <= j < i && (#[trigger] s@[j].hit(*ray)).is_some() implies
                                closer(record@, s@[j].hit(*ray).unwrap()) by {
                                lemma_closer_strict_trans(record@, old@, s@[j].hit(*ray).unwrap());
                            }
                            at = i as int;
                        }
                        closest = Some(record);
                    }
                },
                None => {
                    proof {
                        at = i as int;
                    }
                    closest = Some(record);
                },
            }
        }
        i = i + 1;
    }
    proof {
        if closest.is_some() {
            assert(s@[at].hit(*ray) == Some(closest.unwrap()@));
        }
    }
    closest
}

/// An unordered collection of triangles answered by a linear scan.
pub struct AggregatePrimitive {
    pub primitives: Vec<Triangle>,
}

impl AggregatePrimitive {
    pub open spec fn wf(&self) -> bool {
        all_wf(self.primitives@)
    }

    pub fn new() -> (r: AggregatePrimitive)
        ensures
            r.primitives@.len() == 0,
    {
        AggregatePrimitive { primitives: Vec::new() }
    }

    /// The nearest hit among all triangles; of equally near hits, the first.
    pub fn intersect(&self, ray: &Ray) -> (r: Option<IntersectionRecord>)
        requires
            self.wf(),
            ray.wf(),
        ensures
            is_closest(self.primitives@, *ray, record_view(r)),
            is_first(self.primitives@, *ray, record_view(r)),
            r.is_some() ==> hit_wf(r.unwrap()@),
    {
        closest_hit(&self.primitives, ray)
    }
}

/// `s` is the square root of `x` rounded up.
pub open spec fn is_ceil_sqrt(s: int, x: int) -> bool {
    s >= 0 && x <= s * s && (s == 0 || (s - 1) * (s - 1) < x)
}

/// The square root of `x` rounded up (for `x >= 0`).
pub open spec fn ceil_sqrt(x: int) -> int {
    choose|s: int| is_ceil_sqrt(s, x)
}

proof fn lemma_ceil_sqrt_unique(s: int, x: int)
    requires
        is_ceil_sqrt(s, x),
    ensures
        ceil_sqrt(x) == s,
{
    let t = ceil_sqrt(x);
    assert(is_ceil_sqrt(t, x));
    if t < s {
        assert(t * t <= (s - 1) * (s - 1)) by (nonlinear_arith)
            requires
                0 <= t <= s - 1,
        ;
    } else if s < t {
        assert(s * s <= (t - 1) * (t - 1)) by (nonlinear_arith)
            requires
                0 <= s <= t - 1,
        ;
    }
}

/// The square root of `x` rounded down, by bisection.
fn floor_sqrt(x: u128) -> (r: u128)
    requires
        x <= 0x100_0000_0000_0000_0000,
    ensures
        (r as int) * (r as int) <= x as int,
        (x as int) < (r as int + 1) * (r as int + 1),
        r <= 0x10_0000_0000,
{
    let mut lo: u128 = 0;
    let mut hi: u128 = 0x10_0000_0001;
    assert((0x10_0000_0001int) * (0x10_0000_0001int) > 0x100_0000_0000_0000_0000int);
    while hi - lo > 1
        invariant
            lo < hi <= 0x10_0000_0001,
            (lo as int) * (lo as int) <= x as int,
            (x as int) < (hi as int) * (hi as int),
        decreases hi - lo,
    {
        let mid = lo + (hi - lo) / 2;
        assert((mid as int) * (mid as int) <= 0x10_0000_0001int * 0x10_0000_0001int) by (nonlinear_arith)
            requires
                0 <= mid <= 0x10_0000_0001int,
        ;
        if mid * mid <= x {
            lo = mid;
        } else {
            hi = mid;
        }
    }
    lo
}

/// Largest radius of a sphere.
pub const RADIUS_MAX: i64 = 65536;

/// A sphere given by its center and radius.
#[derive(Clone, Copy, Debug, PartialEq, Eq, Structural)]
pub struct Sphere {
    pub pos: Vec3,
    pub radius: i64,
}

/// The terms of the ray/sphere equation `a t^2 - 2 b t + c = 0`, with
/// `l = center - origin`: `a = d . d`, `b = d . l`, `c = l . l - radius^2`
/// (negative exactly when the origin is inside the sphere), and the quarter
/// discriminant `b^2 - a c`.
pub open spec fn sphere_terms(center: V3, radius: int, o: V3, d: V3) -> (int, int, int, int) {
    let l = vsub(center, o);
    let a = dot(d, d);
    let b = dot(d, l);
    let c = dot(l, l) - radius * radius;
    (a, b, c, b * b - a * c)
}

/// Which root is taken is decided exactly; the rounded square root only
/// gives its value, and that value is never negative.
proof fn lemma_sphere_branch(a: int, b: int, c: int, disc: int, s: int)
    requires
        a > 0,
        disc == b * b - a * c,
        is_ceil_sqrt(s, disc),
    ensures
        b >= 0 && c >= 0 ==> b - s >= 0,
        c <= 0 ==> b + s >= 0,
{
    if b >= 0 && c >= 0 {
        assert(a * c >= 0) by (nonlinear_arith)
            requires
                a > 0,
                c >= 0,
        ;
        if s > 0 && s - 1 >= b {
            assert((s - 1) * (s - 1) >= b * b) by (nonlinear_arith)
                requires
                    s - 1 >= b,
                    b >= 0,
            ;
        }
    }
    if c <= 0 {
        assert(a * c <= 0) by (nonlinear_arith)
            requires
                a > 0,
                c <= 0,
        ;
        if b + s < 0 {
            assert(s * s < b * b) by (nonlinear_arith)
                requires
                    0 <= s < -b,
            ;
        }
    }
}

impl Sphere {
    pub open spec fn wf(&self) -> bool {
        within(self.pos@, COORD_MAX as int) && 0 <= self.radius <= RADIUS_MAX
    }

    /// The hit of `ray`, with `s` the square root of the discriminant rounded
    /// up. Where the origin is outside or on the sphere and the sphere lies
    /// ahead (`c >= 0`, `b >= 0`): the nearer root `(b - s) / a`, with the
    /// outward normal. Where the origin is inside or on the sphere (`c <= 0`):
    /// the farther root `(b + s) / a`, with the normal pointing back to the
    /// center. Otherwise, or with no real root, none.
    pub open spec fn hit(&self, ray: Ray) -> Option<HitModel> {
        let terms = sphere_terms(self.pos@, self.radius as int, ray.origin@, ray.direction@);
        let a = terms.0;
        let b = terms.1;
        let c = terms.2;
        let disc = terms.3;
        let s = ceil_sqrt(disc);
        let l = vsub(self.pos@, ray.origin@);
        let d = ray.direction@;
        if a <= 0 || disc < 0 {
            None
        } else if b >= 0 && c >= 0 {
            Some(HitModel { num: b - s, den: a, normal: vsub(scale(b - s, d), scale(a, l)) })
        } else if c <= 0 {
            Some(HitModel { num: b + s, den: a, normal: vsub(scale(a, l), scale(b + s, d)) })
        } else {
            None
        }
    }

    pub fn new(pos: Vec3, radius: i64) -> (r: Sphere)
        ensures
            r.pos == pos,
            r.radius == radius,
    {
        Sphere { pos, radius }
    }

    pub fn intersect(&self, ray: &Ray) -> (r: Option<IntersectionRecord>)
        requires
            self.wf(),
            ray.wf(),
        ensures
            record_view(r) == self.hit(*ray),
            r.is_some() ==> hit_wf(r.unwrap()@),
    {
        let l = diff(&self.pos, &ray.origin);
        let d = widen(&ray.direction);
        proof {
            lemma_mul_within(d.0 as int, d.0 as int, 65536, 65536);
            lemma_mul_within(d.1 as int, d.1 as int, 65536, 65536);
            lemma_mul_within(d.2 as int, d.2 as int, 65536, 65536);
            lemma_mul_within(d.0 as int, l.0 as int, 65536, 131072);
            lemma_mul_within(d.1 as int, l.1 as int, 65536, 131072);
            lemma_mul_within(d.2 as int, l.2 as int, 65536, 131072);
            lemma_mul_within(l.0 as int, l.0 as int, 131072, 131072);
            lemma_mul_within(l.1 as int, l.1 as int, 131072, 131072);
            lemma_mul_within(l.2 as int, l.2 as int, 131072, 131072);
            lemma_mul_within(self.radius as int, self.radius as int, 65536, 65536);
        }
        let a = d.0 * d.0 + d.1 * d.1 + d.2 * d.2;
        let b = d.0 * l.0 + d.1 * l.1 + d.2 * l.2;
        let r = self.radius as i128;
        let c = l.0 * l.0 + l.1 * l.1 + l.2 * l.2 - r * r;
        proof {
            lemma_mul_within(b as int, b as int, 25769803776, 25769803776);
            lemma_mul_within(a as int, c as int, 12884901888, 55834574848);
        }
        let disc = b * b - a * c;
        proof {
            assert(a > 0) by (nonlinear_arith)
                requires
                    a == d.0 * d.0 + d.1 * d.1 + d.2 * d.2,
                    d.0 != 0 || d.1 != 0 || d.2 != 0,
            ;
        }
        if disc < 0 {
            return None;
        }
        let ghost bound: int = 68719476736;
        proof {
            assert(a >= 0) by (nonlinear_arith)
                requires
                    a == d.0 * d.0 + d.1 * d.1 + d.2 * d.2,
            ;
            assert(l.0 * l.0 + l.1 * l.1 + l.2 * l.2 >= 0) by (nonlinear_arith);
            assert(-(r * r) <= c);
            assert(a * c >= -(a * (r * r))) by (nonlinear_arith)
                requires
                    a >= 0,
                    c >= -(r * r),
            ;
            lemma_mul_within(a as int, (r * r) as int, 12884901888, 4294967296);
            assert(disc <= bound * bound);
        }
        let f = floor_sqrt(disc as u128);
        let s: i128 = if (f as i128) * (f as i128) < disc {
            f as i128 + 1
        } else {
            f as i128
        };
        proof {
            if s == f + 1 {
                assert(is_ceil_sqrt(s as int, disc as int));
            } else {
                if f > 0 {
                    assert(((f - 1) as int) * ((f - 1) as int) < (f as int) * (f as int)) by (nonlinear_arith)
                        requires
                            f > 0,
                    ;
                }
                assert(is_ceil_sqrt(s as int, disc as int));
            }
            lemma_ceil_sqrt_unique(s as int, disc as int);
            assert(a > 0) by (nonlinear_arith)
                requires
                    a == d.0 * d.0 + d.1 * d.1 + d.2 * d.2,
                    d.0 != 0 || d.1 != 0 || d.2 != 0,
            ;
            lemma_mul_within((b - s) as int, d.0 as int, 25769803776 + bound + 1, 65536);
            lemma_mul_within((b - s) as int, d.1 as int, 25769803776 + bound + 1, 65536);
            lemma_mul_within((b - s) as int, d.2 as int, 25769803776 + bound + 1, 65536);
            lemma_mul_within((b + s) as int, d.0 as int, 25769803776 + bound + 1, 65536);
            lemma_mul_within((b + s) as int, d.1 as int, 25769803776 + bound + 1, 65536);
            lemma_mul_within((b + s) as int, d.2 as int, 25769803776 + bound + 1, 65536);
            lemma_mul_within(a as int, l.0 as int, 12884901888, 131072);
            lemma_mul_within(a as int, l.1 as int, 12884901888, 131072);
            lemma_mul_within(a as int, l.2 as int, 12884901888, 131072);
        }
        proof {
            lemma_sphere_branch(a as int, b as int, c as int, disc as int, s as int);
        }
        if b >= 0 && c >= 0 {
            let t = b - s;
            Some(IntersectionRecord {
                t_num: t,
                t_den: a,
                normal: (t * d.0 - a * l.0, t * d.1 - a * l.1, t * d.2 - a * l.2),
            })
        } else if c <= 0 {
            let t = b + s;
            Some(IntersectionRecord {
                t_num: t,
                t_den: a,
                normal: (a * l.0 - t * d.0, a * l.1 - t * d.1, a * l.2 - t * d.2),
            })
        } else {
            None
        }
    }
}

/// `m^2 (|o + (n / m) d - center|^2 - radius^2)` for `m > 0`: negative where
/// the point at distance `n / m` along the ray lies inside the sphere, zero
/// where it lies on it.
pub open spec fn excess(sp: Sphere, ray: Ray, n: int, m: int) -> int {
    let w = vsub(scale(n, ray.direction@), scale(m, vsub(sp.pos@, ray.origin@)));
    dot(w, w) - m * m * (sp.radius * sp.radius)
}

proof fn lemma_sq_diff(x: int, y: int)
    ensures
        (x - y) * (x - y) == x * x - 2 * (x * y) + y * y,
{
    assert((x - y) * (x - y) == x * x - 2 * (x * y) + y * y) by (nonlinear_arith);
}

proof fn lemma_regroup(p: int, q: int, r: int, t: int)
    ensures
        (p * q) * (r * t) == (p * r) * (q * t),
{
    assert((p * q) * (r * t) == (p * r) * (q * t)) by (nonlinear_arith);
}

proof fn lemma_square_axis(n: int, m: int, d: int, l: int)
    ensures
        (n * d - m * l) * (n * d - m * l) == (n * n) * (d * d) - 2 * (n * m) * (d * l) + (m * m) * (l * l),
{
    lemma_sq_diff(n * d, m * l);
    lemma_regroup(n, d, n, d);
    lemma_regroup(n, d, m, l);
    lemma_regroup(m, l, m, l);
    assert(2 * (n * m) * (d * l) == 2 * ((n * m) * (d * l))) by (nonlinear_arith);
}

proof fn lemma_scale3(k: int, x: int, y: int, z: int)
    ensures
        k * (x + y + z) == k * x + k * y + k * z,
{
    assert(k * (x + y + z) == k * x + k * y + k * z) by (nonlinear_arith);
}

/// The excess is the quadratic `a n^2 - 2 b n m + c m^2` of the sphere terms.
proof fn lemma_excess_quadratic(sp: Sphere, ray: Ray, n: int, m: int)
    ensures
        ({
            let t = sphere_terms(sp.pos@, sp.radius as int, ray.origin@, ray.direction@);
            excess(sp, ray, n, m) == t.0 * (n * n) - 2 * t.1 * (n * m) + t.2 * (m * m)
        }),
{
    let d = ray.direction@;
    let l = vsub(sp.pos@, ray.origin@);
    let r = sp.radius as int;
    lemma_square_axis(n, m, d.0, l.0);
    lemma_square_axis(n, m, d.1, l.1);
    lemma_square_axis(n, m, d.2, l.2);
    lemma_scale3(n * n, d.0 * d.0, d.1 * d.1, d.2 * d.2);
    lemma_scale3(n * m, d.0 * l.0, d.1 * l.1, d.2 * l.2);
    lemma_scale3(m * m, l.0 * l.0, l.1 * l.1, l.2 * l.2);
    let a = dot(d, d);
    let b = dot(d, l);
    let ll = dot(l, l);
    assert(2 * b * (n * m) == 2 * ((n * m) * b) && a * (n * n) == (n * n) * a) by (nonlinear_arith);
    assert(2 * (n * m) * (d.0 * l.0) == 2 * ((n * m) * (d.0 * l.0))) by (nonlinear_arith);
    assert(2 * (n * m) * (d.1 * l.1) == 2 * ((n * m) * (d.1 * l.1))) by (nonlinear_arith);
    assert(2 * (n * m) * (d.2 * l.2) == 2 * ((n * m) * (d.2 * l.2))) by (nonlinear_arith);
    let w = vsub(scale(n, d), scale(m, l));
    assert(w == (n * d.0 - m * l.0, n * d.1 - m * l.1, n * d.2 - m * l.2));
    assert((ll - r * r) * (m * m) == (m * m) * ll - m * m * (r * r)) by (nonlinear_arith);
    assert(excess(sp, ray, n, m) == dot(w, w) - m * m * (r * r));
}

/// Multiplying the quadratic by `a` completes the square.
proof fn lemma_complete_square(a: int, b: int, c: int, n: int, m: int)
    ensures
        a * (a * (n * n) - 2 * b * (n * m) + c * (m * m)) == (a * n - b * m) * (a * n - b * m) - (b * b - a
            * c) * (m * m),
{
    lemma_sq_diff(a * n, b * m);
    lemma_regroup(a, n, a, n);
    lemma_regroup(a, n, b, m);
    lemma_regroup(b, m, b, m);
    lemma_scale3(a, a * (n * n), -(2 * b * (n * m)), c * (m * m));
    assert(a * (a * (n * n)) == (a * a) * (n * n)) by (nonlinear_arith);
    assert(a * (-(2 * b * (n * m))) == -(2 * ((a * b) * (n * m)))) by (nonlinear_arith);
    assert(a * (c * (m * m)) == (a * c) * (m * m)) by (nonlinear_arith);
    assert((b * b - a * c) * (m * m) == (b * b) * (m * m) - (a * c) * (m * m)) by (nonlinear_arith);
}

/// What the sphere's hit means geometrically. There is no hit exactly when
/// no point of the ray at a distance `t >= 0` lies on or inside the sphere.
/// From outside, no point before the reported one is inside, and the
/// reported point is on the sphere or, one step of `1/den` further, inside:
/// the reported distance is at most the nearer root and less than `1/den`
/// below it. From inside or on the sphere, the reported point is on or
/// outside it, and one step of `1/den` back it is inside.
pub proof fn lemma_sphere_hit_geometry(sp: Sphere, ray: Ray)
    requires
        ray.direction@ != (0int, 0int, 0int),
    ensures
        sp.hit(ray).is_none() <==> forall|n: int, m: int|
            n >= 0 && m > 0 ==> #[trigger] excess(sp, ray, n, m) > 0,
        sp.hit(ray).is_some() && excess(sp, ray, 0, 1) > 0 ==> {
            let h = sp.hit(ray).unwrap();
            &&& forall|n: int, m: int|
                n >= 0 && m > 0 && n * h.den <= h.num * m ==> #[trigger] excess(sp, ray, n, m) >= 0
            &&& excess(sp, ray, h.num, h.den) == 0 || excess(sp, ray, h.num + 1, h.den) < 0
        },
        sp.hit(ray).is_some() && excess(sp, ray, 0, 1) <= 0 ==> {
            let h = sp.hit(ray).unwrap();
            &&& excess(sp, ray, h.num, h.den) >= 0
            &&& excess(sp, ray, h.num, h.den) == 0 || excess(sp, ray, h.num - 1, h.den) < 0
        },
{
    let t = sphere_terms(sp.pos@, sp.radius as int, ray.origin@, ray.direction@);
    let a = t.0;
    let b = t.1;
    let c = t.2;
    let disc = t.3;
    let d = ray.direction@;
    assert(a > 0) by (nonlinear_arith)
        requires
            a == d.0 * d.0 + d.1 * d.1 + d.2 * d.2,
            d.0 != 0 || d.1 != 0 || d.2 != 0,
    ;
    lemma_excess_quadratic(sp, ray, 0, 1);
    assert(excess(sp, ray, 0, 1) == c);
    assert forall|n: int, m: int| #![all_triggers] true implies a * excess(sp, ray, n, m) == (a * n - b * m) * (a * n
        - b * m) - disc * (m * m) by {
        lemma_excess_quadratic(sp, ray, n, m);
        lemma_complete_square(a, b, c, n, m);
    }
    if disc < 0 {
        assert forall|n: int, m: int| n >= 0 && m > 0 implies #[trigger] excess(sp, ray, n, m) > 0 by {
            let e = excess(sp, ray, n, m);
            let x = a * n - b * m;
            assert(a * e == x * x - disc * (m * m));
            assert(e > 0) by (nonlinear_arith)
                requires
                    a > 0,
                    m > 0,
                    disc < 0,
                    a * e == x * x - disc * (m * m),
            ;
        }
    } else {
        let s = ceil_sqrt(disc);
        lemma_ceil_sqrt_exists(disc);
        lemma_excess_at(sp, ray, -s);
        lemma_excess_at(sp, ray, s);
        lemma_excess_at(sp, ray, 0);
        assert(s * s >= disc);
        assert(a * (s * s - disc) >= 0) by (nonlinear_arith)
            requires
                a > 0,
                s * s >= disc,
        ;
        assert(a * (0 * 0 - disc) <= 0) by (nonlinear_arith)
            requires
                a > 0,
                disc >= 0,
        ;
        if s > 0 {
            lemma_excess_at(sp, ray, -s + 1);
            lemma_excess_at(sp, ray, s - 1);
            assert((-s + 1) * (-s + 1) == (s - 1) * (s - 1)) by (nonlinear_arith);
            assert(a * ((s - 1) * (s - 1) - disc) < 0) by (nonlinear_arith)
                requires
                    a > 0,
                    (s - 1) * (s - 1) < disc,
            ;
        } else {
            assert(disc == 0);
        }
        assert((-s) * (-s) == s * s) by (nonlinear_arith);
        if b >= 0 && c >= 0 {
            assert(excess(sp, ray, b, a) <= 0);
            if c == 0 {
                assert(is_ceil_sqrt(b, disc)) by {
                    assert(disc == b * b);
                    if b > 0 {
                        assert((b - 1) * (b - 1) < b * b) by (nonlinear_arith)
                            requires
                                b > 0,
                        ;
                    }
                }
                lemma_ceil_sqrt_unique(b, disc);
            } else {
                let h = sp.hit(ray).unwrap();
                assert forall|n: int, m: int|
                    n >= 0 && m > 0 && n * h.den <= h.num * m implies #[trigger] excess(sp, ray, n, m) >= 0 by {
                    let e = excess(sp, ray, n, m);
                    let x = a * n - b * m;
                    assert(a * e == x * x - disc * (m * m));
                    assert(e >= 0) by (nonlinear_arith)
                        requires
                            a > 0,
                            m > 0,
                            s >= 0,
                            s * s >= disc,
                            n * a <= (b - s) * m,
                            x == a * n - b * m,
                            a * e == x * x - disc * (m * m),
                    ;
                }
            }
        } else if c <= 0 {
            assert(excess(sp, ray, 0, 1) <= 0);
        } else {
            assert forall|n: int, m: int| n >= 0 && m > 0 implies #[trigger] excess(sp, ray, n, m) > 0 by {
                lemma_excess_quadratic(sp, ray, n, m);
                assert(a * (n * n) - 2 * b * (n * m) + c * (m * m) > 0) by (nonlinear_arith)
                    requires
                        a > 0,
                        b < 0,
                        c > 0,
                        n >= 0,
                        m > 0,
                ;
            }
        }
    }
}

/// A square root rounded up exists for every `x >= 0`.
proof fn lemma_ceil_sqrt_exists(x: int)
    requires
        x >= 0,
    ensures
        is_ceil_sqrt(ceil_sqrt(x), x),
    decreases x,
{
    if x == 0 {
        assert(is_ceil_sqrt(0, 0));
    } else {
        lemma_ceil_sqrt_exists(x - 1);
        let p = ceil_sqrt(x - 1);
        if p * p >= x {
            assert(is_ceil_sqrt(p, x));
        } else {
            assert((p + 1) * (p + 1) == p * p + 2 * p + 1) by (nonlinear_arith);
            assert(is_ceil_sqrt(p + 1, x));
        }
    }
}

/// The excess at distance `(b + k) / a` is `a (k^2 - disc)`.
proof fn lemma_excess_at(sp: Sphere, ray: Ray, k: int)
    requires
        sphere_terms(sp.pos@, sp.radius as int, ray.origin@, ray.direction@).0 > 0,
    ensures
        ({
            let t = sphere_terms(sp.pos@, sp.radius as int, ray.origin@, ray.direction@);
            excess(sp, ray, t.1 + k, t.0) == t.0 * (k * k - t.3)
        }),
{
    let t = sphere_terms(sp.pos@, sp.radius as int, ray.origin@, ray.direction@);
    let a = t.0;
    let b = t.1;
    let c = t.2;
    lemma_excess_quadratic(sp, ray, b + k, a);
    lemma_complete_square(a, b, c, b + k, a);
    let e = excess(sp, ray, b + k, a);
    assert(e == a * (k * k - t.3)) by (nonlinear_arith)
        requires
            a > 0,
            t.3 == b * b - a * c,
            a * e == (a * (b + k) - b * a) * (a * (b + k) - b * a) - t.3 * (a * a),
    ;
}

} // verus!
