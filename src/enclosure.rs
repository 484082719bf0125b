//! Why a ray that hits a triangle passes through the triangle's box: the
//! hit point is a convex combination of the vertices.
use vstd::prelude::*;

use crate::geom::{coord, cross, dot, vsub, V3};
use crate::primitive::{mt_terms, unsign, HitModel, Triangle};
use crate::ray::Ray;

verus! {

proof fn lemma_distribute(c0: int, c1: int, c2: int, c3: int, c4: int, c5: int, x: int)
    ensures
        (c0 + c1 + c2 + c3 + c4 + c5) * x == c0 * x + c1 * x + c2 * x + c3 * x + c4 * x + c5 * x,
{
    assert((c0 + c1 + c2 + c3 + c4 + c5) * x == c0 * x + c1 * x + c2 * x + c3 * x + c4 * x + c5 * x)
        by (nonlinear_arith);
}

/// The first coordinate of Cramer's rule for the Moller-Trumbore system.
/// Every product is expanded into monomials written in one fixed variable
/// order, so that the closing step is linear.
proof fn lemma_cramer_x(t: V3, d: V3, e1: V3, e2: V3)
    ensures
        ({
            let p = cross(d, e2);
            let q = cross(t, e1);
            dot(p, e1) * t.0 == -dot(q, e2) * d.0 + dot(p, t) * e1.0 + dot(q, d) * e2.0
        }),
{
    let (t0, t1, t2) = t;
    let (d0, d1, d2) = d;
    let (a0, a1, a2) = e1;
    let (b0, b1, b2) = e2;
    let det = dot(cross(d, e2), e1);
    let tn = dot(cross(t, e1), e2);
    let un = dot(cross(d, e2), t);
    let vn = dot(cross(t, e1), d);
    assert(det == (d1 * b2 - d2 * b1) * a0 + (d2 * b0 - d0 * b2) * a1 + (d0 * b1 - d1 * b0) * a2);
    assert((d1 * b2 - d2 * b1) * a0 == d1 * b2 * a0 - d2 * b1 * a0) by (nonlinear_arith);
    assert((d2 * b0 - d0 * b2) * a1 == d2 * b0 * a1 - d0 * b2 * a1) by (nonlinear_arith);
    assert((d0 * b1 - d1 * b0) * a2 == d0 * b1 * a2 - d1 * b0 * a2) by (nonlinear_arith);
    lemma_distribute((d1 * b2 * a0), -(d2 * b1 * a0), (d2 * b0 * a1), -(d0 * b2 * a1), (d0 * b1 * a2), -(d1 * b0 * a2), t0);
    assert((d1 * b2 * a0) * t0 == a0 * b2 * d1 * t0) by (nonlinear_arith);
    assert((d2 * b1 * a0) * t0 == a0 * b1 * d2 * t0) by (nonlinear_arith);
    assert((-(d2 * b1 * a0)) * t0 == -((d2 * b1 * a0) * t0)) by (nonlinear_arith);
    assert((d2 * b0 * a1) * t0 == a1 * b0 * d2 * t0) by (nonlinear_arith);
    assert((d0 * b2 * a1) * t0 == a1 * b2 * d0 * t0) by (nonlinear_arith);
    assert((-(d0 * b2 * a1)) * t0 == -((d0 * b2 * a1) * t0)) by (nonlinear_arith);
    assert((d0 * b1 * a2) * t0 == a2 * b1 * d0 * t0) by (nonlinear_arith);
    assert((d1 * b0 * a2) * t0 == a2 * b0 * d1 * t0) by (nonlinear_arith);
    assert((-(d1 * b0 * a2)) * t0 == -((d1 * b0 * a2) * t0)) by (nonlinear_arith);
    assert(tn == (t1 * a2 - t2 * a1) * b0 + (t2 * a0 - t0 * a2) * b1 + (t0 * a1 - t1 * a0) * b2);
    assert((t1 * a2 - t2 * a1) * b0 == t1 * a2 * b0 - t2 * a1 * b0) by (nonlinear_arith);
    assert((t2 * a0 - t0 * a2) * b1 == t2 * a0 * b1 - t0 * a2 * b1) by (nonlinear_arith);
    assert((t0 * a1 - t1 * a0) * b2 == t0 * a1 * b2 - t1 * a0 * b2) by (nonlinear_arith);
    lemma_distribute((t1 * a2 * b0), -(t2 * a1 * b0), (t2 * a0 * b1), -(t0 * a2 * b1), (t0 * a1 * b2), -(t1 * a0 * b2), d0);
    assert((t1 * a2 * b0) * d0 == a2 * b0 * d0 * t1) by (nonlinear_arith);
    assert((t2 * a1 * b0) * d0 == a1 * b0 * d0 * t2) by (nonlinear_arith);
    assert((-(t2 * a1 * b0)) * d0 == -((t2 * a1 * b0) * d0)) by (nonlinear_arith);
    assert((t2 * a0 * b1) * d0 == a0 * b1 * d0 * t2) by (nonlinear_arith);
    assert((t0 * a2 * b1) * d0 == a2 * b1 * d0 * t0) by (nonlinear_arith);
    assert((-(t0 * a2 * b1)) * d0 == -((t0 * a2 * b1) * d0)) by (nonlinear_arith);
    assert((t0 * a1 * b2) * d0 == a1 * b2 * d0 * t0) by (nonlinear_arith);
    assert((t1 * a0 * b2) * d0 == a0 * b2 * d0 * t1) by (nonlinear_arith);
    assert((-(t1 * a0 * b2)) * d0 == -((t1 * a0 * b2) * d0)) by (nonlinear_arith);
    assert(un == (d1 * b2 - d2 * b1) * t0 + (d2 * b0 - d0 * b2) * t1 + (d0 * b1 - d1 * b0) * t2);
    assert((d1 * b2 - d2 * b1) * t0 == d1 * b2 * t0 - d2 * b1 * t0) by (nonlinear_arith);
    assert((d2 * b0 - d0 * b2) * t1 == d2 * b0 * t1 - d0 * b2 * t1) by (nonlinear_arith);
    assert((d0 * b1 - d1 * b0) * t2 == d0 * b1 * t2 - d1 * b0 * t2) by (nonlinear_arith);
    lemma_distribute((d1 * b2 * t0), -(d2 * b1 * t0), (d2 * b0 * t1), -(d0 * b2 * t1), (d0 * b1 * t2), -(d1 * b0 * t2), a0);
    assert((d1 * b2 * t0) * a0 == a0 * b2 * d1 * t0) by (nonlinear_arith);
    assert((d2 * b1 * t0) * a0 == a0 * b1 * d2 * t0) by (nonlinear_arith);
    assert((-(d2 * b1 * t0)) * a0 == -((d2 * b1 * t0) * a0)) by (nonlinear_arith);
    assert((d2 * b0 * t1) * a0 == a0 * b0 * d2 * t1) by (nonlinear_arith);
    assert((d0 * b2 * t1) * a0 == a0 * b2 * d0 * t1) by (nonlinear_arith);
    assert((-(d0 * b2 * t1)) * a0 == -((d0 * b2 * t1) * a0)) by (nonlinear_arith);
    assert((d0 * b1 * t2) * a0 == a0 * b1 * d0 * t2) by (nonlinear_arith);
    assert((d1 * b0 * t2) * a0 == a0 * b0 * d1 * t2) by (nonlinear_arith);
    assert((-(d1 * b0 * t2)) * a0 == -((d1 * b0 * t2) * a0)) by (nonlinear_arith);
    assert(vn == (t1 * a2 - t2 * a1) * d0 + (t2 * a0 - t0 * a2) * d1 + (t0 * a1 - t1 * a0) * d2);
    assert((t1 * a2 - t2 * a1) * d0 == t1 * a2 * d0 - t2 * a1 * d0) by (nonlinear_arith);
    assert((t2 * a0 - t0 * a2) * d1 == t2 * a0 * d1 - t0 * a2 * d1) by (nonlinear_arith);
    assert((t0 * a1 - t1 * a0) * d2 == t0 * a1 * d2 - t1 * a0 * d2) by (nonlinear_arith);
    lemma_distribute((t1 * a2 * d0), -(t2 * a1 * d0), (t2 * a0 * d1), -(t0 * a2 * d1), (t0 * a1 * d2), -(t1 * a0 * d2), b0);
    assert((t1 * a2 * d0) * b0 == a2 * b0 * d0 * t1) by (nonlinear_arith);
    assert((t2 * a1 * d0) * b0 == a1 * b0 * d0 * t2) by (nonlinear_arith);
    assert((-(t2 * a1 * d0)) * b0 == -((t2 * a1 * d0) * b0)) by (nonlinear_arith);
    assert((t2 * a0 * d1) * b0 == a0 * b0 * d1 * t2) by (nonlinear_arith);
    assert((t0 * a2 * d1) * b0 == a2 * b0 * d1 * t0) by (nonlinear_arith);
    assert((-(t0 * a2 * d1)) * b0 == -((t0 * a2 * d1) * b0)) by (nonlinear_arith);
    assert((t0 * a1 * d2) * b0 == a1 * b0 * d2 * t0) by (nonlinear_arith);
    assert((t1 * a0 * d2) * b0 == a0 * b0 * d2 * t1) by (nonlinear_arith);
    assert((-(t1 * a0 * d2)) * b0 == -((t1 * a0 * d2) * b0)) by (nonlinear_arith);
    assert(det * t0 + tn * d0 == un * a0 + vn * b0);
    assert((-tn) * d0 == -(tn * d0)) by (nonlinear_arith);
}

spec fn rot(v: V3) -> V3 {
    (v.1, v.2, v.0)
}

/// Cramer's rule for the Moller-Trumbore system: with `t = origin - a`, the
/// terms satisfy `det * t == -tn * d + un * e1 + vn * e2`.
proof fn lemma_cramer(t: V3, d: V3, e1: V3, e2: V3)
    ensures
        ({
            let p = cross(d, e2);
            let q = cross(t, e1);
            let det = dot(p, e1);
            let tn = dot(q, e2);
            let un = dot(p, t);
            let vn = dot(q, d);
            &&& det * t.0 == -tn * d.0 + un * e1.0 + vn * e2.0
            &&& det * t.1 == -tn * d.1 + un * e1.1 + vn * e2.1
            &&& det * t.2 == -tn * d.2 + un * e1.2 + vn * e2.2
        }),
{
    lemma_cramer_x(t, d, e1, e2);
    lemma_cramer_x(rot(t), rot(d), rot(e1), rot(e2));
    lemma_cramer_x(rot(rot(t)), rot(rot(d)), rot(rot(e1)), rot(rot(e2)));
}

pub open spec fn min3(a: int, b: int, c: int) -> int {
    if a <= b && a <= c {
        a
    } else if b <= c {
        b
    } else {
        c
    }
}

pub open spec fn max3(a: int, b: int, c: int) -> int {
    if a >= b && a >= c {
        a
    } else if b >= c {
        b
    } else {
        c
    }
}

/// The point `(o * den + num * d) / den` on a ray lies strictly inside the
/// box `lo .. hi` on `axis`.
pub open spec fn inside_axis(lo: V3, hi: V3, o: V3, d: V3, num: int, den: int, axis: int) -> bool {
    coord(lo, axis) * den < coord(o, axis) * den + num * coord(d, axis) < coord(hi, axis) * den
}

pub open spec fn inside(lo: V3, hi: V3, o: V3, d: V3, num: int, den: int) -> bool {
    &&& den > 0
    &&& inside_axis(lo, hi, o, d, num, den, 0)
    &&& inside_axis(lo, hi, o, d, num, den, 1)
    &&& inside_axis(lo, hi, o, d, num, den, 2)
}

proof fn lemma_convex_axis(w: int, u: int, v: int, x0: int, x1: int, x2: int, o: int, dd: int, t: int, den: int)
    requires
        w >= 0,
        u >= 0,
        v >= 0,
        w + u + v == den,
        den > 0,
        den * (o - x0) == -t * dd + u * (x1 - x0) + v * (x2 - x0),
    ensures
        o * den + t * dd == w * x0 + u * x1 + v * x2,
        (min3(x0, x1, x2) - 1) * den < o * den + t * dd < (max3(x0, x1, x2) + 1) * den,
{
    let m = min3(x0, x1, x2);
    let x = max3(x0, x1, x2);
    assert(den * (o - x0) == den * o - den * x0) by (nonlinear_arith);
    assert(u * (x1 - x0) == u * x1 - u * x0) by (nonlinear_arith);
    assert(v * (x2 - x0) == v * x2 - v * x0) by (nonlinear_arith);
    assert(w * x0 == den * x0 - u * x0 - v * x0) by (nonlinear_arith)
        requires
            w + u + v == den,
    ;
    assert((-t) * dd == -(t * dd)) by (nonlinear_arith);
    assert(o * den == den * o) by (nonlinear_arith);
    assert(m * den <= w * x0 + u * x1 + v * x2 <= x * den) by (nonlinear_arith)
        requires
            w >= 0,
            u >= 0,
            v >= 0,
            w + u + v == den,
            m <= x0 <= x,
            m <= x1 <= x,
            m <= x2 <= x,
    ;
    assert((m - 1) * den < m * den && x * den < (x + 1) * den) by (nonlinear_arith)
        requires
            den > 0,
    ;
}

/// The box of a triangle: the extent of its vertices, grown by one unit on
/// all six faces.
pub open spec fn tri_lo(tri: Triangle) -> V3 {
    let a = tri.v(0).pos@;
    let b = tri.v(1).pos@;
    let c = tri.v(2).pos@;
    (min3(a.0, b.0, c.0) - 1, min3(a.1, b.1, c.1) - 1, min3(a.2, b.2, c.2) - 1)
}

pub open spec fn tri_hi(tri: Triangle) -> V3 {
    let a = tri.v(0).pos@;
    let b = tri.v(1).pos@;
    let c = tri.v(2).pos@;
    (max3(a.0, b.0, c.0) + 1, max3(a.1, b.1, c.1) + 1, max3(a.2, b.2, c.2) + 1)
}

/// Where a ray hits a triangle, that point lies strictly inside the
/// triangle's grown box.
pub proof fn lemma_hit_inside(tri: Triangle, ray: Ray)
    requires
        tri.hit(ray).is_some(),
    ensures
        inside(tri_lo(tri), tri_hi(tri), ray.origin@, ray.direction@, tri.hit(ray).unwrap().num,
            tri.hit(ray).unwrap().den),
        ({
            let terms = mt_terms(tri.v(0).pos@, tri.v(1).pos@, tri.v(2).pos@, ray.origin@, ray.direction@);
            on_triangle(tri, ray, tri.hit(ray).unwrap().num, tri.hit(ray).unwrap().den,
                unsign(terms.0, terms.2), unsign(terms.0, terms.3))
        }),
{
    let a = tri.v(0).pos@;
    let b = tri.v(1).pos@;
    let c = tri.v(2).pos@;
    let o = ray.origin@;
    let d = ray.direction@;
    let oa = vsub(o, a);
    let e1 = vsub(b, a);
    let e2 = vsub(c, a);
    lemma_cramer(oa, d, e1, e2);
    let terms = mt_terms(a, b, c, o, d);
    let det = terms.0;
    let den = unsign(det, det);
    let t = unsign(det, terms.1);
    let u = unsign(det, terms.2);
    let v = unsign(det, terms.3);
    let h = tri.hit(ray).unwrap();
    assert(h.num == t && h.den == den);
    assert(den * oa.0 == -t * d.0 + u * e1.0 + v * e2.0 && den * oa.1 == -t * d.1 + u * e1.1 + v * e2.1
        && den * oa.2 == -t * d.2 + u * e1.2 + v * e2.2) by (nonlinear_arith)
        requires
            det * oa.0 == -terms.1 * d.0 + terms.2 * e1.0 + terms.3 * e2.0,
            det * oa.1 == -terms.1 * d.1 + terms.2 * e1.1 + terms.3 * e2.1,
            det * oa.2 == -terms.1 * d.2 + terms.2 * e1.2 + terms.3 * e2.2,
            den == if det < 0 { -det } else { det },
            t == if det < 0 { -terms.1 } else { terms.1 },
            u == if det < 0 { -terms.2 } else { terms.2 },
            v == if det < 0 { -terms.3 } else { terms.3 },
    ;
    lemma_convex_axis(den - u - v, u, v, a.0, b.0, c.0, o.0, d.0, t, den);
    lemma_convex_axis(den - u - v, u, v, a.1, b.1, c.1, o.1, d.1, t, den);
    lemma_convex_axis(den - u - v, u, v, a.2, b.2, c.2, o.2, d.2, t, den);
}

/// The point at distance `num / den` along `ray` is the blend of the
/// triangle's vertices with weights `den - u - v`, `u` and `v` (over `den`),
/// all of them non-negative.
pub open spec fn on_triangle(tri: Triangle, ray: Ray, num: int, den: int, u: int, v: int) -> bool {
    let a = tri.v(0).pos@;
    let b = tri.v(1).pos@;
    let c = tri.v(2).pos@;
    let o = ray.origin@;
    let d = ray.direction@;
    &&& den > 0
    &&& 0 <= u
    &&& 0 <= v
    &&& u + v <= den
    &&& den * o.0 + num * d.0 == (den - u - v) * a.0 + u * b.0 + v * c.0
    &&& den * o.1 + num * d.1 == (den - u - v) * a.1 + u * b.1 + v * c.1
    &&& den * o.2 + num * d.2 == (den - u - v) * a.2 + u * b.2 + v * c.2
}

/// A reported triangle hit lies on the triangle: the hit point, at a
/// non-negative distance, has barycentric weights `u, v >= 0` with
/// `u + v <= 1`.
pub proof fn lemma_triangle_hit_barycentric(tri: Triangle, ray: Ray)
    requires
        tri.hit(ray).is_some(),
    ensures
        tri.hit(ray).unwrap().num >= 0,
        exists|u: int, v: int| on_triangle(tri, ray, tri.hit(ray).unwrap().num, tri.hit(ray).unwrap().den, u, v),
{
    lemma_hit_inside(tri, ray);
    let terms = mt_terms(tri.v(0).pos@, tri.v(1).pos@, tri.v(2).pos@, ray.origin@, ray.direction@);
    let u = unsign(terms.0, terms.2);
    let v = unsign(terms.0, terms.3);
    assert(on_triangle(tri, ray, tri.hit(ray).unwrap().num, tri.hit(ray).unwrap().den, u, v));
}

proof fn lemma_triple(x: V3, y: V3, z: V3)
    ensures
        dot(cross(x, y), x) == 0,
        dot(cross(x, y), y) == 0,
        dot(cross(x, y), z) == dot(cross(y, z), x),
        dot(cross(y, x), z) == -dot(cross(x, y), z),
{
    let (x0, x1, x2) = x;
    let (y0, y1, y2) = y;
    let (z0, z1, z2) = z;
    assert((x1 * y2 - x2 * y1) * x0 + (x2 * y0 - x0 * y2) * x1 + (x0 * y1 - x1 * y0) * x2 == 0)
        by (nonlinear_arith);
    assert((x1 * y2 - x2 * y1) * y0 + (x2 * y0 - x0 * y2) * y1 + (x0 * y1 - x1 * y0) * y2 == 0)
        by (nonlinear_arith);
    assert((x1 * y2 - x2 * y1) * z0 == x1 * y2 * z0 - x2 * y1 * z0) by (nonlinear_arith);
    assert((x2 * y0 - x0 * y2) * z1 == x2 * y0 * z1 - x0 * y2 * z1) by (nonlinear_arith);
    assert((x0 * y1 - x1 * y0) * z2 == x0 * y1 * z2 - x1 * y0 * z2) by (nonlinear_arith);
    assert((y1 * z2 - y2 * z1) * x0 == x0 * y1 * z2 - x0 * y2 * z1) by (nonlinear_arith);
    assert((y2 * z0 - y0 * z2) * x1 == x1 * y2 * z0 - x1 * y0 * z2) by (nonlinear_arith);
    assert((y0 * z1 - y1 * z0) * x2 == x2 * y0 * z1 - x2 * y1 * z0) by (nonlinear_arith);
    assert((y1 * x2 - y2 * x1) * z0 + (y2 * x0 - y0 * x2) * z1 + (y0 * x1 - y1 * x0) * z2
        == -((x1 * y2 - x2 * y1) * z0 + (x2 * y0 - x0 * y2) * z1 + (x0 * y1 - x1 * y0) * z2))
        by (nonlinear_arith);
}

proof fn lemma_scale_sum(k: int, a: int, b: int, c: int)
    ensures
        k * (a + b + c) == k * a + k * b + k * c,
{
    assert(k * (a + b + c) == k * a + k * b + k * c) by (nonlinear_arith);
}

proof fn lemma_swap(x: int, y: int, z: int)
    ensures
        x * (y * z) == y * (x * z),
{
    assert(x * (y * z) == y * (x * z)) by (nonlinear_arith);
}

/// Dotting both sides of `k * w == -t * d + u * e1 + v * e2` with `p`.
proof fn lemma_dot_combo(p: V3, w: V3, d: V3, e1: V3, e2: V3, k: int, t: int, u: int, v: int)
    requires
        k * w.0 == -t * d.0 + u * e1.0 + v * e2.0,
        k * w.1 == -t * d.1 + u * e1.1 + v * e2.1,
        k * w.2 == -t * d.2 + u * e1.2 + v * e2.2,
    ensures
        k * dot(p, w) == -t * dot(p, d) + u * dot(p, e1) + v * dot(p, e2),
{
    lemma_scale_sum(p.0, -t * d.0, u * e1.0, v * e2.0);
    lemma_swap(k, p.0, w.0);
    lemma_swap(p.0, -t, d.0);
    lemma_swap(p.0, u, e1.0);
    lemma_swap(p.0, v, e2.0);
    lemma_scale_sum(p.1, -t * d.1, u * e1.1, v * e2.1);
    lemma_swap(k, p.1, w.1);
    lemma_swap(p.1, -t, d.1);
    lemma_swap(p.1, u, e1.1);
    lemma_swap(p.1, v, e2.1);
    lemma_scale_sum(p.2, -t * d.2, u * e1.2, v * e2.2);
    lemma_swap(k, p.2, w.2);
    lemma_swap(p.2, -t, d.2);
    lemma_swap(p.2, u, e1.2);
    lemma_swap(p.2, v, e2.2);
    lemma_scale_sum(k, p.0 * w.0, p.1 * w.1, p.2 * w.2);
    lemma_scale_sum(-t, p.0 * d.0, p.1 * d.1, p.2 * d.2);
    lemma_scale_sum(u, p.0 * e1.0, p.1 * e1.1, p.2 * e1.2);
    lemma_scale_sum(v, p.0 * e2.0, p.1 * e2.1, p.2 * e2.2);
}

proof fn lemma_affine_axis(k: int, num: int, u: int, v: int, o: int, dd: int, x0: int, x1: int, x2: int)
    requires
        k * o + num * dd == (k - u - v) * x0 + u * x1 + v * x2,
    ensures
        k * (o - x0) == -num * dd + u * (x1 - x0) + v * (x2 - x0),
{
    assert(k * (o - x0) == -num * dd + u * (x1 - x0) + v * (x2 - x0)) by (nonlinear_arith)
        requires
            k * o + num * dd == (k - u - v) * x0 + u * x1 + v * x2,
    ;
}

/// Where the ray is not parallel to the triangle's plane, a point of the
/// triangle at a non-negative distance along the ray is reported as the hit,
/// at that distance.
pub proof fn lemma_triangle_hit_complete(tri: Triangle, ray: Ray, num: int, den: int, u: int, v: int)
    requires
        mt_terms(tri.v(0).pos@, tri.v(1).pos@, tri.v(2).pos@, ray.origin@, ray.direction@).0 != 0,
        num >= 0,
        on_triangle(tri, ray, num, den, u, v),
    ensures
        tri.hit(ray).is_some(),
        tri.hit(ray).unwrap().num * den == num * tri.hit(ray).unwrap().den,
{
    let a = tri.v(0).pos@;
    let b = tri.v(1).pos@;
    let c = tri.v(2).pos@;
    let o = ray.origin@;
    let d = ray.direction@;
    let oa = vsub(o, a);
    let e1 = vsub(b, a);
    let e2 = vsub(c, a);
    lemma_affine_axis(den, num, u, v, o.0, d.0, a.0, b.0, c.0);
    lemma_affine_axis(den, num, u, v, o.1, d.1, a.1, b.1, c.1);
    lemma_affine_axis(den, num, u, v, o.2, d.2, a.2, b.2, c.2);
    let terms = mt_terms(a, b, c, o, d);
    let det = terms.0;
    let p = cross(d, e2);
    let r = cross(d, e1);
    let n = cross(e1, e2);
    lemma_triple(d, e2, e1);
    lemma_triple(d, e1, e2);
    lemma_triple(e1, e2, d);
    lemma_triple(e2, d, e1);
    lemma_triple(oa, e1, d);
    lemma_triple(oa, e1, e2);
    lemma_triple(e1, d, oa);
    lemma_dot_combo(p, oa, d, e1, e2, den, num, u, v);
    lemma_dot_combo(r, oa, d, e1, e2, den, num, u, v);
    lemma_dot_combo(n, oa, d, e1, e2, den, num, u, v);
    // den * Un == u * det, den * Vn == v * det, den * Tn == num * det.
    assert(dot(n, d) == -det);
    assert(dot(r, e2) == -det);
    assert(den * terms.2 == u * det);
    assert(terms.3 == -dot(r, oa));
    assert(terms.1 == dot(n, oa));
    assert(den * dot(r, oa) == v * (-det));
    assert(den * dot(n, oa) == (-num) * (-det));
    assert(den * (-dot(r, oa)) == -(den * dot(r, oa)) && v * (-det) == -(v * det) && (-num) * (-det) == num * det)
        by (nonlinear_arith);
    assert(den * terms.3 == v * det);
    assert(den * terms.1 == num * det);
    let dn = unsign(det, det);
    let tt = unsign(det, terms.1);
    let uu = unsign(det, terms.2);
    let vv = unsign(det, terms.3);
    assert(den * tt == num * dn && den * uu == u * dn && den * vv == v * dn) by (nonlinear_arith)
        requires
            den * terms.1 == num * det,
            den * terms.2 == u * det,
            den * terms.3 == v * det,
            dn == if det < 0 { -det } else { det },
            tt == if det < 0 { -terms.1 } else { terms.1 },
            uu == if det < 0 { -terms.2 } else { terms.2 },
            vv == if det < 0 { -terms.3 } else { terms.3 },
    ;
    assert(tt >= 0 && uu >= 0 && vv >= 0 && uu + vv <= dn) by (nonlinear_arith)
        requires
            den > 0,
            dn > 0,
            num >= 0,
            u >= 0,
            v >= 0,
            u + v <= den,
            den * tt == num * dn,
            den * uu == u * dn,
            den * vv == v * dn,
    ;
    assert(tt * den == den * tt) by (nonlinear_arith);
    assert(tri.hit(ray) == Some(HitModel { num: tt, den: dn, normal: tri.hit(ray).unwrap().normal }));
}

} // verus!
