//! Integer vectors in fixed-point scene units and their exact arithmetic.
use vstd::prelude::*;

verus! {

/// Largest magnitude of a position or ray coordinate, in fixed-point units.
pub const COORD_MAX: i64 = 65536;

/// Largest magnitude of a shading-normal coordinate.
pub const NORMAL_MAX: i64 = 68719476736;

/// Bound on the edge-like differences of two coordinates (with headroom).
pub const EDGE_MAX: i128 = 1048576;

/// Bound on a cross product of two edge-like vectors.
pub const CROSS_MAX: i128 = 2199023255552;

/// Bound on a dot product of a cross product with an edge-like vector.
pub const TRIPLE_MAX: i128 = 6917529027641081856;

/// A mathematical 3-vector.
pub type V3 = (int, int, int);

pub open spec fn vadd(a: V3, b: V3) -> V3 {
    (a.0 + b.0, a.1 + b.1, a.2 + b.2)
}

pub open spec fn vsub(a: V3, b: V3) -> V3 {
    (a.0 - b.0, a.1 - b.1, a.2 - b.2)
}

pub open spec fn scale(k: int, a: V3) -> V3 {
    (k * a.0, k * a.1, k * a.2)
}

pub open spec fn dot(a: V3, b: V3) -> int {
    a.0 * b.0 + a.1 * b.1 + a.2 * b.2
}

pub open spec fn cross(a: V3, b: V3) -> V3 {
    (a.1 * b.2 - a.2 * b.1, a.2 * b.0 - a.0 * b.2, a.0 * b.1 - a.1 * b.0)
}

/// The coordinate of `a` on `axis` (0, 1 or 2).
pub open spec fn coord(a: V3, axis: int) -> int {
    if axis == 0 {
        a.0
    } else if axis == 1 {
        a.1
    } else {
        a.2
    }
}

/// Every coordinate of `a` has magnitude at most `m`.
pub open spec fn within(a: V3, m: int) -> bool {
    -m <= a.0 <= m && -m <= a.1 <= m && -m <= a.2 <= m
}

/// A point or direction in fixed-point scene units.
#[derive(Clone, Copy, Debug, PartialEq, Eq, Structural)]
pub struct Vec3 {
    pub x: i64,
    pub y: i64,
    pub z: i64,
}

impl View for Vec3 {
    type V = V3;

    open spec fn view(&self) -> V3 {
        (self.x as int, self.y as int, self.z as int)
    }
}

impl Vec3 {
    pub fn new(x: i64, y: i64, z: i64) -> (r: Vec3)
        ensures
            r@ == (x as int, y as int, z as int),
    {
        Vec3 { x, y, z }
    }

    /// The coordinate on `axis` (0, 1 or 2).
    pub fn get(&self, axis: usize) -> (r: i64)
        requires
            axis < 3,
        ensures
            r as int == coord(self@, axis as int),
    {
        if axis == 0 {
            self.x
        } else if axis == 1 {
            self.y
        } else {
            self.z
        }
    }
}

/// A vector held in wide integers, for intermediate products.
pub type Wide = (i128, i128, i128);

pub open spec fn wide(w: Wide) -> V3 {
    (w.0 as int, w.1 as int, w.2 as int)
}

pub proof fn lemma_mul_within(a: int, b: int, ma: int, mb: int)
    requires
        -ma <= a <= ma,
        -mb <= b <= mb,
    ensures
        -(ma * mb) <= a * b <= ma * mb,
{
    assert(-(ma * mb) <= a * b <= ma * mb) by (nonlinear_arith)
        requires
            -ma <= a <= ma,
            -mb <= b <= mb,
    ;
}

/// `a - b`, widened.
pub fn diff(a: &Vec3, b: &Vec3) -> (r: Wide)
    ensures
        wide(r) == vsub(a@, b@),
{
    (a.x as i128 - b.x as i128, a.y as i128 - b.y as i128, a.z as i128 - b.z as i128)
}

/// `a` widened.
pub fn widen(a: &Vec3) -> (r: Wide)
    ensures
        wide(r) == a@,
{
    (a.x as i128, a.y as i128, a.z as i128)
}

/// Cross product of two edge-like vectors.
pub fn cross_w(a: Wide, b: Wide) -> (r: Wide)
    requires
        within(wide(a), EDGE_MAX as int),
        within(wide(b), EDGE_MAX as int),
    ensures
        wide(r) == cross(wide(a), wide(b)),
        within(wide(r), CROSS_MAX as int),
{
    let ghost m = EDGE_MAX as int;
    proof {
        lemma_mul_within(a.1 as int, b.2 as int, m, m);
        lemma_mul_within(a.2 as int, b.1 as int, m, m);
        lemma_mul_within(a.2 as int, b.0 as int, m, m);
        lemma_mul_within(a.0 as int, b.2 as int, m, m);
        lemma_mul_within(a.0 as int, b.1 as int, m, m);
        lemma_mul_within(a.1 as int, b.0 as int, m, m);
    }
    (a.1 * b.2 - a.2 * b.1, a.2 * b.0 - a.0 * b.2, a.0 * b.1 - a.1 * b.0)
}

/// Dot product of a cross product with an edge-like vector.
pub fn dot_w(a: Wide, b: Wide) -> (r: i128)
    requires
        within(wide(a), CROSS_MAX as int),
        within(wide(b), EDGE_MAX as int),
    ensures
        r as int == dot(wide(a), wide(b)),
        -(TRIPLE_MAX as int) <= r <= TRIPLE_MAX as int,
{
    let ghost ma = CROSS_MAX as int;
    let ghost mb = EDGE_MAX as int;
    proof {
        lemma_mul_within(a.0 as int, b.0 as int, ma, mb);
        lemma_mul_within(a.1 as int, b.1 as int, ma, mb);
        lemma_mul_within(a.2 as int, b.2 as int, ma, mb);
    }
    a.0 * b.0 + a.1 * b.1 + a.2 * b.2
}

} // verus!
