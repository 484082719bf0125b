//! Bounding volume hierarchy over triangles.
use vstd::prelude::*;

use crate::enclosure::{inside, lemma_hit_inside, max3, min3, tri_hi, tri_lo};
use crate::geom::{coord, lemma_mul_within, within, Vec3, V3, COORD_MAX};
use crate::primitive::{
    closer, hit_wf, is_closest, same_distance, lemma_closer_strict_trans, lemma_closer_trans, no_farther,
    record_view, AggregatePrimitive, HitModel, IntersectionRecord, Triangle,
};
use crate::ray::Ray;

verus! {

pub open spec fn pow2(k: nat) -> nat
    decreases k,
{
    if k == 0 {
        1
    } else {
        2 * pow2((k - 1) as nat)
    }
}

/// A balanced subtree over at most `3 * 2^k` references is at most `k` inner
/// nodes high: the height grows with the logarithm of the number of
/// triangles.
pub proof fn lemma_balanced_height(n: &Node, k: nat)
    requires
        n.balanced(),
        n.refs().len() <= 3 * pow2(k),
    ensures
        n.height() <= k,
    decreases n,
{
    match n {
        Node::Internal { left, right, .. } => {
            let total = left.refs().len() + right.refs().len();
            assert(n.refs().len() == total);
            if k == 0 {
                assert(false);
            } else {
                let k1 = (k - 1) as nat;
                assert(pow2(k) == 2 * pow2(k1));
                lemma_balanced_height(left, k1);
                lemma_balanced_height(right, k1);
            }
        },
        Node::Leaf { .. } => {},
    }
}

/// Largest magnitude of a box coordinate.
pub const BOX_MAX: i64 = 65537;

/// An axis-aligned box.
#[derive(Clone, Copy, Debug, PartialEq, Eq, Structural)]
pub struct Bounds {
    pub max: Vec3,
    pub min: Vec3,
}

/// Entry distance numerator of a ray on one slab `lo .. hi`, over `|d|`.
pub open spec fn slab_entry(lo: int, hi: int, o: int, d: int) -> int {
    if d > 0 {
        lo - o
    } else {
        o - hi
    }
}

/// Exit distance numerator of a ray on one slab `lo .. hi`, over `|d|`.
pub open spec fn slab_exit(lo: int, hi: int, o: int, d: int) -> int {
    if d > 0 {
        hi - o
    } else {
        o - lo
    }
}

pub open spec fn abs(d: int) -> int {
    if d < 0 {
        -d
    } else {
        d
    }
}

impl Bounds {
    pub open spec fn wf(&self) -> bool {
        within(self.min@, BOX_MAX as int) && within(self.max@, BOX_MAX as int)
    }

    /// A ray parallel to the slab on `axis` must start strictly between its
    /// faces.
    pub open spec fn axis_open(&self, ray: Ray, axis: int) -> bool {
        let d = coord(ray.direction@, axis);
        let o = coord(ray.origin@, axis);
        d != 0 || (coord(self.min@, axis) < o && o < coord(self.max@, axis))
    }

    /// The ray enters the slab on axis `i` before it leaves the slab on `j`.
    pub open spec fn pair_ok(&self, ray: Ray, i: int, j: int) -> bool {
        let di = coord(ray.direction@, i);
        let dj = coord(ray.direction@, j);
        let entry = slab_entry(coord(self.min@, i), coord(self.max@, i), coord(ray.origin@, i), di);
        let exit = slab_exit(coord(self.min@, j), coord(self.max@, j), coord(ray.origin@, j), dj);
        di == 0 || dj == 0 || entry * abs(dj) < exit * abs(di)
    }

    /// The slab test: the line of the ray meets the box, that is the latest
    /// entry over the three slabs comes strictly before the earliest exit.
    pub open spec fn hit(&self, ray: Ray) -> bool {
        &&& self.axis_open(ray, 0)
        &&& self.axis_open(ray, 1)
        &&& self.axis_open(ray, 2)
        &&& self.pair_ok(ray, 0, 0)
        &&& self.pair_ok(ray, 0, 1)
        &&& self.pair_ok(ray, 0, 2)
        &&& self.pair_ok(ray, 1, 0)
        &&& self.pair_ok(ray, 1, 1)
        &&& self.pair_ok(ray, 1, 2)
        &&& self.pair_ok(ray, 2, 0)
        &&& self.pair_ok(ray, 2, 1)
        &&& self.pair_ok(ray, 2, 2)
    }

    /// `self` contains `other`.
    pub open spec fn contains(&self, other: Bounds) -> bool {
        &&& self.min.x <= other.min.x && self.min.y <= other.min.y && self.min.z <= other.min.z
        &&& other.max.x <= self.max.x && other.max.y <= self.max.y && other.max.z <= self.max.z
    }

    pub fn intersect(&self, ray: &Ray) -> (r: bool)
        requires
            self.wf(),
            ray.wf(),
        ensures
            r == self.hit(*ray),
    {
        let sx = slab(self.min.x, self.max.x, ray.origin.x, ray.direction.x);
        let sy = slab(self.min.y, self.max.y, ray.origin.y, ray.direction.y);
        let sz = slab(self.min.z, self.max.z, ray.origin.z, ray.direction.z);
        sx.0 && sy.0 && sz.0 && before(sx.1, sx.3, sx.2, sx.3)
            && before(sx.1, sx.3, sy.2, sy.3)
            && before(sx.1, sx.3, sz.2, sz.3)
            && before(sy.1, sy.3, sx.2, sx.3)
            && before(sy.1, sy.3, sy.2, sy.3)
            && before(sy.1, sy.3, sz.2, sz.3)
            && before(sz.1, sz.3, sx.2, sx.3)
            && before(sz.1, sz.3, sy.2, sy.3)
            && before(sz.1, sz.3, sz.2, sz.3)
    }
}

/// The terms of one slab: whether a parallel ray starts inside it, the entry
/// and exit numerators, and their common denominator `|d|`.
fn slab(lo: i64, hi: i64, o: i64, d: i64) -> (r: (bool, i64, i64, i64))
    requires
        -(BOX_MAX as int) <= lo <= BOX_MAX,
        -(BOX_MAX as int) <= hi <= BOX_MAX,
        -(COORD_MAX as int) <= o <= COORD_MAX,
        -(COORD_MAX as int) <= d <= COORD_MAX,
    ensures
        r.0 == (d != 0 || (lo < o && o < hi)),
        r.1 == slab_entry(lo as int, hi as int, o as int, d as int),
        r.2 == slab_exit(lo as int, hi as int, o as int, d as int),
        r.3 == abs(d as int),
        -(SLAB_MAX as int) <= r.1 <= SLAB_MAX,
        -(SLAB_MAX as int) <= r.2 <= SLAB_MAX,
        0 <= r.3 <= SLAB_MAX,
{
    let open = d != 0 || (lo < o && o < hi);
    if d > 0 {
        (open, lo - o, hi - o, d)
    } else {
        (open, o - hi, o - lo, -d)
    }
}

/// Bound on the terms of a slab.
const SLAB_MAX: i64 = 262144;

/// Whether the entry `entry_i / span_i` comes strictly before the exit
/// `exit_j / span_j`; a slab with zero span sets no bound.
fn before(entry_i: i64, span_i: i64, exit_j: i64, span_j: i64) -> (r: bool)
    requires
        -(SLAB_MAX as int) <= entry_i <= SLAB_MAX,
        -(SLAB_MAX as int) <= exit_j <= SLAB_MAX,
        0 <= span_i <= SLAB_MAX,
        0 <= span_j <= SLAB_MAX,
    ensures
        r == (span_i == 0 || span_j == 0 || entry_i * span_j < exit_j * span_i),
{
    proof {
        lemma_mul_within(entry_i as int, span_j as int, SLAB_MAX as int, SLAB_MAX as int);
        lemma_mul_within(exit_j as int, span_i as int, SLAB_MAX as int, SLAB_MAX as int);
    }
    span_i == 0 || span_j == 0 || entry_i * span_j < exit_j * span_i
}

proof fn lemma_inside_axis(lo: int, hi: int, o: int, d: int, num: int, den: int)
    requires
        den > 0,
        lo * den < o * den + num * d < hi * den,
    ensures
        d == 0 ==> lo < o && o < hi,
        d != 0 ==> slab_entry(lo, hi, o, d) * den < num * abs(d),
        d != 0 ==> num * abs(d) < slab_exit(lo, hi, o, d) * den,
{
    if d == 0 {
        assert(lo < o && o < hi) by (nonlinear_arith)
            requires
                den > 0,
                lo * den < o * den + num * d < hi * den,
                d == 0,
        ;
    } else if d > 0 {
        assert((lo - o) * den < num * d && num * d < (hi - o) * den) by (nonlinear_arith)
            requires
                lo * den < o * den + num * d < hi * den,
        ;
    } else {
        assert((o - hi) * den < num * (-d) && num * (-d) < (o - lo) * den) by (nonlinear_arith)
            requires
                lo * den < o * den + num * d < hi * den,
        ;
    }
}

proof fn lemma_pair(a: int, b: int, n: int, den: int, di: int, dj: int)
    requires
        den > 0,
        di > 0,
        dj > 0,
        a * den < n * di,
        n * dj < b * den,
    ensures
        a * dj < b * di,
{
    assert(a * den * dj < n * di * dj) by (nonlinear_arith)
        requires
            a * den < n * di,
            dj > 0,
    ;
    assert(n * dj * di < b * den * di) by (nonlinear_arith)
        requires
            n * dj < b * den,
            di > 0,
    ;
    assert(a * dj * den < b * di * den) by (nonlinear_arith)
        requires
            a * den * dj < n * di * dj,
            n * dj * di < b * den * di,
    ;
    assert(a * dj < b * di) by (nonlinear_arith)
        requires
            a * dj * den < b * di * den,
            den > 0,
    ;
}

/// A box that holds a point of the ray's line strictly inside passes the
/// slab test.
pub proof fn lemma_inside_hit(b: Bounds, ray: Ray, num: int, den: int)
    requires
        inside(b.min@, b.max@, ray.origin@, ray.direction@, num, den),
    ensures
        b.hit(ray),
{
    let o = ray.origin@;
    let d = ray.direction@;
    lemma_inside_axis(b.min@.0, b.max@.0, o.0, d.0, num, den);
    lemma_inside_axis(b.min@.1, b.max@.1, o.1, d.1, num, den);
    lemma_inside_axis(b.min@.2, b.max@.2, o.2, d.2, num, den);
    assert forall|i: int, j: int| 0 <= i < 3 && 0 <= j < 3 implies #[trigger] b.pair_ok(ray, i, j) by {
        let di = coord(d, i);
        let dj = coord(d, j);
        if di != 0 && dj != 0 {
            let entry = slab_entry(coord(b.min@, i), coord(b.max@, i), coord(o, i), di);
            let exit = slab_exit(coord(b.min@, j), coord(b.max@, j), coord(o, j), dj);
            lemma_pair(entry, exit, num, den, abs(di), abs(dj));
        }
    }
    assert(b.pair_ok(ray, 0, 0) && b.pair_ok(ray, 0, 1) && b.pair_ok(ray, 0, 2));
    assert(b.pair_ok(ray, 1, 0) && b.pair_ok(ray, 1, 1) && b.pair_ok(ray, 1, 2));
    assert(b.pair_ok(ray, 2, 0) && b.pair_ok(ray, 2, 1) && b.pair_ok(ray, 2, 2));
}

/// A point strictly inside a box is strictly inside every box containing it.
pub proof fn lemma_inside_grow(outer: Bounds, inner: Bounds, o: V3, d: V3, num: int, den: int)
    requires
        outer.contains(inner),
        inside(inner.min@, inner.max@, o, d, num, den),
    ensures
        inside(outer.min@, outer.max@, o, d, num, den),
{
    assert(outer.min.x * den <= inner.min.x * den && outer.min.y * den <= inner.min.y * den
        && outer.min.z * den <= inner.min.z * den) by (nonlinear_arith)
        requires
            outer.contains(inner),
            den > 0,
    ;
    assert(outer.max.x * den >= inner.max.x * den && outer.max.y * den >= inner.max.y * den
        && outer.max.z * den >= inner.max.z * den) by (nonlinear_arith)
        requires
            outer.contains(inner),
            den > 0,
    ;
}

fn min3_i64(a: i64, b: i64, c: i64) -> (r: i64)
    ensures
        r == min3(a as int, b as int, c as int),
{
    if a <= b && a <= c {
        a
    } else if b <= c {
        b
    } else {
        c
    }
}

fn max3_i64(a: i64, b: i64, c: i64) -> (r: i64)
    ensures
        r == max3(a as int, b as int, c as int),
{
    if a >= b && a >= c {
        a
    } else if b >= c {
        b
    } else {
        c
    }
}

/// The box of `tri`: its vertices' extent grown by one unit on all six faces,
/// so that a hit on the triangle always lies strictly inside.
pub fn triangle_bounds(tri: &Triangle) -> (r: Bounds)
    requires
        tri.wf(),
    ensures
        r.min@ == tri_lo(*tri),
        r.max@ == tri_hi(*tri),
        r.wf(),
{
    let a = tri.vert[0].pos;
    let b = tri.vert[1].pos;
    let c = tri.vert[2].pos;
    Bounds {
        max: Vec3 {
            x: max3_i64(a.x, b.x, c.x) + 1,
            y: max3_i64(a.y, b.y, c.y) + 1,
            z: max3_i64(a.z, b.z, c.z) + 1,
        },
        min: Vec3 {
            x: min3_i64(a.x, b.x, c.x) - 1,
            y: min3_i64(a.y, b.y, c.y) - 1,
            z: min3_i64(a.z, b.z, c.z) - 1,
        },
    }
}

/// A triangle of a hierarchy together with its cached box.
#[derive(Clone, Copy, Debug)]
pub struct TriangleRef {
    pub bounds: Bounds,
    pub tri_ref: Triangle,
}

impl TriangleRef {
    pub open spec fn wf(&self) -> bool {
        &&& self.tri_ref.wf()
        &&& self.bounds.min@ == tri_lo(self.tri_ref)
        &&& self.bounds.max@ == tri_hi(self.tri_ref)
    }
}

pub open spec fn refs_wf(s: Seq<TriangleRef>) -> bool {
    forall|i: int| 0 <= i < s.len() ==> (#[trigger] s[i]).wf()
}

/// The triangles behind a sequence of references.
pub open spec fn tris_of(s: Seq<TriangleRef>) -> Seq<Triangle> {
    s.map_values(|r: TriangleRef| r.tri_ref)
}

/// `b` contains the box of every reference in `s`.
pub open spec fn contains_all(b: Bounds, s: Seq<TriangleRef>) -> bool {
    forall|i: int| 0 <= i < s.len() ==> b.contains(#[trigger] s[i].bounds)
}

/// A node of the hierarchy: an inner node owns two subtrees and the box of
/// each; a leaf holds at most three triangles.
pub enum Node {
    Internal { left_bounds: Bounds, right_bounds: Bounds, left: Box<Node>, right: Box<Node> },
    Leaf { refs: Vec<TriangleRef> },
}

impl Node {
    /// The references held in the leaves below this node, left to right.
    pub open spec fn refs(&self) -> Seq<TriangleRef>
        decreases self,
    {
        match self {
            Node::Internal { left, right, .. } => left.refs() + right.refs(),
            Node::Leaf { refs } => refs@,
        }
    }

    pub open spec fn tris(&self) -> Seq<Triangle> {
        tris_of(self.refs())
    }

    /// The number of references in the leaves plus two for each inner node.
    pub open spec fn size(&self) -> nat
        decreases self,
    {
        match self {
            Node::Internal { left, right, .. } => left.size() + right.size() + 2,
            Node::Leaf { refs } => refs@.len(),
        }
    }

    /// Leaves hold at most three well-formed references; each box that an
    /// inner node stores is the smallest box containing the boxes of all the
    /// triangles in that child's subtree, which is not empty.
    pub open spec fn wf(&self) -> bool
        decreases self,
    {
        match self {
            Node::Internal { left_bounds, right_bounds, left, right } => {
                &&& left.wf()
                &&& right.wf()
                &&& left_bounds.wf()
                &&& right_bounds.wf()
                &&& contains_all(*left_bounds, left.refs())
                &&& contains_all(*right_bounds, right.refs())
                &&& left.refs().len() > 0
                &&& right.refs().len() > 0
                &&& *left_bounds == union_box(left.refs())
                &&& *right_bounds == union_box(right.refs())
            },
            Node::Leaf { refs } => refs@.len() <= 3 && refs_wf(refs@),
        }
    }

    /// Every inner node splits its references at the middle: the left child
    /// holds half of them rounded down. Every leaf holds at most three.
    pub open spec fn balanced(&self) -> bool
        decreases self,
    {
        match self {
            Node::Internal { left, right, .. } => {
                let n = left.refs().len() + right.refs().len();
                &&& n > 3
                &&& left.refs().len() == n / 2
                &&& left.balanced()
                &&& right.balanced()
            },
            Node::Leaf { refs } => refs@.len() <= 3,
        }
    }

    /// The hit that the traversal reports: a child is searched only where
    /// the ray passes its box; where both children report a hit, the left
    /// one is kept only where it is strictly nearer; a leaf keeps the first
    /// of its equally near hits.
    pub open spec fn answer(&self, ray: Ray) -> Option<HitModel>
        decreases self,
    {
        match self {
            Node::Internal { left_bounds, right_bounds, left, right } => {
                let l = if left_bounds.hit(ray) { left.answer(ray) } else { None };
                let r = if right_bounds.hit(ray) { right.answer(ray) } else { None };
                if l.is_some() && r.is_some() {
                    if closer(l.unwrap(), r.unwrap()) { l } else { r }
                } else if l.is_some() {
                    l
                } else {
                    r
                }
            },
            Node::Leaf { refs } => scan_answer(tris_of(refs@), ray),
        }
    }

    /// The number of inner nodes on the longest path down to a leaf.
    pub open spec fn height(&self) -> nat
        decreases self,
    {
        match self {
            Node::Internal { left, right, .. } => {
                let l = left.height();
                let r = right.height();
                1 + if l >= r { l } else { r }
            },
            Node::Leaf { .. } => 0,
        }
    }
}

pub proof fn lemma_refs_wf(n: &Node)
    requires
        n.wf(),
    ensures
        refs_wf(n.refs()),
    decreases n,
{
    match n {
        Node::Internal { left, right, .. } => {
            lemma_refs_wf(left);
            lemma_refs_wf(right);
            assert forall|i: int| 0 <= i < n.refs().len() implies (#[trigger] n.refs()[i]).wf() by {
                if i < left.refs().len() {
                    assert(n.refs()[i] == left.refs()[i]);
                } else {
                    assert(n.refs()[i] == right.refs()[i - left.refs().len()]);
                }
            }
        },
        Node::Leaf { .. } => {},
    }
}

/// A box that the ray misses holds no triangle that the ray hits.
proof fn lemma_missed_box(b: Bounds, s: Seq<TriangleRef>, ray: Ray)
    requires
        refs_wf(s),
        contains_all(b, s),
        !b.hit(ray),
    ensures
        forall|j: int| 0 <= j < s.len() ==> (#[trigger] tris_of(s)[j].hit(ray)).is_none(),
{
    assert forall|j: int| 0 <= j < s.len() implies (#[trigger] tris_of(s)[j].hit(ray)).is_none() by {
        let tri = s[j].tri_ref;
        assert(tris_of(s)[j] == tri);
        assert(s[j].wf());
        if tri.hit(ray).is_some() {
            let h = tri.hit(ray).unwrap();
            lemma_hit_inside(tri, ray);
            assert(b.contains(s[j].bounds));
            lemma_inside_grow(b, s[j].bounds, ray.origin@, ray.direction@, h.num, h.den);
            lemma_inside_hit(b, ray, h.num, h.den);
        }
    }
}

/// Combines the closest hits of two sequences into the closest hit of their
/// concatenation.
proof fn lemma_closest_concat(a: Seq<Triangle>, b: Seq<Triangle>, ray: Ray, ra: Option<HitModel>, rb: Option<HitModel>, r: Option<HitModel>)
    requires
        is_closest(a, ray, ra),
        is_closest(b, ray, rb),
        ra.is_some() ==> hit_wf(ra.unwrap()),
        rb.is_some() ==> hit_wf(rb.unwrap()),
        r == (if ra.is_some() && rb.is_some() {
            if closer(ra.unwrap(), rb.unwrap()) { ra } else { rb }
        } else if ra.is_some() {
            ra
        } else {
            rb
        }),
    ensures
        is_closest(a + b, ray, r),
{
    let s = a + b;
    assert forall|j: int| 0 <= j < s.len() implies #[trigger] s[j] == (if j < a.len() { a[j] } else { b[j - a.len()] }) by {}
    match r {
        None => {
            assert forall|j: int| 0 <= j < s.len() implies (#[trigger] s[j].hit(ray)).is_none() by {
                if j < a.len() {
                    assert(s[j] == a[j]);
                } else {
                    assert(s[j] == b[j - a.len()]);
                }
            }
        },
        Some(h) => {
            if ra.is_some() && rb.is_some() {
                let ha = ra.unwrap();
                let hb = rb.unwrap();
                if !closer(ha, hb) {
                    assert(no_farther(hb, ha)) by (nonlinear_arith)
                        requires
                            !(ha.num * hb.den < hb.num * ha.den),
                    ;
                }
            }
            assert forall|j: int|
                0 <= j < s.len() && (#[trigger] s[j].hit(ray)).is_some() implies no_farther(
                h,
                s[j].hit(ray).unwrap(),
            ) by {
                if j < a.len() {
                    assert(s[j] == a[j]);
                    let x = a[j].hit(ray).unwrap();
                    if h != ra.unwrap() {
                        lemma_closer_trans(h, ra.unwrap(), x);
                    }
                } else {
                    assert(s[j] == b[j - a.len()]);
                    let x = b[j - a.len()].hit(ray).unwrap();
                    if h != rb.unwrap() {
                        lemma_closer_trans(h, rb.unwrap(), x);
                    }
                }
            }
            if ra.is_some() && h == ra.unwrap() {
                let k = choose|k: int| 0 <= k < a.len() && (#[trigger] a[k].hit(ray)) == Some(h);
                assert(s[k] == a[k]);
            } else {
                let k = choose|k: int| 0 <= k < b.len() && (#[trigger] b[k].hit(ray)) == Some(h);
                assert(s[k + a.len()] == b[k]);
            }
        },
    }
}

/// The hit a scan over `s` keeps: each hit replaces the kept one only where
/// it is strictly nearer, so of equally near hits the first stays.
pub open spec fn scan_answer(s: Seq<Triangle>, ray: Ray) -> Option<HitModel>
    decreases s.len(),
{
    if s.len() == 0 {
        None
    } else {
        let prev = scan_answer(s.drop_last(), ray);
        match s.last().hit(ray) {
            None => prev,
            Some(x) => match prev {
                None => Some(x),
                Some(p) => if closer(x, p) {
                    Some(x)
                } else {
                    prev
                },
            },
        }
    }
}

/// Scans the references of a leaf and keeps the nearest hit.
fn leaf_intersect(refs: &Vec<TriangleRef>, ray: &Ray) -> (r: Option<IntersectionRecord>)
    requires
        refs_wf(refs@),
        ray.wf(),
    ensures
        is_closest(tris_of(refs@), *ray, record_view(r)),
        record_view(r) == scan_answer(tris_of(refs@), *ray),
        r.is_some() ==> hit_wf(r.unwrap()@),
{
    let ghost s = tris_of(refs@);
    let mut closest: Option<IntersectionRecord> = None;
    let ghost mut at: int = 0;
    let mut i: usize = 0;
    while i < refs.len()
        invariant
            i <= refs.len(),
            s == tris_of(refs@),
            refs_wf(refs@),
            ray.wf(),
            record_view(closest) == scan_answer(s.subrange(0, i as int), *ray),
            closest.is_none() ==> forall|j: int| 0 <= j < i ==> (#[trigger] s[j].hit(*ray)).is_none(),
            closest.is_some() ==> {
                &&& hit_wf(closest.unwrap()@)
                &&& 0 <= at < i
                &&& s[at].hit(*ray) == Some(closest.unwrap()@)
                &&& forall|j: int|
                    0 <= j < i && (#[trigger] s[j].hit(*ray)).is_some() ==> no_farther(
                        closest.unwrap()@,
                        s[j].hit(*ray).unwrap(),
                    )
            },
        decreases refs.len() - i,
    {
        assert(refs@[i as int].wf());
        assert(s[i as int] == refs@[i as int].tri_ref);
        assert(s.subrange(0, i + 1).drop_last() =~= s.subrange(0, i as int));
        assert(s.subrange(0, i + 1).last() == s[i as int]);
        if let Some(record) = refs[i].tri_ref.intersect(ray) {
            match closest {
                Some(old) => {
                    if record.closer_than(&old) {
                        proof {
                            assert forall|j: int|
                                0 <= j < i + 1 && (#[trigger] s[j].hit(*ray)).is_some() implies
                                no_farther(record@, s[j].hit(*ray).unwrap()) by {
                                if j < i {
                                    lemma_closer_strict_trans(record@, old@, s[j].hit(*ray).unwrap());
                                }
                            }
                            at = i as int;
                        }
                        closest = Some(record);
                    }
                },
                None => {
                    proof {
                        at = i as int;
                    }
                    closest = Some(record);
                },
            }
        }
        i = i + 1;
    }
    proof {
        if closest.is_some() {
            assert(s[at].hit(*ray) == Some(closest.unwrap()@));
        }
        assert(s.subrange(0, i as int) =~= s);
    }
    closest
}

impl Node {
    /// The nearest hit among the triangles below this node. A subtree whose
    /// box the ray misses is skipped; where both subtrees report a hit the
    /// nearer one is kept (the right one when they are equally near).
    pub fn intersect(&self, ray: &Ray) -> (r: Option<IntersectionRecord>)
        requires
            self.wf(),
            ray.wf(),
        ensures
            is_closest(self.tris(), *ray, record_view(r)),
            record_view(r) == self.answer(*ray),
            r.is_some() ==> hit_wf(r.unwrap()@),
        decreases self,
    {
        match self {
            Node::Internal { left_bounds, right_bounds, left, right } => {
                proof {
                    lemma_refs_wf(left);
                    lemma_refs_wf(right);
                }
                let left_hit = if left_bounds.intersect(ray) {
                    left.intersect(ray)
                } else {
                    proof {
                        lemma_missed_box(*left_bounds, left.refs(), *ray);
                    }
                    None
                };
                let right_hit = if right_bounds.intersect(ray) {
                    right.intersect(ray)
                } else {
                    proof {
                        lemma_missed_box(*right_bounds, right.refs(), *ray);
                    }
                    None
                };
                let r = match (left_hit, right_hit) {
                    (Some(l), Some(rr)) => {
                        if l.closer_than(&rr) {
                            Some(l)
                        } else {
                            Some(rr)
                        }
                    },
                    (Some(l), None) => Some(l),
                    (None, rr) => rr,
                };
                proof {
                    lemma_closest_concat(left.tris(), right.tris(), *ray, record_view(left_hit),
                        record_view(right_hit), record_view(r));
                    assert(self.tris() =~= left.tris() + right.tris());
                }
                r
            },
            Node::Leaf { refs } => leaf_intersect(refs, ray),
        }
    }
}

fn min_i64(a: i64, b: i64) -> (r: i64)
    ensures
        r == if a <= b { a } else { b },
{
    if a <= b {
        a
    } else {
        b
    }
}

fn max_i64(a: i64, b: i64) -> (r: i64)
    ensures
        r == if a >= b { a } else { b },
{
    if a >= b {
        a
    } else {
        b
    }
}

/// The smallest box containing both `a` and `b`.
pub open spec fn join(a: Bounds, b: Bounds) -> Bounds {
    Bounds {
        max: Vec3 {
            x: if a.max.x >= b.max.x { a.max.x } else { b.max.x },
            y: if a.max.y >= b.max.y { a.max.y } else { b.max.y },
            z: if a.max.z >= b.max.z { a.max.z } else { b.max.z },
        },
        min: Vec3 {
            x: if a.min.x <= b.min.x { a.min.x } else { b.min.x },
            y: if a.min.y <= b.min.y { a.min.y } else { b.min.y },
            z: if a.min.z <= b.min.z { a.min.z } else { b.min.z },
        },
    }
}

/// The smallest box containing the boxes of all of `s` (for non-empty `s`).
pub open spec fn union_box(s: Seq<TriangleRef>) -> Bounds
    decreases s.len(),
{
    if s.len() <= 1 {
        s[0].bounds
    } else {
        join(union_box(s.drop_last()), s.last().bounds)
    }
}

/// The smallest box containing the boxes of all of `refs`.
fn refs_bounds(refs: &Vec<TriangleRef>) -> (r: Bounds)
    requires
        refs@.len() > 0,
        refs_wf(refs@),
    ensures
        r == union_box(refs@),
        r.wf(),
        contains_all(r, refs@),
{
    let mut a = refs[0].bounds;
    let mut i: usize = 1;
    while i < refs.len()
        invariant
            1 <= i <= refs.len(),
            refs_wf(refs@),
            a.wf(),
            contains_all(a, refs@.subrange(0, i as int)),
            a == union_box(refs@.subrange(0, i as int)),
        decreases refs.len() - i,
    {
        let b = refs[i].bounds;
        assert(refs@.subrange(0, i + 1).drop_last() =~= refs@.subrange(0, i as int));
        assert(refs@[i as int].wf());
        let next = Bounds {
            min: Vec3 { x: min_i64(a.min.x, b.min.x), y: min_i64(a.min.y, b.min.y), z: min_i64(a.min.z, b.min.z) },
            max: Vec3 { x: max_i64(a.max.x, b.max.x), y: max_i64(a.max.y, b.max.y), z: max_i64(a.max.z, b.max.z) },
        };
        assert forall|j: int| 0 <= j < i + 1 implies next.contains(
            #[trigger] refs@.subrange(0, i + 1)[j].bounds,
        ) by {
            if j < i {
                assert(refs@.subrange(0, i + 1)[j] == refs@.subrange(0, i as int)[j]);
            }
        }
        a = next;
        i = i + 1;
    }
    assert(refs@.subrange(0, i as int) =~= refs@);
    a
}

/// Each face of `b` is the matching face of the box of some reference in
/// `s`.
pub open spec fn attains(b: Bounds, s: Seq<TriangleRef>) -> bool {
    &&& exists|i: int| 0 <= i < s.len() && (#[trigger] s[i]).bounds.min.x == b.min.x
    &&& exists|i: int| 0 <= i < s.len() && (#[trigger] s[i]).bounds.min.y == b.min.y
    &&& exists|i: int| 0 <= i < s.len() && (#[trigger] s[i]).bounds.min.z == b.min.z
    &&& exists|i: int| 0 <= i < s.len() && (#[trigger] s[i]).bounds.max.x == b.max.x
    &&& exists|i: int| 0 <= i < s.len() && (#[trigger] s[i]).bounds.max.y == b.max.y
    &&& exists|i: int| 0 <= i < s.len() && (#[trigger] s[i]).bounds.max.z == b.max.z
}

proof fn lemma_union_tight(s: Seq<TriangleRef>)
    requires
        s.len() > 0,
    ensures
        contains_all(union_box(s), s),
        attains(union_box(s), s),
    decreases s.len(),
{
    if s.len() == 1 {
        assert(s[0].bounds == union_box(s));
    } else {
        let p = s.drop_last();
        lemma_union_tight(p);
        let u = union_box(s);
        assert forall|i: int| 0 <= i < s.len() implies u.contains(#[trigger] s[i].bounds) by {
            if i < s.len() - 1 {
                assert(s[i] == p[i]);
            }
        }
        let last = s.len() - 1;
        assert(s[last] == s.last());
        let i0 = choose|i: int| 0 <= i < p.len() && (#[trigger] p[i]).bounds.min.x == union_box(p).min.x;
        let i1 = choose|i: int| 0 <= i < p.len() && (#[trigger] p[i]).bounds.min.y == union_box(p).min.y;
        let i2 = choose|i: int| 0 <= i < p.len() && (#[trigger] p[i]).bounds.min.z == union_box(p).min.z;
        let i3 = choose|i: int| 0 <= i < p.len() && (#[trigger] p[i]).bounds.max.x == union_box(p).max.x;
        let i4 = choose|i: int| 0 <= i < p.len() && (#[trigger] p[i]).bounds.max.y == union_box(p).max.y;
        let i5 = choose|i: int| 0 <= i < p.len() && (#[trigger] p[i]).bounds.max.z == union_box(p).max.z;
        assert(s[i0] == p[i0] && s[i1] == p[i1] && s[i2] == p[i2]);
        assert(s[i3] == p[i3] && s[i4] == p[i4] && s[i5] == p[i5]);
    }
}

/// A box that contains the boxes of all of `s` and touches each of them on
/// every face is the union box of `s`.
proof fn lemma_tight_unique(b: Bounds, s: Seq<TriangleRef>)
    requires
        s.len() > 0,
        contains_all(b, s),
        attains(b, s),
    ensures
        b == union_box(s),
{
    lemma_union_tight(s);
    let u = union_box(s);
    let i0 = choose|i: int| 0 <= i < s.len() && (#[trigger] s[i]).bounds.min.x == b.min.x;
    let j0 = choose|i: int| 0 <= i < s.len() && (#[trigger] s[i]).bounds.min.x == u.min.x;
    let i1 = choose|i: int| 0 <= i < s.len() && (#[trigger] s[i]).bounds.min.y == b.min.y;
    let j1 = choose|i: int| 0 <= i < s.len() && (#[trigger] s[i]).bounds.min.y == u.min.y;
    let i2 = choose|i: int| 0 <= i < s.len() && (#[trigger] s[i]).bounds.min.z == b.min.z;
    let j2 = choose|i: int| 0 <= i < s.len() && (#[trigger] s[i]).bounds.min.z == u.min.z;
    let i3 = choose|i: int| 0 <= i < s.len() && (#[trigger] s[i]).bounds.max.x == b.max.x;
    let j3 = choose|i: int| 0 <= i < s.len() && (#[trigger] s[i]).bounds.max.x == u.max.x;
    let i4 = choose|i: int| 0 <= i < s.len() && (#[trigger] s[i]).bounds.max.y == b.max.y;
    let j4 = choose|i: int| 0 <= i < s.len() && (#[trigger] s[i]).bounds.max.y == u.max.y;
    let i5 = choose|i: int| 0 <= i < s.len() && (#[trigger] s[i]).bounds.max.z == b.max.z;
    let j5 = choose|i: int| 0 <= i < s.len() && (#[trigger] s[i]).bounds.max.z == u.max.z;
    assert(b.contains(s[j0].bounds) && u.contains(s[i0].bounds));
    assert(b.contains(s[j1].bounds) && u.contains(s[i1].bounds));
    assert(b.contains(s[j2].bounds) && u.contains(s[i2].bounds));
    assert(b.contains(s[j3].bounds) && u.contains(s[i3].bounds));
    assert(b.contains(s[j4].bounds) && u.contains(s[i4].bounds));
    assert(b.contains(s[j5].bounds) && u.contains(s[i5].bounds));
    assert(b.min == u.min);
    assert(b.max == u.max);
}

/// The union box of a sequence of references is that of any reordering.
proof fn lemma_union_perm(s1: Seq<TriangleRef>, s2: Seq<TriangleRef>)
    requires
        s1.len() > 0,
        s1.to_multiset() == s2.to_multiset(),
    ensures
        s2.len() > 0,
        union_box(s1) == union_box(s2),
{
    broadcast use vstd::seq_lib::group_to_multiset_ensures;
    vstd::seq_lib::to_multiset_len(s1);
    vstd::seq_lib::to_multiset_len(s2);
    lemma_union_tight(s1);
    let b = union_box(s1);
    assert forall|i: int| 0 <= i < s2.len() implies b.contains(#[trigger] s2[i].bounds) by {
        assert(s2.contains(s2[i]));
        vstd::seq_lib::to_multiset_contains(s2, s2[i]);
        vstd::seq_lib::to_multiset_contains(s1, s2[i]);
        assert(s1.contains(s2[i]));
        let k = choose|k: int| 0 <= k < s1.len() && s1[k] == s2[i];
        assert(b.contains(s1[k].bounds));
    }
    assert(attains(b, s2)) by {
        let i0 = choose|i: int| 0 <= i < s1.len() && (#[trigger] s1[i]).bounds.min.x == b.min.x;
        let i1 = choose|i: int| 0 <= i < s1.len() && (#[trigger] s1[i]).bounds.min.y == b.min.y;
        let i2 = choose|i: int| 0 <= i < s1.len() && (#[trigger] s1[i]).bounds.min.z == b.min.z;
        let i3 = choose|i: int| 0 <= i < s1.len() && (#[trigger] s1[i]).bounds.max.x == b.max.x;
        let i4 = choose|i: int| 0 <= i < s1.len() && (#[trigger] s1[i]).bounds.max.y == b.max.y;
        let i5 = choose|i: int| 0 <= i < s1.len() && (#[trigger] s1[i]).bounds.max.z == b.max.z;
        assert(s1.contains(s1[i0]) && s1.contains(s1[i1]) && s1.contains(s1[i2]));
        assert(s1.contains(s1[i3]) && s1.contains(s1[i4]) && s1.contains(s1[i5]));
        vstd::seq_lib::to_multiset_contains(s1, s1[i0]);
        vstd::seq_lib::to_multiset_contains(s2, s1[i0]);
        vstd::seq_lib::to_multiset_contains(s1, s1[i1]);
        vstd::seq_lib::to_multiset_contains(s2, s1[i1]);
        vstd::seq_lib::to_multiset_contains(s1, s1[i2]);
        vstd::seq_lib::to_multiset_contains(s2, s1[i2]);
        vstd::seq_lib::to_multiset_contains(s1, s1[i3]);
        vstd::seq_lib::to_multiset_contains(s2, s1[i3]);
        vstd::seq_lib::to_multiset_contains(s1, s1[i4]);
        vstd::seq_lib::to_multiset_contains(s2, s1[i4]);
        vstd::seq_lib::to_multiset_contains(s1, s1[i5]);
        vstd::seq_lib::to_multiset_contains(s2, s1[i5]);
        assert(s2.contains(s1[i0]) && s2.contains(s1[i1]) && s2.contains(s1[i2]));
        assert(s2.contains(s1[i3]) && s2.contains(s1[i4]) && s2.contains(s1[i5]));
    }
    lemma_tight_unique(b, s2);
}

/// References to every triangle of `mesh`, in order, each with its box.
fn build_refs(mesh: AggregatePrimitive) -> (r: Vec<TriangleRef>)
    requires
        mesh.wf(),
    ensures
        refs_wf(r@),
        tris_of(r@) == mesh.primitives@,
{
    let mut refs: Vec<TriangleRef> = Vec::new();
    let mut i: usize = 0;
    while i < mesh.primitives.len()
        invariant
            i <= mesh.primitives.len(),
            mesh.wf(),
            refs_wf(refs@),
            refs@.len() == i,
            tris_of(refs@) =~= mesh.primitives@.subrange(0, i as int),
        decreases mesh.primitives.len() - i,
    {
        let prim = mesh.primitives[i];
        assert(mesh.primitives@[i as int].wf());
        refs.push(TriangleRef { bounds: triangle_bounds(&prim), tri_ref: prim });
        assert forall|j: int| 0 <= j < i + 1 implies #[trigger] tris_of(refs@)[j]
            == mesh.primitives@.subrange(0, i + 1)[j] by {
            if j < i {
                assert(tris_of(refs@)[j] == refs@[j].tri_ref);
            }
        }
        assert(tris_of(refs@) =~= mesh.primitives@.subrange(0, i + 1));
        i = i + 1;
    }
    assert(mesh.primitives@.subrange(0, i as int) =~= mesh.primitives@);
    refs
}

/// Twice the centroid of the box of `r` on `axis`, the key of the sort.
pub open spec fn centroid2(r: TriangleRef, axis: int) -> int {
    coord(r.bounds.min@, axis) + coord(r.bounds.max@, axis)
}

pub open spec fn sorted_on(s: Seq<TriangleRef>, axis: int) -> bool {
    forall|i: int, j: int| 0 <= i < j < s.len() ==> centroid2(s[i], axis) <= centroid2(s[j], axis)
}

fn centroid2_exec(r: &TriangleRef, axis: usize) -> (k: i64)
    requires
        r.bounds.wf(),
        axis < 3,
    ensures
        k == centroid2(*r, axis as int),
{
    r.bounds.min.get(axis) + r.bounds.max.get(axis)
}

/// Merges two sequences sorted on `axis` into one.
fn merge(a: Vec<TriangleRef>, b: Vec<TriangleRef>, axis: usize) -> (r: Vec<TriangleRef>)
    requires
        axis < 3,
        refs_wf(a@),
        refs_wf(b@),
        sorted_on(a@, axis as int),
        sorted_on(b@, axis as int),
    ensures
        r@.to_multiset() == a@.to_multiset().add(b@.to_multiset()),
        sorted_on(r@, axis as int),
        refs_wf(r@),
{
    let ghost ax = axis as int;
    let mut out: Vec<TriangleRef> = Vec::new();
    let mut i: usize = 0;
    let mut j: usize = 0;
    proof {
        let e = Seq::<TriangleRef>::empty();
        assert(a@.subrange(0, 0) =~= e);
        assert(b@.subrange(0, 0) =~= e);
        assert(out@ =~= e);
        vstd::seq_lib::to_multiset_len(e);
        vstd::multiset::lemma_multiset_empty_len(e.to_multiset());
        assert(e.to_multiset().add(e.to_multiset()) =~= e.to_multiset());
    }
    while i < a.len() || j < b.len()
        invariant
            axis < 3,
            ax == axis as int,
            i <= a.len(),
            j <= b.len(),
            refs_wf(a@),
            refs_wf(b@),
            sorted_on(a@, ax),
            sorted_on(b@, ax),
            refs_wf(out@),
            sorted_on(out@, ax),
            out@.to_multiset() == a@.subrange(0, i as int).to_multiset().add(
                b@.subrange(0, j as int).to_multiset(),
            ),
            i < a.len() ==> forall|k: int| 0 <= k < out@.len() ==> centroid2(#[trigger] out@[k], ax) <= centroid2(a@[i as int], ax),
            j < b.len() ==> forall|k: int| 0 <= k < out@.len() ==> centroid2(#[trigger] out@[k], ax) <= centroid2(b@[j as int], ax),
        decreases a.len() + b.len() - i - j,
    {
        let take_a = if i < a.len() && j < b.len() {
            assert(a@[i as int].wf() && b@[j as int].wf());
            centroid2_exec(&a[i], axis) <= centroid2_exec(&b[j], axis)
        } else {
            i < a.len()
        };
        let ghost before = out@;
        if take_a {
            let x = a[i];
            assert(a@[i as int].wf());
            out.push(x);
            proof {
                assert(a@.subrange(0, i + 1) =~= a@.subrange(0, i as int).push(x));
                vstd::seq_lib::to_multiset_build(a@.subrange(0, i as int), x);
                vstd::seq_lib::to_multiset_build(before, x);
                assert(out@.to_multiset() =~= a@.subrange(0, i + 1).to_multiset().add(
                    b@.subrange(0, j as int).to_multiset()));
            }
            i = i + 1;
        } else {
            let x = b[j];
            assert(b@[j as int].wf());
            out.push(x);
            proof {
                assert(b@.subrange(0, j + 1) =~= b@.subrange(0, j as int).push(x));
                vstd::seq_lib::to_multiset_build(b@.subrange(0, j as int), x);
                vstd::seq_lib::to_multiset_build(before, x);
                assert(out@.to_multiset() =~= a@.subrange(0, i as int).to_multiset().add(
                    b@.subrange(0, j + 1).to_multiset()));
            }
            j = j + 1;
        }
    }
    proof {
        assert(a@.subrange(0, i as int) =~= a@);
        assert(b@.subrange(0, j as int) =~= b@);
    }
    out
}

/// Sorts `v` by the centroid of the boxes on `axis`, by merging sorted
/// halves.
fn merge_sort(v: Vec<TriangleRef>, axis: usize) -> (r: Vec<TriangleRef>)
    requires
        axis < 3,
        refs_wf(v@),
    ensures
        r@.to_multiset() == v@.to_multiset(),
        sorted_on(r@, axis as int),
        refs_wf(r@),
    decreases v@.len(),
{
    if v.len() <= 1 {
        return v;
    }
    let ghost whole = v@;
    let mut left = v;
    let middle = left.len() / 2;
    let right = left.split_off(middle);
    proof {
        assert(whole =~= left@ + right@);
        vstd::seq_lib::lemma_multiset_commutative(left@, right@);
        assert forall|i: int| 0 <= i < left@.len() implies (#[trigger] left@[i]).wf() by {
            assert(left@[i] == whole[i]);
        }
        assert forall|i: int| 0 <= i < right@.len() implies (#[trigger] right@[i]).wf() by {
            assert(right@[i] == whole[i + middle]);
        }
    }
    let l = merge_sort(left, axis);
    let r = merge_sort(right, axis);
    merge(l, r, axis)
}

/// Sorts `refs` by the centroid of their boxes on `axis`.
fn sort_refs(refs: &mut Vec<TriangleRef>, axis: usize)
    requires
        axis < 3,
        refs_wf(old(refs)@),
    ensures
        final(refs)@.to_multiset() == old(refs)@.to_multiset(),
        sorted_on(final(refs)@, axis as int),
        refs_wf(final(refs)@),
{
    let all = refs.split_off(0);
    assert(all@ =~= old(refs)@);
    *refs = merge_sort(all, axis);
}

proof fn lemma_contains_all_perm(b: Bounds, s1: Seq<TriangleRef>, s2: Seq<TriangleRef>)
    requires
        s1.to_multiset() == s2.to_multiset(),
        contains_all(b, s1),
        refs_wf(s1),
    ensures
        contains_all(b, s2),
        refs_wf(s2),
{
    broadcast use vstd::seq_lib::group_to_multiset_ensures;
    assert forall|i: int| 0 <= i < s2.len() implies b.contains(#[trigger] s2[i].bounds) && s2[i].wf() by {
        assert(s2.contains(s2[i]));
        vstd::seq_lib::to_multiset_contains(s2, s2[i]);
        vstd::seq_lib::to_multiset_contains(s1, s2[i]);
        assert(s1.contains(s2[i]));
        let k = choose|k: int| 0 <= k < s1.len() && s1[k] == s2[i];
        assert(s1[k].wf());
    }
    assert forall|i: int| 0 <= i < s2.len() implies (#[trigger] s2[i]).wf() by {
        assert(b.contains(s2[i].bounds) && s2[i].wf());
    }
}

/// Reordering a sequence of references reorders their triangles alike.
pub proof fn lemma_tris_perm(a: Seq<TriangleRef>, b: Seq<TriangleRef>)
    requires
        a.to_multiset() == b.to_multiset(),
    ensures
        tris_of(a).to_multiset() == tris_of(b).to_multiset(),
    decreases a.len(),
{
    broadcast use vstd::seq_lib::group_to_multiset_ensures;
    vstd::seq_lib::to_multiset_len(a);
    vstd::seq_lib::to_multiset_len(b);
    if a.len() == 0 {
        assert(b.len() == 0);
        assert(tris_of(a) =~= tris_of(b));
    } else {
        let x = a.last();
        assert(a.contains(x));
        vstd::seq_lib::to_multiset_contains(a, x);
        vstd::seq_lib::to_multiset_contains(b, x);
        assert(b.contains(x));
        let k = choose|k: int| 0 <= k < b.len() && b[k] == x;
        let a1 = a.drop_last();
        let b1 = b.remove(k);
        assert(a =~= a1.push(x));
        assert(a1.to_multiset() == b1.to_multiset());
        lemma_tris_perm(a1, b1);
        assert(tris_of(a) =~= tris_of(a1).push(x.tri_ref));
        assert(tris_of(b) =~= tris_of(b1).insert(k, x.tri_ref));
    }
}

/// An axis of greatest extent of `b`, preferring x, then y, on ties.
pub open spec fn longest_axis(b: Bounds) -> int {
    let vx = b.max.x - b.min.x;
    let vy = b.max.y - b.min.y;
    let vz = b.max.z - b.min.z;
    if vx >= vy && vx >= vz {
        0
    } else if vy >= vz {
        1
    } else {
        2
    }
}

/// Builds the subtree over `refs`: three or fewer make a leaf; otherwise the
/// references are sorted by centroid on the longest axis of their common box
/// and split at the middle index, and each half becomes a subtree that stores
/// its own box.
pub fn build_node(refs: Vec<TriangleRef>) -> (r: Node)
    requires
        refs_wf(refs@),
    ensures
        r.wf(),
        r.refs().to_multiset() == refs@.to_multiset(),
        refs@.len() <= 3 ==> r == (Node::Leaf { refs }),
        refs@.len() > 3 ==> match r {
            Node::Internal { left, right, .. } => {
                &&& left.refs().len() == refs@.len() / 2
                &&& right.refs().len() == refs@.len() - refs@.len() / 2
                &&& forall|x: int, y: int|
                    0 <= x < left.refs().len() && 0 <= y < right.refs().len() ==> centroid2(
                        #[trigger] left.refs()[x],
                        longest_axis(union_box(refs@)),
                    ) <= centroid2(#[trigger] right.refs()[y], longest_axis(union_box(refs@)))
            },
            Node::Leaf { .. } => false,
        },
        r.balanced(),
        refs@.len() == 0 ==> r.size() == 0,
        refs@.len() > 0 ==> r.size() + 2 <= 4 * refs@.len(),
    decreases refs@.len(),
{
    broadcast use vstd::seq_lib::group_to_multiset_ensures;
    if refs.len() <= 3 {
        return Node::Leaf { refs };
    }
    let ghost input = refs@;
    let bounds = refs_bounds(&refs);
    let vx = bounds.max.x - bounds.min.x;
    let vy = bounds.max.y - bounds.min.y;
    let vz = bounds.max.z - bounds.min.z;
    let sort_axis: usize = if vx >= vy && vx >= vz {
        0
    } else if vy >= vz {
        1
    } else {
        2
    };
    let mut refs = refs;
    sort_refs(&mut refs, sort_axis);
    let ghost sorted = refs@;
    proof {
        vstd::seq_lib::to_multiset_len(sorted);
        vstd::seq_lib::to_multiset_len(input);
    }
    let middle = refs.len() / 2;
    let right_refs = refs.split_off(middle);
    let left_refs = refs;
    proof {
        assert(sorted =~= left_refs@ + right_refs@);
        vstd::seq_lib::lemma_multiset_commutative(left_refs@, right_refs@);
        assert(refs_wf(left_refs@)) by {
            assert forall|i: int| 0 <= i < left_refs@.len() implies (#[trigger] left_refs@[i]).wf() by {
                assert(left_refs@[i] == sorted[i]);
            }
        }
        assert(refs_wf(right_refs@)) by {
            assert forall|i: int| 0 <= i < right_refs@.len() implies (#[trigger] right_refs@[i]).wf() by {
                assert(right_refs@[i] == sorted[i + middle]);
            }
        }
    }
    let ghost left_seq = left_refs@;
    let ghost right_seq = right_refs@;
    let left_bounds = refs_bounds(&left_refs);
    let right_bounds = refs_bounds(&right_refs);
    let left = build_node(left_refs);
    let right = build_node(right_refs);
    proof {
        let axis = longest_axis(union_box(input));
        assert(axis == sort_axis as int);
        assert forall|x: int, y: int|
            0 <= x < left.refs().len() && 0 <= y < right.refs().len() implies centroid2(
                #[trigger] left.refs()[x],
                axis,
            ) <= centroid2(#[trigger] right.refs()[y], axis) by {
            let lx = left.refs()[x];
            let ry = right.refs()[y];
            vstd::seq_lib::to_multiset_contains(left.refs(), lx);
            vstd::seq_lib::to_multiset_contains(left_seq, lx);
            vstd::seq_lib::to_multiset_contains(right.refs(), ry);
            vstd::seq_lib::to_multiset_contains(right_seq, ry);
            assert(left.refs().contains(lx));
            assert(right.refs().contains(ry));
            let i = choose|i: int| 0 <= i < left_seq.len() && left_seq[i] == lx;
            let j = choose|j: int| 0 <= j < right_seq.len() && right_seq[j] == ry;
            assert(sorted[i] == lx);
            assert(sorted[j + middle] == ry);
        }
        lemma_union_perm(left_seq, left.refs());
        lemma_union_perm(right_seq, right.refs());
        lemma_contains_all_perm(left_bounds, left_seq, left.refs());
        lemma_contains_all_perm(right_bounds, right_seq, right.refs());
        vstd::seq_lib::lemma_multiset_commutative(left.refs(), right.refs());
        vstd::seq_lib::to_multiset_len(left.refs());
        vstd::seq_lib::to_multiset_len(left_seq);
        vstd::seq_lib::to_multiset_len(right.refs());
        vstd::seq_lib::to_multiset_len(right_seq);
    }
    Node::Internal { left_bounds, right_bounds, left: Box::new(left), right: Box::new(right) }
}

/// The debug heat of a leaf: the number of its triangles that the ray hits,
/// and the number of their boxes that it passes.
pub open spec fn leaf_heat(s: Seq<TriangleRef>, ray: Ray) -> (int, int, int)
    decreases s.len(),
{
    if s.len() == 0 {
        (0, 0, 0)
    } else {
        let rest = leaf_heat(s.drop_last(), ray);
        (
            rest.0 + if s.last().tri_ref.hit(ray).is_some() { 1int } else { 0int },
            rest.1 + if s.last().bounds.hit(ray) { 1int } else { 0int },
            rest.2,
        )
    }
}

/// The debug heat of a subtree: triangles hit, triangle boxes passed, and
/// inner-node boxes passed on the way down.
pub open spec fn heat(n: &Node, ray: Ray) -> (int, int, int)
    decreases n,
{
    match n {
        Node::Internal { left_bounds, right_bounds, left, right } => {
            let l = if left_bounds.hit(ray) {
                let h = heat(left, ray);
                (h.0, h.1, h.2 + 1)
            } else {
                (0, 0, 0)
            };
            let r = if right_bounds.hit(ray) {
                let h = heat(right, ray);
                (h.0, h.1, h.2 + 1)
            } else {
                (0, 0, 0)
            };
            (l.0 + r.0, l.1 + r.1, l.2 + r.2)
        },
        Node::Leaf { refs } => leaf_heat(refs@, ray),
    }
}

proof fn lemma_leaf_heat_bound(s: Seq<TriangleRef>, ray: Ray)
    ensures
        0 <= leaf_heat(s, ray).0 <= s.len(),
        0 <= leaf_heat(s, ray).1 <= s.len(),
        leaf_heat(s, ray).2 == 0,
    decreases s.len(),
{
    if s.len() > 0 {
        lemma_leaf_heat_bound(s.drop_last(), ray);
    }
}

proof fn lemma_heat_bound(n: &Node, ray: Ray)
    ensures
        0 <= heat(n, ray).0,
        0 <= heat(n, ray).1,
        0 <= heat(n, ray).2,
        heat(n, ray).0 + heat(n, ray).1 + heat(n, ray).2 <= 2 * n.size(),
    decreases n,
{
    match n {
        Node::Internal { left, right, .. } => {
            lemma_heat_bound(left, ray);
            lemma_heat_bound(right, ray);
        },
        Node::Leaf { refs } => {
            lemma_leaf_heat_bound(refs@, ray);
        },
    }
}

fn leaf_heat_exec(refs: &Vec<TriangleRef>, ray: &Ray) -> (r: (u64, u64, u64))
    requires
        refs_wf(refs@),
        ray.wf(),
        refs@.len() <= u64::MAX,
    ensures
        (r.0 as int, r.1 as int, r.2 as int) == leaf_heat(refs@, *ray),
{
    let mut hits: u64 = 0;
    let mut boxes: u64 = 0;
    let mut i: usize = 0;
    while i < refs.len()
        invariant
            i <= refs.len(),
            refs_wf(refs@),
            ray.wf(),
            refs@.len() <= u64::MAX,
            (hits as int, boxes as int, 0int) == leaf_heat(refs@.subrange(0, i as int), *ray),
        decreases refs.len() - i,
    {
        proof {
            lemma_leaf_heat_bound(refs@.subrange(0, i as int), *ray);
            assert(refs@.subrange(0, i + 1).drop_last() =~= refs@.subrange(0, i as int));
        }
        assert(refs@[i as int].wf());
        if refs[i].tri_ref.intersect(ray).is_some() {
            hits = hits + 1;
        }
        if refs[i].bounds.intersect(ray) {
            boxes = boxes + 1;
        }
        i = i + 1;
    }
    assert(refs@.subrange(0, i as int) =~= refs@);
    (hits, boxes, 0)
}

impl Node {
    /// The debug heat of this subtree for `ray`, as `heat` states it.
    pub fn intersect_debug(&self, ray: &Ray) -> (r: (u64, u64, u64))
        requires
            self.wf(),
            ray.wf(),
            2 * self.size() <= u64::MAX,
        ensures
            (r.0 as int, r.1 as int, r.2 as int) == heat(self, *ray),
        decreases self,
    {
        proof {
            lemma_heat_bound(self, *ray);
        }
        match self {
            Node::Internal { left_bounds, right_bounds, left, right } => {
                proof {
                    lemma_heat_bound(left, *ray);
                    lemma_heat_bound(right, *ray);
                }
                let mut res: (u64, u64, u64) = (0, 0, 0);
                if left_bounds.intersect(ray) {
                    let h = left.intersect_debug(ray);
                    res = (h.0, h.1, h.2 + 1);
                }
                if right_bounds.intersect(ray) {
                    let h = right.intersect_debug(ray);
                    res = (res.0 + h.0, res.1 + h.1, res.2 + h.2 + 1);
                }
                res
            },
            Node::Leaf { refs } => {
                proof {
                    lemma_refs_wf(self);
                }
                leaf_heat_exec(refs, ray)
            },
        }
    }
}

/// A bounding volume hierarchy over the triangles of one mesh.
pub struct Tree {
    pub root: Node,
}

impl Tree {
    pub open spec fn wf(&self) -> bool {
        self.root.wf()
    }

    /// The triangles held in the leaves, left to right.
    pub open spec fn tris(&self) -> Seq<Triangle> {
        self.root.tris()
    }

    /// Builds the hierarchy over the triangles of `mesh`; each of them ends
    /// up in exactly one leaf.
    pub fn new(mesh: AggregatePrimitive) -> (r: Tree)
        requires
            mesh.wf(),
        ensures
            r.wf(),
            r.root.balanced(),
            r.tris().to_multiset() == mesh.primitives@.to_multiset(),
            r.root.size() <= 4 * mesh.primitives@.len(),
    {
        let ghost prims = mesh.primitives@;
        let refs = build_refs(mesh);
        let ghost seq = refs@;
        let root = build_node(refs);
        proof {
            lemma_tris_perm(root.refs(), seq);
            assert(tris_of(seq).len() == seq.len());
        }
        Tree { root }
    }

    /// Counts, for visualising the hierarchy: the triangles that `ray` hits
    /// and the triangle boxes it passes in the leaves it reaches, and the
    /// inner-node boxes it passes on the way.
    pub fn debug(&self, ray: &Ray) -> (r: (u64, u64, u64))
        requires
            self.wf(),
            ray.wf(),
            2 * self.root.size() <= u64::MAX,
        ensures
            (r.0 as int, r.1 as int, r.2 as int) == heat(&self.root, *ray),
    {
        self.root.intersect_debug(ray)
    }

    /// The nearest hit among the triangles of the hierarchy.
    pub fn intersect(&self, ray: &Ray) -> (r: Option<IntersectionRecord>)
        requires
            self.wf(),
            ray.wf(),
        ensures
            is_closest(self.tris(), *ray, record_view(r)),
            record_view(r) == self.root.answer(*ray),
            r.is_some() ==> hit_wf(r.unwrap()@),
    {
        self.root.intersect(ray)
    }
}

/// Closest hits over two orderings of the same triangles agree: both are
/// absent, or both lie at the same distance.
pub proof fn lemma_closest_perm(a: Seq<Triangle>, b: Seq<Triangle>, ray: Ray, ra: Option<HitModel>, rb: Option<HitModel>)
    requires
        a.to_multiset() == b.to_multiset(),
        is_closest(a, ray, ra),
        is_closest(b, ray, rb),
        ra.is_some() ==> hit_wf(ra.unwrap()),
        rb.is_some() ==> hit_wf(rb.unwrap()),
    ensures
        ra.is_some() == rb.is_some(),
        ra.is_some() ==> same_distance(ra.unwrap(), rb.unwrap()),
{
    if ra.is_some() {
        let h = ra.unwrap();
        let k = choose|k: int| 0 <= k < a.len() && (#[trigger] a[k].hit(ray)) == Some(h);
        vstd::seq_lib::to_multiset_contains(a, a[k]);
        vstd::seq_lib::to_multiset_contains(b, a[k]);
        assert(a.contains(a[k]));
        let m = choose|m: int| 0 <= m < b.len() && b[m] == a[k];
        assert(b[m].hit(ray).is_some());
    }
    if rb.is_some() {
        let h = rb.unwrap();
        let k = choose|k: int| 0 <= k < b.len() && (#[trigger] b[k].hit(ray)) == Some(h);
        vstd::seq_lib::to_multiset_contains(b, b[k]);
        vstd::seq_lib::to_multiset_contains(a, b[k]);
        assert(b.contains(b[k]));
        let m = choose|m: int| 0 <= m < a.len() && a[m] == b[k];
        assert(a[m].hit(ray).is_some());
    }
    if ra.is_some() && rb.is_some() {
        let x = ra.unwrap();
        let y = rb.unwrap();
        assert(x.num * y.den == y.num * x.den) by (nonlinear_arith)
            requires
                x.num * y.den <= y.num * x.den,
                y.num * x.den <= x.num * y.den,
        ;
    }
}

/// Hits of `ray` on the triangles of `s` that lie at the same distance are
/// the same hit (same distance and normal).
pub open spec fn no_distance_ties(s: Seq<Triangle>, ray: Ray) -> bool {
    forall|i: int, j: int|
        0 <= i < s.len() && 0 <= j < s.len() && (#[trigger] s[i].hit(ray)).is_some() && (#[trigger] s[j].hit(
            ray,
        )).is_some() && same_distance(s[i].hit(ray).unwrap(), s[j].hit(ray).unwrap()) ==> s[i].hit(ray)
            == s[j].hit(ray)
}

/// The hierarchy answers as the flat scan does: for a tree built over the
/// triangles of `mesh`, any ray either misses in both or hits in both at the
/// same distance; and where no two different hits lie at the same distance,
/// the two report the same hit, normal included.
pub proof fn lemma_tree_matches_aggregate(
    tree: Tree,
    mesh: AggregatePrimitive,
    ray: Ray,
    from_tree: Option<HitModel>,
    from_scan: Option<HitModel>,
)
    requires
        tree.tris().to_multiset() == mesh.primitives@.to_multiset(),
        is_closest(tree.tris(), ray, from_tree),
        is_closest(mesh.primitives@, ray, from_scan),
        from_tree.is_some() ==> hit_wf(from_tree.unwrap()),
        from_scan.is_some() ==> hit_wf(from_scan.unwrap()),
    ensures
        from_tree.is_some() == from_scan.is_some(),
        from_tree.is_some() ==> same_distance(from_tree.unwrap(), from_scan.unwrap()),
        no_distance_ties(mesh.primitives@, ray) ==> from_tree == from_scan,
{
    lemma_closest_perm(tree.tris(), mesh.primitives@, ray, from_tree, from_scan);
    if from_tree.is_some() && no_distance_ties(mesh.primitives@, ray) {
        let a = tree.tris();
        let b = mesh.primitives@;
        let k = choose|k: int| 0 <= k < a.len() && (#[trigger] a[k].hit(ray)) == from_tree;
        vstd::seq_lib::to_multiset_contains(a, a[k]);
        vstd::seq_lib::to_multiset_contains(b, a[k]);
        assert(a.contains(a[k]));
        let i = choose|i: int| 0 <= i < b.len() && b[i] == a[k];
        let j = choose|j: int| 0 <= j < b.len() && (#[trigger] b[j].hit(ray)) == from_scan;
        assert(b[i].hit(ray).is_some() && b[j].hit(ray).is_some());
    }
}

} // verus!
