//! Shaded objects: a shape bound to a BRDF, and collections of them.
use vstd::prelude::*;

use crate::bvh::Tree;
use crate::geom::Wide;
use crate::primitive::{
    closer, hit_wf, is_closest, is_first, lemma_closer_strict_trans, lemma_closer_trans, no_farther, record_view,
    AggregatePrimitive, HitModel, Plane, Sphere, Triangle,
};
use crate::ray::Ray;

verus! {

/// The index of the BRDF that `Object::new` binds.
pub const DEFAULT_BRDF: usize = 0;

/// The geometry of an object.
pub enum Shape {
    /// Triangles answered by a linear scan.
    Mesh(AggregatePrimitive),
    /// Triangles under a bounding volume hierarchy.
    Bvh(Tree),
    Plane(Plane),
    Sphere(Sphere),
}

impl Shape {
    pub open spec fn wf(&self) -> bool {
        match self {
            Shape::Mesh(m) => m.wf(),
            Shape::Bvh(t) => t.wf(),
            Shape::Plane(p) => p.wf(),
            Shape::Sphere(p) => p.wf(),
        }
    }

    /// `h` is where `ray` hits one of the primitives of this shape.
    pub open spec fn hits(&self, ray: Ray, h: HitModel) -> bool {
        match self {
            Shape::Mesh(m) => seq_hits(m.primitives@, ray, h),
            Shape::Bvh(t) => seq_hits(t.tris(), ray, h),
            Shape::Plane(p) => p.hit(ray) == Some(h),
            Shape::Sphere(p) => p.hit(ray) == Some(h),
        }
    }

    /// `r` is the nearest hit of `ray` on this shape, or `None` where the
    /// ray hits none of its primitives.
    pub open spec fn closest(&self, ray: Ray, r: Option<HitModel>) -> bool {
        match r {
            None => forall|h: HitModel| !#[trigger] self.hits(ray, h),
            Some(h) => self.hits(ray, h) && hit_wf(h) && forall|h2: HitModel| #[trigger] self.hits(ray, h2) ==> no_farther(h, h2),
        }
    }
}

/// `h` is where `ray` hits one of the triangles of `s`.
pub open spec fn seq_hits(s: Seq<Triangle>, ray: Ray, h: HitModel) -> bool {
    exists|k: int| 0 <= k < s.len() && (#[trigger] s[k].hit(ray)) == Some(h)
}

impl Shape {
    /// `r` is what `Object::intersect` reports for this shape: a nearest hit;
    /// for a mesh, that of the first triangle at the nearest distance; for a
    /// hierarchy, the one its traversal keeps; for a plane or a sphere, its
    /// one hit.
    pub open spec fn answers(&self, ray: Ray, r: Option<HitModel>) -> bool {
        &&& self.closest(ray, r)
        &&& match self {
            Shape::Mesh(m) => is_first(m.primitives@, ray, r),
            Shape::Bvh(t) => r == t.root.answer(ray),
            Shape::Plane(p) => r == p.hit(ray),
            Shape::Sphere(p) => r == p.hit(ray),
        }
    }
}

proof fn lemma_seq_closest(s: Seq<Triangle>, ray: Ray, r: Option<HitModel>)
    requires
        is_closest(s, ray, r),
    ensures
        r.is_none() ==> forall|h: HitModel| !#[trigger] seq_hits(s, ray, h),
        r.is_some() ==> forall|h2: HitModel| #[trigger] seq_hits(s, ray, h2) ==> no_farther(r.unwrap(), h2),
{
    if r.is_some() {
        assert forall|h2: HitModel| #[trigger] seq_hits(s, ray, h2) implies no_farther(r.unwrap(), h2) by {
            let k = choose|k: int| 0 <= k < s.len() && (#[trigger] s[k].hit(ray)) == Some(h2);
            assert(s[k].hit(ray).is_some());
        }
    }
}

/// The outcome of an intersection query on an object: the hit distance
/// `t_num / t_den`, the surface normal, and the index of the BRDF of the
/// surface that was hit.
#[derive(Clone, Copy, Debug)]
pub struct IntersectionRecord {
    pub t_num: i128,
    pub t_den: i128,
    pub normal: Wide,
    pub brdf: usize,
}

impl IntersectionRecord {
    pub open spec fn hit(&self) -> HitModel {
        HitModel { num: self.t_num as int, den: self.t_den as int, normal: crate::geom::wide(self.normal) }
    }

    fn closer_than(&self, other: &IntersectionRecord) -> (r: bool)
        requires
            hit_wf(self.hit()),
            hit_wf(other.hit()),
        ensures
            r == closer(self.hit(), other.hit()),
    {
        proof {
            crate::geom::lemma_mul_within(self.t_num as int, other.t_den as int, crate::geom::TRIPLE_MAX as int, crate::geom::TRIPLE_MAX as int);
            crate::geom::lemma_mul_within(other.t_num as int, self.t_den as int, crate::geom::TRIPLE_MAX as int, crate::geom::TRIPLE_MAX as int);
        }
        self.t_num * other.t_den < other.t_num * self.t_den
    }
}

pub open spec fn object_hit(r: Option<IntersectionRecord>) -> Option<HitModel> {
    match r {
        Some(rec) => Some(rec.hit()),
        None => None,
    }
}

/// A shape together with the BRDF (by index) that shades it.
pub struct Object {
    pub primitive: Shape,
    pub brdf: usize,
}

impl Object {
    pub open spec fn wf(&self) -> bool {
        self.primitive.wf()
    }

    /// An object shaded by the default BRDF.
    pub fn new(primitive: Shape) -> (r: Object)
        ensures
            r.primitive == primitive,
            r.brdf == DEFAULT_BRDF,
    {
        Object { primitive, brdf: DEFAULT_BRDF }
    }

    /// The nearest hit of `ray` on the object's shape, tagged with its BRDF.
    pub fn intersect(&self, ray: &Ray) -> (r: Option<IntersectionRecord>)
        requires
            self.wf(),
            ray.wf(),
        ensures
            self.primitive.answers(*ray, object_hit(r)),
            r.is_some() ==> r.unwrap().brdf == self.brdf,
    {
        let hit = match &self.primitive {
            Shape::Mesh(m) => {
                let h = m.intersect(ray);
                proof {
                    lemma_seq_closest(m.primitives@, *ray, record_view(h));
                }
                h
            },
            Shape::Bvh(t) => {
                let h = t.intersect(ray);
                proof {
                    lemma_seq_closest(t.tris(), *ray, record_view(h));
                }
                h
            },
            Shape::Plane(p) => p.intersect(ray),
            Shape::Sphere(p) => p.intersect(ray),
        };
        match hit {
            Some(h) => Some(IntersectionRecord { t_num: h.t_num, t_den: h.t_den, normal: h.normal, brdf: self.brdf }),
            None => None,
        }
    }
}

pub open spec fn objects_wf(s: Seq<Object>) -> bool {
    forall|i: int| 0 <= i < s.len() ==> (#[trigger] s[i]).wf()
}

/// `r` is the nearest hit of `ray` over all objects of `s`: it is what the
/// first object with a hit at that distance reports, tagged with its BRDF.
pub open spec fn objects_closest(s: Seq<Object>, ray: Ray, r: Option<IntersectionRecord>) -> bool {
    match r {
        None => forall|i: int, h: HitModel| 0 <= i < s.len() ==> !#[trigger] s[i].primitive.hits(ray, h),
        Some(rec) => {
            &&& hit_wf(rec.hit())
            &&& exists|k: int|
                0 <= k < s.len() && (#[trigger] s[k].primitive.answers(ray, Some(rec.hit()))) && s[k].brdf == rec.brdf
                    && forall|j: int, h: HitModel| 0 <= j < k && #[trigger] s[j].primitive.hits(ray, h) ==> closer(rec.hit(), h)
            &&& forall|j: int, h: HitModel|
                0 <= j < s.len() && #[trigger] s[j].primitive.hits(ray, h) ==> no_farther(rec.hit(), h)
        },
    }
}

/// A collection of objects answered by a linear scan.
pub struct AggregateObject {
    pub primitives: Vec<Object>,
}

impl AggregateObject {
    pub open spec fn wf(&self) -> bool {
        objects_wf(self.primitives@)
    }

    pub fn new() -> (r: AggregateObject)
        ensures
            r.primitives@.len() == 0,
    {
        AggregateObject { primitives: Vec::new() }
    }

    /// The nearest hit over all objects; of equally near hits, the one of
    /// the first object.
    pub fn intersect(&self, ray: &Ray) -> (r: Option<IntersectionRecord>)
        requires
            self.wf(),
            ray.wf(),
        ensures
            objects_closest(self.primitives@, *ray, r),
    {
        let ghost s = self.primitives@;
        let mut closest: Option<IntersectionRecord> = None;
        let ghost mut at: int = 0;
        let mut i: usize = 0;
        while i < self.primitives.len()
            invariant
                i <= self.primitives.len(),
                s == self.primitives@,
                objects_wf(s),
                ray.wf(),
                closest.is_none() ==> forall|j: int, h: HitModel| 0 <= j < i ==> !#[trigger] s[j].primitive.hits(*ray, h),
                closest.is_some() ==> {
                    let c = closest.unwrap();
                    &&& hit_wf(c.hit())
                    &&& 0 <= at < i
                    &&& s[at].primitive.answers(*ray, Some(c.hit()))
                    &&& s[at].brdf == c.brdf
                    &&& forall|j: int, h: HitModel| 0 <= j < at && #[trigger] s[j].primitive.hits(*ray, h) ==> closer(c.hit(), h)
                    &&& forall|j: int, h: HitModel| 0 <= j < i && #[trigger] s[j].primitive.hits(*ray, h) ==> no_farther(c.hit(), h)
                },
            decreases self.primitives.len() - i,
        {
            assert(s[i as int].wf());
            if let Some(record) = self.primitives[i].intersect(ray) {
                match closest {
                    Some(old) => {
                        if record.closer_than(&old) {
                            proof {
                                assert forall|j: int, h: HitModel| 0 <= j < i + 1 && #[trigger] s[j].primitive.hits(*ray, h)
                                    implies no_farther(record.hit(), h) by {
                                    if j < i {
                                        lemma_closer_strict_trans(record.hit(), old.hit(), h);
                                    }
                                }
                                assert forall|j: int, h: HitModel| 0 <= j < i && #[trigger] s[j].primitive.hits(*ray, h)
                                    implies closer(record.hit(), h) by {
                                    lemma_closer_strict_trans(record.hit(), old.hit(), h);
                                }
                                at = i as int;
                            }
                            closest = Some(record);
                        } else {
                            proof {
                                assert forall|j: int, h: HitModel| 0 <= j < i + 1 && #[trigger] s[j].primitive.hits(*ray, h)
                                    implies no_farther(old.hit(), h) by {
                                    if j == i {
                                        lemma_closer_trans(old.hit(), record.hit(), h);
                                    }
                                }
                            }
                        }
                    },
                    None => {
                        proof {
                            at = i as int;
                        }
                        closest = Some(record);
                    },
                }
            }
            i = i + 1;
        }
        closest
    }
}

} // verus!
