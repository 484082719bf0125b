//! The decisions of the path-tracing integrator: how far a light path is
//! followed, and which light is sampled for direct lighting. The shading
//! arithmetic around them is carried out by the caller.
use vstd::prelude::*;

use crate::object::{objects_closest, AggregateObject, IntersectionRecord};
use crate::ray::Ray;

verus! {

/// Relies on rand::random: a value of any type that rand's standard
/// distribution covers, drawn from the thread-local generator. Nothing is
/// promised of it; the library draws `u64`s.
pub assume_specification<T>[ rand::random::<T> ]() -> (r: T)
    where
        rand::distributions::Standard: rand::distributions::Distribution<T>,
;

/// The light chosen by the draw `sample` among `count` lights.
pub fn light_index(count: usize, sample: u64) -> (r: usize)
    requires
        count > 0,
    ensures
        r == sample as int % count as int,
        r < count,
{
    (sample % (count as u64)) as usize
}

/// Picks one of `count` lights uniformly at random.
pub fn pick_light(count: usize) -> (r: usize)
    requires
        count > 0,
    ensures
        r < count,
{
    let sample: u64 = rand::random::<u64>();
    light_index(count, sample)
}

/// One light path as the integrator follows it: the ray to trace next, the
/// number of bounces taken, the bound on them, and whether the path has
/// ended.
#[derive(Clone, Copy, Debug)]
pub struct Path {
    pub ray: Ray,
    pub bounce: u32,
    pub depth: u32,
    pub done: bool,
}

impl Path {
    pub open spec fn wf(&self) -> bool {
        self.bounce <= self.depth && self.ray.wf()
    }

    /// How many more hits the path can yield at most.
    pub open spec fn remaining(&self) -> int {
        if self.done {
            0
        } else {
            self.depth - self.bounce
        }
    }

    /// A path starting along `ray` that takes at most `depth` bounces.
    pub fn new(ray: Ray, depth: u32) -> (r: Path)
        requires
            ray.wf(),
        ensures
            r.wf(),
            r.ray == ray,
            r.bounce == 0,
            r.depth == depth,
            !r.done,
            r.remaining() == depth,
    {
        Path { ray, bounce: 0, depth, done: false }
    }

    /// Traces the current ray. Once the depth bound is reached, or the ray
    /// escapes the scene, the path ends and yields nothing more; otherwise
    /// the nearest hit is returned and one bounce is counted. Each hit
    /// lowers `remaining` by one, so a path yields at most `depth` hits.
    pub fn next_hit(&mut self, scene: &AggregateObject) -> (r: Option<IntersectionRecord>)
        requires
            old(self).wf(),
            scene.wf(),
        ensures
            final(self).wf(),
            final(self).ray == old(self).ray,
            final(self).depth == old(self).depth,
            old(self).remaining() == 0 ==> r.is_none(),
            r.is_none() ==> final(self).done && final(self).remaining() == 0,
            r.is_some() ==> !final(self).done && final(self).remaining() == old(self).remaining() - 1,
            !old(self).done && old(self).bounce < old(self).depth ==> objects_closest(
                scene.primitives@,
                old(self).ray,
                r,
            ),
    {
        if self.done || self.bounce >= self.depth {
            self.done = true;
            return None;
        }
        let hit = scene.intersect(&self.ray);
        match hit {
            Some(record) => {
                self.bounce = self.bounce + 1;
                Some(record)
            },
            None => {
                self.done = true;
                None
            },
        }
    }

    /// Sets the ray along which the path continues after a bounce.
    pub fn continue_with(&mut self, ray: Ray)
        requires
            ray.wf(),
            old(self).wf(),
        ensures
            final(self).wf(),
            final(self).ray == ray,
            final(self).bounce == old(self).bounce,
            final(self).depth == old(self).depth,
            final(self).done == old(self).done,
            final(self).remaining() == old(self).remaining(),
    {
        self.ray = ray;
    }
}

/// A path yields at most `depth` hits: over any run of states in which each
/// step either keeps `remaining` or, yielding a hit, lowers it by one, the
/// number of hits is at most what `remaining` was at the start.
pub proof fn lemma_path_bounded(states: Seq<Path>, hits: Seq<bool>)
    requires
        states.len() == hits.len() + 1,
        forall|i: int| 0 <= i < states.len() ==> (#[trigger] states[i]).remaining() >= 0,
        forall|i: int|
            0 <= i < hits.len() ==> (if #[trigger] hits[i] {
                states[i + 1].remaining() == states[i].remaining() - 1
            } else {
                states[i + 1].remaining() <= states[i].remaining()
            }),
    ensures
        hit_count(hits) <= states[0].remaining(),
    decreases hits.len(),
{
    if hits.len() > 0 {
        let rest = states.subrange(1, states.len() as int);
        let rest_hits = hits.subrange(1, hits.len() as int);
        assert forall|i: int| 0 <= i < rest.len() implies (#[trigger] rest[i]).remaining() >= 0 by {
            assert(rest[i] == states[i + 1]);
        }
        assert forall|i: int| 0 <= i < rest_hits.len() implies (if #[trigger] rest_hits[i] {
            rest[i + 1].remaining() == rest[i].remaining() - 1
        } else {
            rest[i + 1].remaining() <= rest[i].remaining()
        }) by {
            assert(rest_hits[i] == hits[i + 1]);
            assert(rest[i] == states[i + 1]);
            assert(rest[i + 1] == states[i + 2]);
        }
        lemma_path_bounded(rest, rest_hits);
        assert(hits =~= seq![hits[0]] + rest_hits);
        assert(hits[0] ==> states[1].remaining() == states[0].remaining() - 1);
        assert(rest[0] == states[1]);
    }
}

/// The number of hits in a run.
pub open spec fn hit_count(hits: Seq<bool>) -> int
    decreases hits.len(),
{
    if hits.len() == 0 {
        0
    } else {
        (if hits[0] { 1int } else { 0int }) + hit_count(hits.subrange(1, hits.len() as int))
    }
}

} // verus!
