//! Rays in fixed-point scene units.
use vstd::prelude::*;

use crate::geom::{within, Vec3, COORD_MAX};

verus! {

/// A ray: an origin and a direction. The direction need not be of unit
/// length; distances along the ray are measured in multiples of it.
#[derive(Clone, Copy, Debug, PartialEq, Eq, Structural)]
pub struct Ray {
    pub origin: Vec3,
    pub direction: Vec3,
}

impl Ray {
    /// Both ends lie within the coordinate range and the direction is not zero.
    pub open spec fn wf(&self) -> bool {
        &&& within(self.origin@, COORD_MAX as int)
        &&& within(self.direction@, COORD_MAX as int)
        &&& self.direction@ != (0int, 0int, 0int)
    }

    pub fn new(origin: Vec3, direction: Vec3) -> (r: Ray)
        ensures
            r.origin == origin,
            r.direction == direction,
    {
        Ray { origin, direction }
    }
}

} // verus!
