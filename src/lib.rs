//! A path-tracing core whose scene geometry is held in fixed-point integer
//! coordinates: ray/primitive intersection distances are exact rationals, so
//! closest-hit selection and bounding-volume culling are decided exactly.
pub mod bvh;
pub mod enclosure;
pub mod geom;
pub mod integrator;
pub mod mesh;
pub mod object;
pub mod primitive;
pub mod ray;
