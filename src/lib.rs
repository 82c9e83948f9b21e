//! Integer-grid kernel of a ray tracer: bounding boxes with an exact slab
//! test, a bounding volume hierarchy built with the surface-area heuristic,
//! the linear scene scan and the recursion rule of the path integrator.
pub mod vector;
pub mod ray;
pub mod aabb;
pub mod bvh;
pub mod hits;
pub mod scene;
pub mod integrator;
