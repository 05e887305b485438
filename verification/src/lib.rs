//! The core of a ray tracer, verified.
//!
//! The library holds what a ray tracer decides and keeps: the spatial index
//! over a scene and the search for the nearest hit in it, the decisions of
//! the tests of a ray against a box, a triangle, a sphere and a plane, the
//! walk of the light along a ray from surface to surface, the claiming of
//! rows by workers, the image buffer, and the bookkeeping of camera and
//! transform.
//!
//! It does not compute with numbers that have a fraction. Where a number
//! matters only for its place among others, the library takes its key: an
//! integer that is ordered as the numbers are. Where a number has to be
//! computed, the caller brings the arithmetic as a function, and the
//! contracts say what the library makes of whatever that function computes.

pub mod camera;
pub mod color;
pub mod content;
pub mod geom;
pub mod image;
pub mod integrator;
pub mod kernel;
pub mod mesh;
pub mod octree;
pub mod sampling;
pub mod scene;
pub mod scheduler;
pub mod transform;
