//! Ray/scene intersection core of a path tracer: intervals and axis-aligned
//! boxes over order keys, the primitive collection, and the bounding volume
//! hierarchy with its nearest-hit traversal.
//!
//! Every real number that the logic here compares (a coordinate, a ray
//! parameter `t`) is held as an order key: an `i64` that orders exactly as the
//! real it stands for. Arithmetic on the reals themselves is left to the caller.
pub mod interval;
pub mod aabb;
pub mod nearest;
pub mod sphere;
pub mod hittable;
pub mod integrator;

pub use aabb::AABB;
pub use hittable::{HittablesList, BVH};
pub use interval::Interval;
