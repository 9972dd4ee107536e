//! A Monte-Carlo path tracer core: bounding-volume-hierarchy accelerated
//! ray/sphere intersection and physically-based material scattering, over
//! exact fixed-point arithmetic.

pub mod fixed;
pub mod vec3;
pub mod ray;
pub mod aabb;
pub mod rng;
pub mod hittable;
pub mod material;
pub mod sphere;
pub mod bvh;
pub mod camera;
pub mod trace;
