//! The core of a ray tracer: a bounding volume hierarchy built with the
//! surface area heuristic, the recursive tracing of rays through a scene
//! of spheres, triangles and quads, and the assembly of an image from
//! columns that are rendered in any order.
//!
//! Numbers are binary32, held by their bit patterns. Their order and their
//! arithmetic are computed on the bits and proved to give the number
//! nearest to the exact result, so that every contract says exactly which
//! operations, in which order, make up a result.

pub mod aabb;
pub mod arithmetic;
pub mod bvh;
pub mod camera;
pub mod color;
pub mod light;
pub mod material;
pub mod math;
pub mod monotone;
pub mod object;
pub mod ray;
pub mod render;
pub mod rounding;
pub mod scalar;
pub mod split;
pub mod texture;
pub mod utils;
pub mod vector;
pub mod world;
