//! A bounding volume hierarchy over triangles, with exact ray queries.
//!
//! Positions lie on an integer grid (`i16` per axis) and ray directions are
//! grid steps, so that every quantity of the ray–triangle and ray–box tests is
//! an integer or a ratio of integers: distances along a ray are rationals
//! (`Frac`), compared by cross-multiplying, never rounded.
//!
//! - `geometry`: points, wide vectors, triangles.
//! - `ray`: rays with near/far bounds, and the ray–triangle test.
//! - `bounding_box`: axis-aligned boxes, their union, the slab test.
//! - `bvh`: the hierarchy and its construction.
//! - `query`: nearest-hit and any-hit queries.
pub mod geometry;
pub mod ray;
pub mod bounding_box;
pub mod bvh;
pub mod query;
