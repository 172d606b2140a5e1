//! Exact ray queries against triangle meshes on the integer lattice.
//!
//! Coordinates are 16-bit lattice points; every derived quantity (plane
//! equations, hit distances, barycentric weights) is an exact integer or a
//! ratio of integers, so the geometric statements proved here hold without
//! rounding.
pub mod geometry;
pub mod scene;
pub mod timing;
pub mod tracer;

