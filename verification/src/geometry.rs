//! The ray/geometry intersection core: lattice vectors, extended ratios,
//! bounding boxes, triangle bundles, the bounding volume hierarchy and meshes.
pub mod bounding_box;
pub mod bvh;
pub mod hit;
pub mod lattice;
pub mod mesh;
pub mod ratio;
pub mod triangle_bundle;
pub mod util;

