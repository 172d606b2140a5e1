//! The description of a scene, as it is read from its files.
pub mod ply;
pub mod types;

