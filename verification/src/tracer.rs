//! What the sampling loop needs beside the geometry.
pub mod geometry;
pub mod halton;
pub mod scene;

