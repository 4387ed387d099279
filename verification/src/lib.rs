//! YAVE: the verified core of a voxel engine.
//!
//! Lengths inside a mesh are integers in tenths of a block, ambient occlusion is in thirds.

pub mod export;
pub mod input;
pub mod meshing;
pub mod models;
pub mod render;
pub mod settings;
pub mod stats;
pub mod world;
