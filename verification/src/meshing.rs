//! From blocks to meshes.

pub mod drawn;
pub mod exposure;
pub mod greedy;
pub mod laws;
pub mod lit;
pub mod lods;
pub mod merge;
pub mod quad;
pub mod shown;
pub mod surface;
