//! What is decided about drawing: where meshes are kept, what is drawn, and what is used for it.

pub mod arena;
pub mod claims;
pub mod mesh;
pub mod pass;
pub mod select;
pub mod texture;
