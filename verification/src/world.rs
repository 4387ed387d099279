//! The world: blocks, chunks, terrain, and which chunks are kept and shown.

pub mod block;
pub mod cells;
pub mod chunk;
pub mod coords;
pub mod grid;
pub mod neighbor;
pub mod sort;
pub mod state;
pub mod terrain;
pub mod world;
