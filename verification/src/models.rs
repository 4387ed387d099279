//! The shapes of blocks.

pub mod block_model;
pub mod builtin;
pub mod face;
