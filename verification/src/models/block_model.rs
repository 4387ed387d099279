//! The shape of a block.

use crate::models::face::{index_of, FaceDir, FaceGeometry};
use vstd::prelude::*;

verus! {

/// Geometry of a block: one optional quad for each face direction.
#[derive(Clone, Copy, Debug)]
pub struct BlockModel {
    pub faces: [Option<FaceGeometry>; 6],
}

impl BlockModel {
    /// The quad that the model has for `dir`.
    pub fn face(&self, dir: FaceDir) -> (r: Option<&FaceGeometry>)
        ensures
            match r {
                Some(g) => self.faces[index_of(dir)] == Some(*g),
                None => self.faces[index_of(dir)] is None,
            },
    {
        self.faces[dir.index()].as_ref()
    }
}

} // verus!
