//! The shapes that there are.

use crate::models::block_model::BlockModel;
use crate::models::face::{FaceDir, FaceGeometry};
use vstd::prelude::*;

verus! {

/// The four corners of a face of a box that is one block wide and `h` tall.
pub open spec fn box_corners(dir: FaceDir, h: i64) -> [[i64; 3]; 4] {
    match dir {
        FaceDir::PosX => [[10, 0, 10], [10, 0, 0], [10, h, 0], [10, h, 10]],
        FaceDir::NegX => [[0, 0, 0], [0, 0, 10], [0, h, 10], [0, h, 0]],
        FaceDir::PosY => [[10, 10, 0], [0, 10, 0], [0, 10, 10], [10, 10, 10]],
        FaceDir::NegY => [[10, 0, 10], [0, 0, 10], [0, 0, 0], [10, 0, 0]],
        FaceDir::PosZ => [[0, 0, 10], [10, 0, 10], [10, h, 10], [0, h, 10]],
        FaceDir::NegZ => [[10, 0, 0], [0, 0, 0], [0, h, 0], [10, h, 0]],
    }
}

/// A face that covers its cell side.
pub open spec fn full_face(dir: FaceDir) -> FaceGeometry {
    FaceGeometry {
        verts: box_corners(dir, 10),
        uvs: [[0, 0], [10, 0], [10, 10], [0, 10]],
        is_full: true,
        texture: 0,
    }
}

/// A side face that is only `h` tall.
pub open spec fn low_face(dir: FaceDir, h: i64) -> FaceGeometry {
    FaceGeometry {
        verts: box_corners(dir, h),
        uvs: [[0, 0], [10, 0], [10, h], [0, h]],
        is_full: false,
        texture: 0,
    }
}

/// The top face of a slab, half a block up.
pub open spec fn slab_top() -> FaceGeometry {
    FaceGeometry {
        verts: [[10, 5, 0], [0, 5, 0], [0, 5, 10], [10, 5, 10]],
        uvs: [[0, 0], [10, 0], [10, 10], [0, 10]],
        is_full: false,
        texture: 0,
    }
}

/// The unit cube.
pub open spec fn cube_model() -> BlockModel {
    BlockModel {
        faces: [
            Some(full_face(FaceDir::PosX)),
            Some(full_face(FaceDir::NegX)),
            Some(full_face(FaceDir::PosY)),
            Some(full_face(FaceDir::NegY)),
            Some(full_face(FaceDir::PosZ)),
            Some(full_face(FaceDir::NegZ)),
        ],
    }
}

/// The half-height slab.
pub open spec fn slab_model() -> BlockModel {
    BlockModel {
        faces: [
            Some(low_face(FaceDir::PosX, 5)),
            Some(low_face(FaceDir::NegX, 5)),
            Some(slab_top()),
            Some(full_face(FaceDir::NegY)),
            Some(low_face(FaceDir::PosZ, 5)),
            Some(low_face(FaceDir::NegZ, 5)),
        ],
    }
}

/// Full unit cube with corners at (0,0,0) and (1,1,1).
pub fn cube() -> (r: BlockModel)
    ensures
        r == cube_model(),
{
    BlockModel {
        faces: [
            Some(make_face(FaceDir::PosX)),
            Some(make_face(FaceDir::NegX)),
            Some(make_face(FaceDir::PosY)),
            Some(make_face(FaceDir::NegY)),
            Some(make_face(FaceDir::PosZ)),
            Some(make_face(FaceDir::NegZ)),
        ],
    }
}

/// Water block: the same geometry as a cube, so that all its faces merge.
pub fn water() -> (r: BlockModel)
    ensures
        r == cube_model(),
{
    cube()
}

/// Half-height slab that fills the lower half of its cell.
pub fn slab() -> (r: BlockModel)
    ensures
        r == slab_model(),
{
    BlockModel {
        faces: [
            Some(make_face_scaled(FaceDir::PosX, 5)),
            Some(make_face_scaled(FaceDir::NegX, 5)),
            Some(make_face_top_slab()),
            Some(make_face(FaceDir::NegY)),
            Some(make_face_scaled(FaceDir::PosZ, 5)),
            Some(make_face_scaled(FaceDir::NegZ, 5)),
        ],
    }
}

fn make_face(dir: FaceDir) -> (r: FaceGeometry)
    ensures
        r == full_face(dir),
{
    FaceGeometry {
        verts: face_verts_scaled(dir, 10),
        uvs: [[0, 0], [10, 0], [10, 10], [0, 10]],
        is_full: true,
        texture: 0,
    }
}

/// Side face of a slab, `h` tall.
fn make_face_scaled(dir: FaceDir, h: i64) -> (r: FaceGeometry)
    ensures
        r == low_face(dir, h),
{
    FaceGeometry {
        verts: face_verts_scaled(dir, h),
        uvs: [[0, 0], [10, 0], [10, h], [0, h]],
        is_full: false,
        texture: 0,
    }
}

/// Top face of a slab: it is not flush with the top of its cell, so it is not full.
fn make_face_top_slab() -> (r: FaceGeometry)
    ensures
        r == slab_top(),
{
    FaceGeometry {
        verts: [[10, 5, 0], [0, 5, 0], [0, 5, 10], [10, 5, 10]],
        uvs: [[0, 0], [10, 0], [10, 10], [0, 10]],
        is_full: false,
        texture: 0,
    }
}

fn face_verts_scaled(dir: FaceDir, h: i64) -> (r: [[i64; 3]; 4])
    ensures
        r == box_corners(dir, h),
{
    match dir {
        FaceDir::PosX => [[10, 0, 10], [10, 0, 0], [10, h, 0], [10, h, 10]],
        FaceDir::NegX => [[0, 0, 0], [0, 0, 10], [0, h, 10], [0, h, 0]],
        FaceDir::PosY => [[10, 10, 0], [0, 10, 0], [0, 10, 10], [10, 10, 10]],
        FaceDir::NegY => [[10, 0, 10], [0, 0, 10], [0, 0, 0], [10, 0, 0]],
        FaceDir::PosZ => [[0, 0, 10], [10, 0, 10], [10, h, 10], [0, h, 10]],
        FaceDir::NegZ => [[10, 0, 0], [0, 0, 0], [0, h, 0], [10, h, 0]],
    }
}

} // verus!
