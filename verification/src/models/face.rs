//! The six faces of a block.

use vstd::prelude::*;

verus! {

/// Mesh coordinates and texture coordinates are counted in tenths of a block.
pub const UNITS_PER_BLOCK: i64 = 10;

/// The six axis-aligned faces of a block.
#[derive(Clone, Copy, Debug, PartialEq, Eq, Structural)]
pub enum FaceDir {
    PosX,
    NegX,
    PosY,
    NegY,
    PosZ,
    NegZ,
}

/// The direction that faces the other way.
pub open spec fn opposite_of(dir: FaceDir) -> FaceDir {
    match dir {
        FaceDir::PosX => FaceDir::NegX,
        FaceDir::NegX => FaceDir::PosX,
        FaceDir::PosY => FaceDir::NegY,
        FaceDir::NegY => FaceDir::PosY,
        FaceDir::PosZ => FaceDir::NegZ,
        FaceDir::NegZ => FaceDir::PosZ,
    }
}

/// The outward unit vector of a face.
pub open spec fn normal_of(dir: FaceDir) -> [i32; 3] {
    match dir {
        FaceDir::PosX => [1, 0, 0],
        FaceDir::NegX => [(-1int) as i32, 0, 0],
        FaceDir::PosY => [0, 1, 0],
        FaceDir::NegY => [0, (-1int) as i32, 0],
        FaceDir::PosZ => [0, 0, 1],
        FaceDir::NegZ => [0, 0, (-1int) as i32],
    }
}

/// The place of a direction in the order PosX, NegX, PosY, NegY, PosZ, NegZ.
pub open spec fn index_of(dir: FaceDir) -> int {
    match dir {
        FaceDir::PosX => 0,
        FaceDir::NegX => 1,
        FaceDir::PosY => 2,
        FaceDir::NegY => 3,
        FaceDir::PosZ => 4,
        FaceDir::NegZ => 5,
    }
}

/// The direction at place `i` of that order.
pub open spec fn dir_of(i: int) -> FaceDir {
    if i == 0 {
        FaceDir::PosX
    } else if i == 1 {
        FaceDir::NegX
    } else if i == 2 {
        FaceDir::PosY
    } else if i == 3 {
        FaceDir::NegY
    } else if i == 4 {
        FaceDir::PosZ
    } else {
        FaceDir::NegZ
    }
}

impl FaceDir {
    /// The direction at place `i` of the order PosX, NegX, PosY, NegY, PosZ, NegZ.
    pub fn at(i: usize) -> (r: FaceDir)
        requires
            i < 6,
        ensures
            r == dir_of(i as int),
            index_of(r) == i,
    {
        if i == 0 {
            FaceDir::PosX
        } else if i == 1 {
            FaceDir::NegX
        } else if i == 2 {
            FaceDir::PosY
        } else if i == 3 {
            FaceDir::NegY
        } else if i == 4 {
            FaceDir::PosZ
        } else {
            FaceDir::NegZ
        }
    }

    /// The place of the direction in that order.
    pub fn index(self) -> (r: usize)
        ensures
            r == index_of(self),
            r < 6,
    {
        match self {
            FaceDir::PosX => 0,
            FaceDir::NegX => 1,
            FaceDir::PosY => 2,
            FaceDir::NegY => 3,
            FaceDir::PosZ => 4,
            FaceDir::NegZ => 5,
        }
    }

    /// The outward unit vector of the face.
    pub fn normal(self) -> (r: [i32; 3])
        ensures
            r == normal_of(self),
    {
        match self {
            FaceDir::PosX => [1, 0, 0],
            FaceDir::NegX => [-1, 0, 0],
            FaceDir::PosY => [0, 1, 0],
            FaceDir::NegY => [0, -1, 0],
            FaceDir::PosZ => [0, 0, 1],
            FaceDir::NegZ => [0, 0, -1],
        }
    }

    /// The direction that faces the other way.
    pub fn opposite(self) -> (r: FaceDir)
        ensures
            r == opposite_of(self),
    {
        match self {
            FaceDir::PosX => FaceDir::NegX,
            FaceDir::NegX => FaceDir::PosX,
            FaceDir::PosY => FaceDir::NegY,
            FaceDir::NegY => FaceDir::PosY,
            FaceDir::PosZ => FaceDir::NegZ,
            FaceDir::NegZ => FaceDir::PosZ,
        }
    }
}

/// Turning around twice leads back, and the opposite face has the opposite normal.
pub proof fn law_opposite(dir: FaceDir)
    ensures
        opposite_of(opposite_of(dir)) == dir,
        opposite_of(dir) != dir,
        forall|k: int|
            0 <= k < 3 ==> #[trigger] normal_of(opposite_of(dir))[k] == -normal_of(dir)[k],
{
}

/// One quad of a block model.
#[derive(Clone, Copy, Debug)]
pub struct FaceGeometry {
    /// Four corners in block space, 0 to `UNITS_PER_BLOCK`, counter-clockwise seen from outside.
    pub verts: [[i64; 3]; 4],
    /// Texture coordinates of the corners, in the same units.
    pub uvs: [[i64; 2]; 4],
    /// True when the face covers its whole cell side: such faces are merged by the mesher.
    pub is_full: bool,
    pub texture: u32,
}

/// The directions are listed as PosX, NegX, PosY, NegY, PosZ, NegZ, each once.
pub proof fn law_directions(dir: FaceDir)
    ensures
        0 <= index_of(dir) < 6,
        dir_of(index_of(dir)) == dir,
        dir_of(0) == FaceDir::PosX,
        dir_of(1) == FaceDir::NegX,
        dir_of(2) == FaceDir::PosY,
        dir_of(3) == FaceDir::NegY,
        dir_of(4) == FaceDir::PosZ,
        dir_of(5) == FaceDir::NegZ,
        normal_of(FaceDir::PosX)[0] == 1,
        normal_of(FaceDir::PosY)[1] == 1,
        normal_of(FaceDir::PosZ)[2] == 1,
        forall|k: int|
            0 <= k < 3 && 2 * k != index_of(dir) && 2 * k + 1 != index_of(dir)
                ==> #[trigger] normal_of(dir)[k] == 0,
{
}

} // verus!
