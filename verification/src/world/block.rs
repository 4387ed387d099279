//! The kinds of blocks.

use crate::models::block_model::BlockModel;
use crate::models::builtin::{
    box_corners, cube, cube_model, full_face, low_face, slab, slab_model, slab_top, water,
};
use crate::models::face::{dir_of, FaceDir, FaceGeometry};
use vstd::prelude::*;

verus! {

/// The kind of a block.
#[derive(Clone, Copy, PartialEq, Eq, Structural, Debug)]
pub struct BlockId(pub u16);

/// The numbers of the known blocks.
pub const AIR: u16 = 0;

pub const DIRT: u16 = 1;

pub const STONE: u16 = 2;

pub const BRICK_SLAB: u16 = 3;

pub const WATER: u16 = 4;

/// Layers of the texture array.
pub const TEX_STONE: u32 = 0;

pub const TEX_DIRT: u32 = 1;

pub const TEX_GRASS_TOP: u32 = 2;

pub const TEX_GRASS_SIDE: u32 = 3;

impl Default for BlockId {
    fn default() -> (r: BlockId)
        ensures
            r == BlockId(AIR),
    {
        BlockId(AIR)
    }
}

/// The texture layer of a block face.
pub open spec fn tex_layer(id: BlockId, dir: FaceDir) -> u32 {
    if id.0 == DIRT {
        match dir {
            FaceDir::PosY => TEX_GRASS_TOP,
            FaceDir::NegY => TEX_DIRT,
            _ => TEX_GRASS_SIDE,
        }
    } else {
        TEX_STONE
    }
}

/// The geometry of a block, if it has any.
pub open spec fn model_of(id: BlockId) -> Option<BlockModel> {
    if id.0 == DIRT || id.0 == STONE || id.0 == WATER {
        Some(cube_model())
    } else if id.0 == BRICK_SLAB {
        Some(slab_model())
    } else {
        None
    }
}

/// A block that hides what is behind it and that one cannot walk through.
pub open spec fn opaque(id: BlockId) -> bool {
    id.0 != AIR && id.0 != WATER
}

/// Returns the layer of the texture array for a block face.
pub fn face_tex(id: BlockId, dir: FaceDir) -> (r: u32)
    ensures
        r == tex_layer(id, dir),
{
    if id.0 == DIRT {
        match dir {
            FaceDir::PosY => TEX_GRASS_TOP,
            FaceDir::NegY => TEX_DIRT,
            _ => TEX_GRASS_SIDE,
        }
    } else {
        TEX_STONE
    }
}

/// Returns the geometry of a block, `None` for air and for unknown blocks.
pub fn get_model(id: BlockId) -> (r: Option<BlockModel>)
    ensures
        r == model_of(id),
{
    if id.0 == DIRT || id.0 == STONE {
        Some(cube())
    } else if id.0 == BRICK_SLAB {
        Some(slab())
    } else if id.0 == WATER {
        Some(water())
    } else {
        None
    }
}

/// Whether a block hides what is behind it: every block but air and water.
pub fn is_opaque(id: BlockId) -> (r: bool)
    ensures
        r == opaque(id),
{
    id.0 != AIR && id.0 != WATER
}

/// A corner of a face of a model.
pub open spec fn corner_of(g: FaceGeometry, k: int) -> (int, int, int) {
    (g.verts[k][0] as int, g.verts[k][1] as int, g.verts[k][2] as int)
}

/// A point is the corner across of a parallelogram, the way from the first to the second corner and
/// on to the third turning left as seen by one who looks against the direction `n`. The parallelogram
/// has the area that `n` has as its length.
pub open spec fn spans(g: FaceGeometry, n: (int, int, int)) -> bool {
    let (a, b, c, d) = (corner_of(g, 0), corner_of(g, 1), corner_of(g, 2), corner_of(g, 3));
    let u = (b.0 - a.0, b.1 - a.1, b.2 - a.2);
    let v = (d.0 - a.0, d.1 - a.1, d.2 - a.2);
    &&& c == (b.0 + d.0 - a.0, b.1 + d.1 - a.1, b.2 + d.2 - a.2)
    &&& n == (u.1 * v.2 - u.2 * v.1, u.2 * v.0 - u.0 * v.2, u.0 * v.1 - u.1 * v.0)
}

/// A face lies on the `i`-th side of a box that is ten units wide and `h` tall, has the whole of that
/// side, and looks outward. Side faces begin at the bottom. Its picture is not stretched.
pub open spec fn on_box(g: FaceGeometry, i: int, h: int) -> bool {
    &&& g.texture == 0
    &&& forall|k: int| 0 <= k < 4 ==> #[trigger] corner_on_box(g, i, h, k)
    &&& i == 0 ==> spans(g, (10 * h, 0, 0))
    &&& i == 1 ==> spans(g, (-10 * h, 0, 0))
    &&& i == 2 ==> spans(g, (0, 100, 0))
    &&& i == 3 ==> spans(g, (0, -100, 0))
    &&& i == 4 ==> spans(g, (0, 0, 10 * h))
    &&& i == 5 ==> spans(g, (0, 0, -10 * h))
}

pub open spec fn corner_on_box(g: FaceGeometry, i: int, h: int, k: int) -> bool {
    let (x, y, z) = corner_of(g, k);
    &&& 0 <= x <= 10 && 0 <= y <= h && 0 <= z <= 10
    &&& i == 0 ==> x == 10
    &&& i == 1 ==> x == 0
    &&& i == 2 ==> y == h && (z == 0 <==> k < 2)
    &&& i == 3 ==> y == 0 && (z == 10 <==> k < 2)
    &&& i == 4 ==> z == 10
    &&& i == 5 ==> z == 0
    &&& i != 2 && i != 3 ==> (y == 0 <==> k < 2)
    &&& g.uvs[k][0] == if k == 0 || k == 3 {
        0int
    } else {
        10
    }
    &&& g.uvs[k][1] == if k < 2 {
        0
    } else if i == 2 || i == 3 {
        10
    } else {
        h
    }
}

/// Dirt, stone and water are whole cubes, ten units to a side, and slabs are half as tall. Nothing
/// else has a shape. All six faces are there. A face is full where it covers the side of its cell.
pub proof fn law_models(id: BlockId, i: int)
    requires
        0 <= i < 6,
    ensures
        model_of(id) is Some <==> 1 <= id.0 <= 4,
        model_of(id) matches Some(m) ==> m.faces[i] is Some && on_box(
            m.faces[i]->0,
            i,
            if id.0 == 3 {
                5
            } else {
                10
            },
        ),
        model_of(id) matches Some(m) ==> (m.faces[i]->0.is_full <==> id.0 != 3 || i == 3),
{
    assert(i == 0 || i == 1 || i == 2 || i == 3 || i == 4 || i == 5);
    lemma_box(full_face(FaceDir::PosX), 0, 10);
    lemma_box(full_face(FaceDir::NegX), 1, 10);
    lemma_box(full_face(FaceDir::PosY), 2, 10);
    lemma_box(full_face(FaceDir::NegY), 3, 10);
    lemma_box(full_face(FaceDir::PosZ), 4, 10);
    lemma_box(full_face(FaceDir::NegZ), 5, 10);
    lemma_box(low_face(FaceDir::PosX, 5), 0, 5);
    lemma_box(low_face(FaceDir::NegX, 5), 1, 5);
    lemma_box(slab_top(), 2, 5);
    lemma_box(full_face(FaceDir::NegY), 3, 5);
    lemma_box(low_face(FaceDir::PosZ, 5), 4, 5);
    lemma_box(low_face(FaceDir::NegZ, 5), 5, 5);
}

proof fn lemma_box(g: FaceGeometry, i: int, h: int)
    requires
        0 <= i < 6,
        h == 5 || h == 10,
        g.uvs == (if i == 2 || i == 3 || h == 10 {
            [[0i64, 0], [10, 0], [10, 10], [0, 10]]
        } else {
            [[0i64, 0], [10, 0], [10, 5], [0, 5]]
        }),
        g.texture == 0,
        i == 2 && h == 5 ==> g.verts == [[10i64, 5, 0], [0, 5, 0], [0, 5, 10], [10, 5, 10]],
        i != 2 || h == 10 ==> g.verts == box_corners(dir_of(i), h as i64),
    ensures
        on_box(g, i, h),
{
    assert(i == 0 || i == 1 || i == 2 || i == 3 || i == 4 || i == 5);
    assert forall|k: int| 0 <= k < 4 implies #[trigger] corner_on_box(g, i, h, k) by {
        assert(k == 0 || k == 1 || k == 2 || k == 3);
    }
    let (a, b, d) = (corner_of(g, 0), corner_of(g, 1), corner_of(g, 3));
    let u = (b.0 - a.0, b.1 - a.1, b.2 - a.2);
    let v = (d.0 - a.0, d.1 - a.1, d.2 - a.2);
    lemma_times(u.0, v.1);
    lemma_times(u.0, v.2);
    lemma_times(u.1, v.0);
    lemma_times(u.1, v.2);
    lemma_times(u.2, v.0);
    lemma_times(u.2, v.1);
}

proof fn lemma_times(p: int, q: int)
    ensures
        p == 0 ==> p * q == 0,
        p == 10 ==> p * q == 10 * q,
        p == -10 ==> p * q == -10 * q,
{
}

/// Dirt has grass on top of it and at its sides, and only there: everything else looks like stone,
/// but for the bottom of dirt.
pub proof fn law_textures(id: BlockId)
    ensures
        id.0 == 1 ==> tex_layer(id, FaceDir::PosY) == 2 && tex_layer(id, FaceDir::NegY) == 1,
        id.0 == 1 ==> tex_layer(id, FaceDir::PosX) == 3 && tex_layer(id, FaceDir::NegX) == 3,
        id.0 == 1 ==> tex_layer(id, FaceDir::PosZ) == 3 && tex_layer(id, FaceDir::NegZ) == 3,
        id.0 != 1 ==> forall|dir: FaceDir| #[trigger] tex_layer(id, dir) == 0,
{
}

/// Blocks hide what is behind them unless they are air or water.
pub proof fn law_opaque(id: BlockId)
    ensures
        opaque(id) <==> id.0 != 0 && id.0 != 4,
{
}

} // verus!
