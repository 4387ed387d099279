//! What holds of the meshes of a chunk.

use crate::meshing::exposure::{dims_of, exposed, face_light, xyz_of};
use crate::meshing::greedy::{
    dir_quads_to, drawn_face, lemma_cell_split, lemma_next_cell, slice_cell, slice_dims,
    slice_loose, slice_loose_to, slice_mask,
};
use crate::meshing::merge::{cell_of, covered, covers, law_merged, merged, quad_ok};
use crate::meshing::quad::{lemma_turns_outward, turns_outward};
use crate::meshing::surface::{
    facing_top, has_sea, surface_level, surface_mask, top_opaque, top_water, wall_cell,
    wall_column, wall_mask, water_cell, water_mask, water_quads,
};
use crate::models::builtin::{box_corners, full_face, low_face, slab_top};
use crate::models::face::FaceDir;
use crate::world::block::opaque;
use crate::world::chunk::{ChunkView, CHUNK_HEIGHT, CHUNK_SIZE};
use crate::world::neighbor::{face_data_of, solid_in, ChunkFaceData, NeighborMasks};
use vstd::prelude::*;

verus! {

/// The full faces that can be seen are all drawn, and nothing else is: a cell of a slice lies in
/// one of its rectangles if and only if its face is drawn and covers its cell side. All cells of
/// a rectangle have the same block and the same light.
pub proof fn law_slice_complete(
    c: ChunkView,
    n: NeighborMasks,
    dir: FaceDir,
    d: int,
    u: int,
    v: int,
)
    requires
        c.wf(),
        0 <= d < dims_of(dir, c.max_height + 1).0,
        0 <= u < slice_dims(c, dir).0,
        0 <= v < slice_dims(c, dir).1,
    ensures
        ({
            let (u_len, v_len) = slice_dims(c, dir);
            let (x, y, z) = xyz_of(dir, d, u, v);
            let rects = merged(slice_mask(c, n, dir, d), u_len, v_len);
            &&& covered(rects, u, v) <==> (drawn_face(c, n, dir, x, y, z) matches Some(g)
                && g.is_full)
            &&& forall|j: int|
                0 <= j < rects.len() && #[trigger] covers(rects[j], u, v) ==> rects[j].cell.block
                    == c.at(x, y, z) && rects[j].cell.ao == face_light(c, n, x, y, z, dir)
        }),
{
    let (u_len, v_len) = slice_dims(c, dir);
    let mask = slice_mask(c, n, dir, d);
    let rects = merged(mask, u_len, v_len);
    lemma_next_cell(u_len, v_len, u, v);
    lemma_cell_split(v_len, u, v);
    law_merged(mask, u_len, v_len);
    reveal(slice_cell);
    assert(cell_of(mask, v_len, u, v) == slice_cell(c, n, dir, d, u, v));
    assert(cell_of(mask, v_len, u, v) is Some <==> covered(rects, u, v));
    assert forall|j: int| 0 <= j < rects.len() && #[trigger] covers(rects[j], u, v) implies rects[j].cell.block
        == c.at(xyz_of(dir, d, u, v).0, xyz_of(dir, d, u, v).1, xyz_of(dir, d, u, v).2)
        && rects[j].cell.ao == face_light(
        c,
        n,
        xyz_of(dir, d, u, v).0,
        xyz_of(dir, d, u, v).1,
        xyz_of(dir, d, u, v).2,
        dir,
    ) by {
        assert(quad_ok(mask, u_len, v_len, merged(mask, u_len, v_len)[j]));
        assert(cell_of(mask, v_len, u, v) == Some(rects[j].cell));
    }
}

proof fn lemma_no_loose(c: ChunkView, n: NeighborMasks, d: int, k: int)
    ensures
        slice_loose_to(c, n, FaceDir::NegY, d, k).len() == 0,
    decreases k,
{
    reveal(slice_loose);
    if k > 0 {
        lemma_no_loose(c, n, d, k - 1);
    }
}

/// The undersides of blocks are never drawn.
pub proof fn law_no_undersides(c: ChunkView, n: NeighborMasks, d: int)
    requires
        c.wf(),
    ensures
        dir_quads_to(c, n, FaceDir::NegY, d).len() == 0,
    decreases d,
{
    if d > 0 {
        law_no_undersides(c, n, d - 1);
        lemma_no_loose(c, n, d - 1, 1024);
        let mask = slice_mask(c, n, FaceDir::NegY, d - 1);
        let rects = merged(mask, 32, 32);
        law_merged(mask, 32, 32);
        if rects.len() > 0 {
            let q = merged(mask, 32, 32)[0];
            assert(quad_ok(mask, 32, 32, q));
            assert(covers(q, q.a as int, q.b as int));
            assert(cell_of(mask, 32, q.a as int, q.b as int) == Some(q.cell));
            let i = q.a * 32 + q.b;
            assert(0 <= i < 1024);
            reveal(slice_cell);
            assert(mask[i] == slice_cell(c, n, FaceDir::NegY, d - 1, i / 32, i % 32));
        }
    }
}

/// At the sides of a chunk a face is hidden if and only if the block of the neighbour that it
/// touches is opaque: what a chunk tells its neighbours is what they look at.
pub proof fn law_border_faces(
    c: ChunkView,
    n: NeighborMasks,
    neighbour: ChunkView,
    faces: ChunkFaceData,
    y: int,
    lateral: int,
)
    requires
        face_data_of(faces, neighbour),
        0 <= y < CHUNK_HEIGHT,
        0 <= lateral < CHUNK_SIZE,
    ensures
        n.pos_x == Some(faces.neg_x) ==> exposed(c, n, 31, y, lateral, FaceDir::PosX) == !opaque(
            neighbour.at(0, y, lateral),
        ),
        n.neg_x == Some(faces.pos_x) ==> exposed(c, n, 0, y, lateral, FaceDir::NegX) == !opaque(
            neighbour.at(31, y, lateral),
        ),
        n.pos_z == Some(faces.neg_z) ==> exposed(c, n, lateral, y, 31, FaceDir::PosZ) == !opaque(
            neighbour.at(lateral, y, 0),
        ),
        n.neg_z == Some(faces.pos_z) ==> exposed(c, n, lateral, y, 0, FaceDir::NegZ) == !opaque(
            neighbour.at(lateral, y, 31),
        ),
{
    assert(solid_in(faces.neg_x, y, lateral) == opaque(neighbour.at(0, y, lateral)));
    assert(solid_in(faces.pos_x, y, lateral) == opaque(neighbour.at(31, y, lateral)));
    assert(solid_in(faces.neg_z, y, lateral) == opaque(neighbour.at(lateral, y, 0)));
    assert(solid_in(faces.pos_z, y, lateral) == opaque(neighbour.at(lateral, y, 31)));
}

pub proof fn lemma_top_opaque(c: ChunkView, x: int, z: int, h: int)
    ensures
        top_opaque(c, x, z, h) >= -1,
        top_opaque(c, x, z, h) >= 0 ==> top_opaque(c, x, z, h) <= h && opaque(
            c.at(x, top_opaque(c, x, z, h), z),
        ),
        forall|y: int|
            top_opaque(c, x, z, h) < y <= h && y >= 0 ==> !opaque(#[trigger] c.at(x, y, z)),
    decreases h + 1,
{
    if h >= 0 && !opaque(c.at(x, h, z)) {
        lemma_top_opaque(c, x, z, h - 1);
    }
}

/// From far away each column with an opaque block shows one top face, and other columns show
/// none. There is no opaque block above that face.
pub proof fn law_surface_complete(c: ChunkView, x: int, z: int, y: int)
    requires
        c.wf(),
        0 <= x < 32,
        0 <= z < 32,
        0 <= y < CHUNK_HEIGHT,
    ensures
        covered(merged(surface_mask(c), 32, 32), x, z) <==> surface_level(c, x, z) >= 0,
        surface_level(c, x, z) >= 0 ==> opaque(c.at(x, surface_level(c, x, z), z)),
        y > surface_level(c, x, z) ==> !opaque(c.at(x, y, z)),
{
    law_merged(surface_mask(c), 32, 32);
    lemma_top_opaque(c, x, z, c.max_height);
    let i = x * 32 + z;
    assert(i / 32 == x && i % 32 == z);
    assert(cell_of(surface_mask(c), 32, x, z) is Some <==> covered(
        merged(surface_mask(c), 32, 32),
        x,
        z,
    ));
    if y > c.max_height {
        assert(c.at(x, y, z).0 == crate::world::block::AIR);
    }
}

/// From far away a wall shows exactly the opaque blocks of a column that stand above the surface
/// of the column it faces.
pub proof fn law_walls_complete(
    c: ChunkView,
    n: NeighborMasks,
    dir: FaceDir,
    d: int,
    lat: int,
    y: int,
)
    requires
        c.wf(),
        0 <= lat < 32,
        0 <= y <= c.max_height,
    ensures
        ({
            let (x, z) = wall_column(dir, d, lat);
            let own = surface_level(c, x, z);
            covered(merged(wall_mask(c, n, dir, d), 32, c.max_height + 1), lat, y) <==> facing_top(
                c,
                n,
                dir,
                d,
                lat,
                own,
            ) < y <= own && opaque(c.at(x, y, z))
        }),
{
    let row = c.max_height + 1;
    let mask = wall_mask(c, n, dir, d);
    law_merged(mask, 32, row);
    lemma_cell_split(row, lat, y);
    let i = lat * row + y;
    assert(0 <= i < 32 * row) by (nonlinear_arith)
        requires
            i == lat * row + y,
            0 <= lat < 32,
            0 <= y < row,
    ;
    reveal(wall_cell);
    assert(mask[i] == wall_cell(c, n, dir, d, lat, y));
    assert(cell_of(mask, row, lat, y) is Some <==> covered(merged(mask, 32, row), lat, y));
}

/// In a chunk with a sea, a column shows water if and only if it has any and nothing opaque lies
/// on its highest water.
pub proof fn law_water_complete(c: ChunkView, n: NeighborMasks, x: int, z: int)
    requires
        c.wf(),
        0 <= x < 32,
        0 <= z < 32,
    ensures
        ({
            let h = top_water(c, x, z, c.max_height);
            covered(merged(water_mask(c, n), 32, 32), x, z) <==> h >= 0 && (h == CHUNK_HEIGHT - 1
                || !opaque(c.at(x, h + 1, z)))
        }),
        !has_sea(c) ==> water_quads(c, n).len() == 0,
{
    let mask = water_mask(c, n);
    law_merged(mask, 32, 32);
    let i = x * 32 + z;
    assert(i / 32 == x && i % 32 == z);
    reveal(water_cell);
    assert(mask[i] == water_cell(c, n, x, z));
    assert(cell_of(mask, 32, x, z) is Some <==> covered(merged(mask, 32, 32), x, z));
    lemma_top_water(c, x, z, c.max_height);
}

proof fn lemma_top_water(c: ChunkView, x: int, z: int, h: int)
    ensures
        -1 <= top_water(c, x, z, h),
        top_water(c, x, z, h) >= 0 ==> top_water(c, x, z, h) <= h,
    decreases h + 1,
{
    if h >= 0 && c.at(x, h, z).0 != crate::world::block::WATER {
        lemma_top_water(c, x, z, h - 1);
    }
}

// ── Block models ─────────────────────────────────────────────────────────────

/// The corners of the faces of block models come counter-clockwise when they are seen from
/// outside, whatever the height of the side faces.
pub proof fn law_models_outward(dir: FaceDir, h: i64)
    requires
        0 < h <= 10,
    ensures
        turns_outward(dir, full_face(dir).verts, false),
        turns_outward(dir, low_face(dir, h).verts, false),
        turns_outward(FaceDir::PosY, slab_top().verts, false),
{
    lemma_box_outward(dir, 10);
    lemma_box_outward(dir, h);
    lemma_parallel(slab_top().verts);
    lemma_turns_outward(FaceDir::PosY, slab_top().verts, false);
}

proof fn lemma_parallel(p: [[i64; 3]; 4])
    requires
        p[2][0] - p[1][0] == p[3][0] - p[0][0],
        p[2][1] - p[1][1] == p[3][1] - p[0][1],
        p[2][2] - p[1][2] == p[3][2] - p[0][2],
    ensures
        forall|k: int| 0 <= k < 3 ==> #[trigger] p[2][k] - p[1][k] == p[3][k] - p[0][k],
{
    assert forall|k: int| 0 <= k < 3 implies #[trigger] p[2][k] - p[1][k] == p[3][k] - p[0][k] by {
        assert(k == 0 || k == 1 || k == 2);
    }
}

proof fn lemma_box_outward(dir: FaceDir, h: i64)
    requires
        0 < h <= 10,
    ensures
        turns_outward(dir, box_corners(dir, h), false),
{
    let p = box_corners(dir, h);
    lemma_parallel(p);
    lemma_turns_outward(dir, p, false);
}

/// A full face covers the side of its cell: all of its corners are corners of the cell, on the
/// side that the face is for, and no two are the same.
pub proof fn law_full_faces_cover(dir: FaceDir, i: int, j: int)
    requires
        0 <= i < 4,
        0 <= j < 4,
    ensures
        ({
            let p = full_face(dir).verts;
            let side: int = match dir {
                FaceDir::PosX | FaceDir::PosY | FaceDir::PosZ => 10,
                _ => 0,
            };
            let axis: int = match dir {
                FaceDir::PosX | FaceDir::NegX => 0,
                FaceDir::PosY | FaceDir::NegY => 1,
                _ => 2,
            };
            &&& p[i][axis] == side
            &&& forall|k: int| 0 <= k < 3 ==> #[trigger] p[i][k] == 0 || p[i][k] == 10
            &&& i != j ==> p[i] != p[j]
        }),
{
    let p = full_face(dir).verts;
    assert(i == 0 || i == 1 || i == 2 || i == 3);
    assert(j == 0 || j == 1 || j == 2 || j == 3);
    assert forall|k: int| 0 <= k < 3 implies #[trigger] p[i][k] == 0 || p[i][k] == 10 by {
        assert(k == 0 || k == 1 || k == 2);
    }
    if i != j {
        assert(p[i][0] != p[j][0] || p[i][1] != p[j][1] || p[i][2] != p[j][2]);
    }
}

} // verus!
