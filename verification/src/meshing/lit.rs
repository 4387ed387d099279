//! Which texture the quads of a mesh have, and how much light reaches their corners.

use crate::meshing::drawn::{all_are, axis_s, axis_t, lemma_chunk_are, lemma_surface_are};
use crate::meshing::exposure::{
    dims_of, face_light, front_dark, front_offset, lemma_front_offset, light_at, takes_light,
    u_side, v_side,
};
use crate::meshing::greedy::{
    chunk_quads, lemma_cell_split, lemma_next_cell, lemma_rect_level, levels_ok, mask_quads,
    rect_quad, slice_cell, slice_dims, slice_loose, slice_mask,
};
use crate::meshing::laws::lemma_top_opaque;
use crate::meshing::lods::lods_of;
use crate::meshing::merge::{
    cell_of, covers, law_merged, merged, quad_ok, uniform, MaskCell,
};
use crate::meshing::quad::{merged_quad, mesh_vertices, FaceQuad};
use crate::meshing::shown::{
    cell_at, hidden_by, hides, lemma_loose_over, lemma_mask_rect, lemma_slice_mask,
    lemma_surface_mask, lemma_water_mask, over, place_in, points, quad_at, within, Cell,
};
use crate::meshing::surface::{
    along_x, surface_cell, surface_mask, surface_quads, wall_cell, wall_dir, wall_mask, wall_quads,
    water_cell, water_mask, water_quads,
};
use crate::models::face::FaceDir;
use crate::render::mesh::Vertex;
use crate::world::block::BlockId;
use crate::world::chunk::ChunkView;
use crate::world::coords::BlockPos;
use crate::world::neighbor::NeighborMasks;
use vstd::prelude::*;

verus! {

// ── Words for it ─────────────────────────────────────────────────────────────

/// The texture of a side of a block: dirt has grass on top and, with grass above it, on its sides;
/// everything else looks like stone.
pub open spec fn look(id: BlockId, dir: FaceDir) -> int {
    if id.0 == 1 {
        match dir {
            FaceDir::PosY => 2,
            FaceDir::NegY => 1,
            _ => 3,
        }
    } else {
        0
    }
}

/// A texture lies on a quad unstretched, and starts at one of its corners.
pub open spec fn textured(v: [Vertex; 4], dir: FaceDir, layer: int) -> bool {
    let (s, t) = (axis_s(dir), axis_t(dir));
    &&& forall|i: int, j: int|
        0 <= i < 4 && 0 <= j < 4 ==> (#[trigger] v[i]).uv[0] - (#[trigger] v[j]).uv[0] == v[i].pos[s]
            - v[j].pos[s] && v[i].uv[1] - v[j].uv[1] == v[i].pos[t] - v[j].pos[t]
    &&& forall|i: int| 0 <= i < 4 ==> (#[trigger] v[i]).uv[0] >= 0 && v[i].uv[1] >= 2560 * layer
    &&& exists|i: int|
        0 <= i < 4 && (#[trigger] v[i]).uv[0] == 0 && v[i].uv[1] == 2560 * layer
}

/// What lies at (x, y, z), in the chunk or beside it, takes light away. What is below the world
/// does; what is above it, or across an edge of the chunk, or not known does not.
#[verifier::opaque]
pub open spec fn shades(c: ChunkView, n: NeighborMasks, x: int, y: int, z: int) -> bool {
    if y < 0 {
        true
    } else if y > 255 {
        false
    } else if 0 <= x < 32 && 0 <= z < 32 {
        hides(c.at(x, y, z))
    } else if 0 <= z < 32 {
        if x < 0 {
            hidden_by(n.neg_x, y, z)
        } else {
            hidden_by(n.pos_x, y, z)
        }
    } else if 0 <= x < 32 {
        if z < 0 {
            hidden_by(n.neg_z, y, x)
        } else {
            hidden_by(n.pos_z, y, x)
        }
    } else {
        false
    }
}

/// One of the three cells in front of a side that meet at one of its corners, besides the one
/// right in front, takes light away. The corner lies at the far end (1) or at the near end (-1) of
/// the axes across the side.
pub open spec fn shaded(
    c: ChunkView,
    n: NeighborMasks,
    x: int,
    y: int,
    z: int,
    dir: FaceDir,
    es: int,
    et: int,
) -> bool {
    match dir {
        FaceDir::PosX | FaceDir::NegX => {
            let f = if dir == FaceDir::PosX {
                x + 1
            } else {
                x - 1
            };
            shades(c, n, f, y + et, z) || shades(c, n, f, y, z + es) || shades(
                c,
                n,
                f,
                y + et,
                z + es,
            )
        },
        FaceDir::PosY | FaceDir::NegY => {
            let f = if dir == FaceDir::PosY {
                y + 1
            } else {
                y - 1
            };
            shades(c, n, x + es, f, z) || shades(c, n, x, f, z + et) || shades(
                c,
                n,
                x + es,
                f,
                z + et,
            )
        },
        FaceDir::PosZ | FaceDir::NegZ => {
            let f = if dir == FaceDir::PosZ {
                z + 1
            } else {
                z - 1
            };
            shades(c, n, x + es, y, f) || shades(c, n, x, y + et, f) || shades(
                c,
                n,
                x + es,
                y + et,
                f,
            )
        },
    }
}

/// The coordinate of the lowest corner of a box along an axis.
pub open spec fn low_of(b: Cell, axis: int) -> int {
    if axis == 0 {
        b.x
    } else if axis == 1 {
        b.y
    } else {
        b.z
    }
}

/// A vertex that is a corner of the side of a cell has the light of that corner.
pub open spec fn lit(
    w: Vertex,
    c: ChunkView,
    n: NeighborMasks,
    x: int,
    y: int,
    z: int,
    dir: FaceDir,
) -> bool {
    let b = cell_at(c.origin, x, y, z, 10);
    let s = w.pos[axis_s(dir)] - low_of(b, axis_s(dir));
    let t = w.pos[axis_t(dir)] - low_of(b, axis_t(dir));
    (s == 0 || s == 10) && (t == 0 || t == 10) ==> w.ao == if shaded(
        c,
        n,
        x,
        y,
        z,
        dir,
        if s == 10 {
            1
        } else {
            -1
        },
        if t == 10 {
            1
        } else {
            -1
        },
    ) {
        2u8
    } else {
        3u8
    }
}

// ── Quads of rectangles ──────────────────────────────────────────────────────

proof fn lemma_rect_textured(
    dir: FaceDir,
    d: int,
    u: int,
    v: int,
    du: int,
    dv: int,
    o: BlockPos,
    block: BlockId,
    ao: [u8; 4],
)
    requires
        0 <= d <= 256,
        0 <= u <= 256,
        0 <= v <= 256,
        0 < du <= 256,
        0 < dv <= 256,
    ensures
        textured(merged_quad(dir, d, u, v, du, dv, o, block, ao).v, dir, look(block, dir)),
{
    let w = merged_quad(dir, d, u, v, du, dv, o, block, ao).v;
    let i: int = match dir {
        FaceDir::PosX | FaceDir::PosY | FaceDir::NegZ => 1,
        FaceDir::NegX | FaceDir::PosZ => 0,
        FaceDir::NegY => 2,
    };
    assert(w[i].uv[0] == 0 && w[i].uv[1] == 2560 * look(block, dir));
    assert forall|i: int, j: int| 0 <= i < 4 && 0 <= j < 4 implies (#[trigger] w[i]).uv[0] - (
    #[trigger] w[j]).uv[0] == w[i].pos[axis_s(dir)] - w[j].pos[axis_s(dir)] && w[i].uv[1]
        - w[j].uv[1] == w[i].pos[axis_t(dir)] - w[j].pos[axis_t(dir)] by {
        assert(i == 0 || i == 1 || i == 2 || i == 3);
        assert(j == 0 || j == 1 || j == 2 || j == 3);
    }
    assert forall|i: int| 0 <= i < 4 implies (#[trigger] w[i]).uv[0] >= 0 && w[i].uv[1] >= 2560
        * look(block, dir) by {
        assert(i == 0 || i == 1 || i == 2 || i == 3);
    }
}

proof fn lemma_shades(c: ChunkView, n: NeighborMasks, x: int, y: int, z: int)
    ensures
        shades(c, n, x, y, z) == takes_light(c, n, x, y, z),
{
    reveal(shades);
}

/// What takes light away from a corner of a side lies in front of it.
proof fn lemma_front(
    c: ChunkView,
    n: NeighborMasks,
    x: int,
    y: int,
    z: int,
    dir: FaceDir,
    su: int,
    sv: int,
)
    ensures
        front_dark(c, n, x, y, z, dir, su, sv) == match dir {
            FaceDir::PosX => shades(c, n, x + 1, y + su, z + sv),
            FaceDir::NegX => shades(c, n, x - 1, y + su, z + sv),
            FaceDir::PosY => shades(c, n, x + su, y + 1, z + sv),
            FaceDir::NegY => shades(c, n, x + su, y - 1, z + sv),
            FaceDir::PosZ => shades(c, n, x + su, y + sv, z + 1),
            FaceDir::NegZ => shades(c, n, x + su, y + sv, z - 1),
        },
{
    lemma_front_offset(dir, su, sv);
    let o = front_offset(dir, su, sv);
    lemma_shades(c, n, x + o.0, y + o.1, z + o.2);
}

/// The light that was found for a corner of a side is the one for where it lies.
proof fn lemma_light_found(c: ChunkView, n: NeighborMasks, x: int, y: int, z: int, dir: FaceDir, i: int)
    requires
        0 <= i < 4,
    ensures
        ({
            let (es, et) = match dir {
                FaceDir::PosX | FaceDir::NegX => (v_side(i), u_side(i)),
                _ => (u_side(i), v_side(i)),
            };
            light_at(c, n, x, y, z, dir, i) == if shaded(c, n, x, y, z, dir, es, et) {
                2u8
            } else {
                3u8
            }
        }),
{
    lemma_front(c, n, x, y, z, dir, u_side(i), 0);
    lemma_front(c, n, x, y, z, dir, 0, v_side(i));
    lemma_front(c, n, x, y, z, dir, u_side(i), v_side(i));
    let a = front_dark(c, n, x, y, z, dir, u_side(i), 0);
    let b = front_dark(c, n, x, y, z, dir, 0, v_side(i));
    let e = front_dark(c, n, x, y, z, dir, u_side(i), v_side(i));
    let (es, et) = match dir {
        FaceDir::PosX | FaceDir::NegX => (v_side(i), u_side(i)),
        _ => (u_side(i), v_side(i)),
    };
    assert(shaded(c, n, x, y, z, dir, es, et) == (a || b || e));
}

/// The quad of a rectangle around a cell has the light of its side.
proof fn lemma_rect_lit(
    dir: FaceDir,
    d: int,
    u: int,
    v: int,
    du: int,
    dv: int,
    block: BlockId,
    c: ChunkView,
    n: NeighborMasks,
    x: int,
    y: int,
    z: int,
    i: int,
)
    requires
        0 <= d <= 256,
        0 <= u <= 256,
        0 <= v <= 256,
        0 < du <= 256,
        0 < dv <= 256,
        0 <= i < 4,
        within(dir, d, u, v, du, dv, x, y, z),
        uniform(face_light(c, n, x, y, z, dir)) || du == 1 && dv == 1,
    ensures
        lit(
            merged_quad(dir, d, u, v, du, dv, c.origin, block, face_light(c, n, x, y, z, dir)).v[i],
            c,
            n,
            x,
            y,
            z,
            dir,
        ),
{
    let ao = face_light(c, n, x, y, z, dir);
    assert(ao[0] == light_at(c, n, x, y, z, dir, 0));
    assert(ao[1] == light_at(c, n, x, y, z, dir, 1));
    assert(ao[2] == light_at(c, n, x, y, z, dir, 2));
    assert(ao[3] == light_at(c, n, x, y, z, dir, 3));
    lemma_light_found(c, n, x, y, z, dir, 0);
    lemma_light_found(c, n, x, y, z, dir, 1);
    lemma_light_found(c, n, x, y, z, dir, 2);
    lemma_light_found(c, n, x, y, z, dir, 3);
    assert(i == 0 || i == 1 || i == 2 || i == 3);
}

// ── Meshes ───────────────────────────────────────────────────────────────────

/// The side of a cell that a quad lies over has its texture and its light.
spec fn right_for(
    q: FaceQuad,
    c: ChunkView,
    n: NeighborMasks,
    x: int,
    y: int,
    z: int,
    to: FaceDir,
) -> bool {
    over(q.v, to, cell_at(c.origin, x, y, z, 10)) ==> {
        &&& textured(q.v, to, look(c.at(x, y, z), to))
        &&& lit(q.v[0], c, n, x, y, z, to)
        &&& lit(q.v[1], c, n, x, y, z, to)
        &&& lit(q.v[2], c, n, x, y, z, to)
        &&& lit(q.v[3], c, n, x, y, z, to)
    }
}

/// The side of a cell that a quad lies over has its texture, and all light.
spec fn bright_for(q: FaceQuad, c: ChunkView, x: int, y: int, z: int, to: FaceDir) -> bool {
    over(q.v, to, cell_at(c.origin, x, y, z, 10)) ==> {
        &&& textured(q.v, to, look(c.at(x, y, z), to))
        &&& q.v[0].ao == 3 && q.v[1].ao == 3 && q.v[2].ao == 3 && q.v[3].ao == 3
    }
}

/// What is known of a rectangle of a mask that lies over a cell.
proof fn lemma_rect_facts(
    dir: FaceDir,
    swap: bool,
    o: BlockPos,
    mask: Seq<Option<MaskCell>>,
    a_len: int,
    b_len: int,
    j: int,
    to: FaceDir,
    x: int,
    y: int,
    z: int,
)
    requires
        0 <= a_len <= 256,
        0 <= b_len <= 256,
        mask.len() == a_len * b_len,
        levels_ok(mask),
        0 <= j < merged(mask, a_len, b_len).len(),
        over(
            rect_quad(dir, swap, o, merged(mask, a_len, b_len)[j]).v,
            to,
            cell_at(o, x, y, z, 10),
        ),
    ensures
        ({
            let q = merged(mask, a_len, b_len)[j];
            let (d, a, b) = place_in(dir, swap, x, y, z);
            let (u, v, du, dv) = if swap {
                (q.b as int, q.a as int, q.db as int, q.da as int)
            } else {
                (q.a as int, q.b as int, q.da as int, q.db as int)
            };
            &&& to == dir
            &&& 0 <= a < a_len && 0 <= b < b_len
            &&& mask[a * b_len + b] == Some(q.cell)
            &&& q.cell.level == d
            &&& rect_quad(dir, swap, o, q) == merged_quad(
                dir,
                d,
                u,
                v,
                du,
                dv,
                o,
                q.cell.block,
                q.cell.ao,
            )
            &&& within(dir, d, u, v, du, dv, x, y, z)
            &&& 0 <= d <= 256 && 0 <= u <= 256 && 0 <= v <= 256 && 0 < du <= 256 && 0 < dv <= 256
            &&& uniform(q.cell.ao) || du == 1 && dv == 1
        }),
{
    lemma_mask_rect(dir, swap, o, mask, a_len, b_len, j, to, x, y, z, 10);
    law_merged(mask, a_len, b_len);
    assert(quad_ok(mask, a_len, b_len, merged(mask, a_len, b_len)[j]));
    lemma_rect_level(mask, a_len, b_len, j);
}

/// A rectangle that lies over a cell has what the cell has.
proof fn lemma_slice_rect(
    c: ChunkView,
    n: NeighborMasks,
    dir: FaceDir,
    d: int,
    j: int,
    x: int,
    y: int,
    z: int,
    to: FaceDir,
)
    requires
        c.wf(),
        0 <= d < dims_of(dir, c.max_height + 1).0,
        ({
            let mask = slice_mask(c, n, dir, d);
            let (u_len, v_len) = slice_dims(c, dir);
            &&& 0 <= j < merged(mask, u_len, v_len).len()
            &&& over(
                rect_quad(dir, false, c.origin, merged(mask, u_len, v_len)[j]).v,
                to,
                cell_at(c.origin, x, y, z, 10),
            )
        }),
    ensures
        ({
            let q = merged(slice_mask(c, n, dir, d), slice_dims(c, dir).0, slice_dims(c, dir).1)[j];
            q.cell.block == c.at(x, y, z) && q.cell.ao == face_light(c, n, x, y, z, dir)
        }),
{
    let (u_len, v_len) = slice_dims(c, dir);
    let mask = slice_mask(c, n, dir, d);
    lemma_slice_mask(c, n, dir, d);
    lemma_rect_facts(dir, false, c.origin, mask, u_len, v_len, j, to, x, y, z);
    let (e, a, b) = place_in(dir, false, x, y, z);
    lemma_cell_split(v_len, a, b);
    lemma_next_cell(u_len, v_len, a, b);
    assert(mask[a * v_len + b] == slice_cell(c, n, dir, d, a, b));
    reveal(slice_cell);
}

proof fn lemma_quad_right(
    c: ChunkView,
    n: NeighborMasks,
    dir: FaceDir,
    d: int,
    j: int,
    x: int,
    y: int,
    z: int,
    to: FaceDir,
)
    requires
        c.wf(),
        0 <= d < dims_of(dir, c.max_height + 1).0,
        0 <= j < merged(slice_mask(c, n, dir, d), slice_dims(c, dir).0, slice_dims(c, dir).1).len(),
    ensures
        right_for(
            rect_quad(
                dir,
                false,
                c.origin,
                merged(slice_mask(c, n, dir, d), slice_dims(c, dir).0, slice_dims(c, dir).1)[j],
            ),
            c,
            n,
            x,
            y,
            z,
            to,
        ),
{
    let (u_len, v_len) = slice_dims(c, dir);
    let mask = slice_mask(c, n, dir, d);
    let q = merged(mask, u_len, v_len)[j];
    if over(rect_quad(dir, false, c.origin, q).v, to, cell_at(c.origin, x, y, z, 10)) {
        lemma_slice_mask(c, n, dir, d);
        lemma_rect_facts(dir, false, c.origin, mask, u_len, v_len, j, to, x, y, z);
        lemma_slice_rect(c, n, dir, d, j, x, y, z, to);
        let (e, a, b) = place_in(dir, false, x, y, z);
        let (u, v, du, dv) = (q.a as int, q.b as int, q.da as int, q.db as int);
        let block = c.at(x, y, z);
        let ao = face_light(c, n, x, y, z, dir);
        lemma_rect_textured(dir, e, u, v, du, dv, c.origin, block, ao);
        lemma_rect_lit(dir, e, u, v, du, dv, block, c, n, x, y, z, 0);
        lemma_rect_lit(dir, e, u, v, du, dv, block, c, n, x, y, z, 1);
        lemma_rect_lit(dir, e, u, v, du, dv, block, c, n, x, y, z, 2);
        lemma_rect_lit(dir, e, u, v, du, dv, block, c, n, x, y, z, 3);
    }
}

proof fn lemma_slice_right(
    c: ChunkView,
    n: NeighborMasks,
    dir: FaceDir,
    d: int,
    x: int,
    y: int,
    z: int,
    to: FaceDir,
)
    requires
        c.wf(),
        0 <= d < dims_of(dir, c.max_height + 1).0,
    ensures
        all_are(
            mask_quads(
                dir,
                false,
                c.origin,
                slice_mask(c, n, dir, d),
                slice_dims(c, dir).0,
                slice_dims(c, dir).1,
            ),
            |q: FaceQuad| right_for(q, c, n, x, y, z, to),
        ),
{
    let (u_len, v_len) = slice_dims(c, dir);
    let mask = slice_mask(c, n, dir, d);
    let qs = mask_quads(dir, false, c.origin, mask, u_len, v_len);
    let pred = |q: FaceQuad| right_for(q, c, n, x, y, z, to);
    assert forall|j: int| 0 <= j < qs.len() implies pred(#[trigger] qs[j]) by {
        lemma_quad_right(c, n, dir, d, j, x, y, z, to);
        assert(qs[j] == rect_quad(dir, false, c.origin, merged(mask, u_len, v_len)[j]));
    }
}

/// Where the full mesh shows the side of a block, it has the block's texture. Each vertex at a
/// corner of the side is a shade darker if one of the cells in front that meet there takes light
/// away.
pub proof fn law_full_drawn(
    c: ChunkView,
    n: NeighborMasks,
    k: int,
    x: int,
    y: int,
    z: int,
    dir: FaceDir,
)
    requires
        c.wf(),
        0 <= x < 32,
        0 <= y < 256,
        0 <= z < 32,
        0 <= k,
        4 * k < lods_of(c, n).full.vertices.len(),
        over(quad_at(lods_of(c, n).full.vertices, k), dir, cell_at(c.origin, x, y, z, 10)),
    ensures
        ({
            let v = quad_at(lods_of(c, n).full.vertices, k);
            &&& textured(v, dir, look(c.at(x, y, z), dir))
            &&& forall|i: int| 0 <= i < 4 ==> lit(#[trigger] v[i], c, n, x, y, z, dir)
        }),
{
    let pred = |q: FaceQuad| right_for(q, c, n, x, y, z, dir);
    let quads = chunk_quads(c, n);
    assert forall|to: FaceDir, d: int| 0 <= d < dims_of(to, c.max_height + 1).0 implies all_are(
        #[trigger] mask_quads(
            to,
            false,
            c.origin,
            slice_mask(c, n, to, d),
            slice_dims(c, to).0,
            slice_dims(c, to).1,
        ),
        pred,
    ) by {
        lemma_slice_right(c, n, to, d, x, y, z, dir);
    }
    assert forall|to: FaceDir, d: int, u: int, v: int|
        0 <= d < dims_of(to, c.max_height + 1).0 && 0 <= u < slice_dims(c, to).0 && 0 <= v
            < slice_dims(c, to).1 implies (#[trigger] slice_loose(c, n, to, d, u, v) matches Some(q)
        ==> pred(q)) by {
        lemma_loose_over(c, n, to, d, u, v, dir, x, y, z, 10);
    }
    lemma_chunk_are(c, n, 6, pred);
    assert(pred(quads[k]));
    let v = quad_at(mesh_vertices(quads), k);
    assert(v =~= quads[k].v);
    assert forall|i: int| 0 <= i < 4 implies lit(#[trigger] v[i], c, n, x, y, z, dir) by {
        assert(i == 0 || i == 1 || i == 2 || i == 3);
    }
}

/// The quads of a coarse mask have the textures of the blocks that they lie over, and all light.
proof fn lemma_mask_bright(
    dir: FaceDir,
    swap: bool,
    mask: Seq<Option<MaskCell>>,
    a_len: int,
    b_len: int,
    c: ChunkView,
    x: int,
    y: int,
    z: int,
    to: FaceDir,
)
    requires
        0 <= a_len <= 256,
        0 <= b_len <= 256,
        mask.len() == a_len * b_len,
        levels_ok(mask),
        ({
            let (d, a, b) = place_in(dir, swap, x, y, z);
            0 <= a < a_len && 0 <= b < b_len ==> (mask[a * b_len + b] matches Some(m) ==> (m.level
                == d ==> m.block == c.at(x, y, z) && m.ao[0] == 3 && m.ao[1] == 3 && m.ao[2] == 3
                && m.ao[3] == 3))
        }),
    ensures
        all_are(
            mask_quads(dir, swap, c.origin, mask, a_len, b_len),
            |q: FaceQuad| bright_for(q, c, x, y, z, to),
        ),
{
    let qs = mask_quads(dir, swap, c.origin, mask, a_len, b_len);
    assert forall|j: int| 0 <= j < qs.len() implies bright_for(#[trigger] qs[j], c, x, y, z, to) by {
        let q = merged(mask, a_len, b_len)[j];
        assert(qs[j] == rect_quad(dir, swap, c.origin, q));
        if over(qs[j].v, to, cell_at(c.origin, x, y, z, 10)) {
            lemma_rect_facts(dir, swap, c.origin, mask, a_len, b_len, j, to, x, y, z);
            let (e, a, b) = place_in(dir, swap, x, y, z);
            let (u, v, du, dv) = if swap {
                (q.b as int, q.a as int, q.db as int, q.da as int)
            } else {
                (q.a as int, q.b as int, q.da as int, q.db as int)
            };
            lemma_rect_textured(dir, e, u, v, du, dv, c.origin, q.cell.block, q.cell.ao);
        }
    }
}

/// Where the surface mesh shows the side of a block, it has the block's texture and all light.
pub proof fn law_surface_drawn(
    c: ChunkView,
    n: NeighborMasks,
    k: int,
    x: int,
    y: int,
    z: int,
    dir: FaceDir,
)
    requires
        c.wf(),
        0 <= x < 32,
        0 <= y < 256,
        0 <= z < 32,
        0 <= k,
        4 * k < lods_of(c, n).surface.vertices.len(),
        over(quad_at(lods_of(c, n).surface.vertices, k), dir, cell_at(c.origin, x, y, z, 10)),
    ensures
        ({
            let v = quad_at(lods_of(c, n).surface.vertices, k);
            &&& textured(v, dir, look(c.at(x, y, z), dir))
            &&& forall|i: int| 0 <= i < 4 ==> (#[trigger] v[i]).ao == 3
        }),
{
    let pred = |q: FaceQuad| bright_for(q, c, x, y, z, dir);
    let quads = surface_quads(c, n);
    lemma_surface_mask(c);
    let i = x * 32 + z;
    assert(i / 32 == x && i % 32 == z);
    lemma_top_opaque(c, x, z, c.max_height);
    assert(surface_mask(c)[x * 32 + z] == surface_cell(c, x, z));
    lemma_mask_bright(FaceDir::PosY, false, surface_mask(c), 32, 32, c, x, y, z, dir);
    assert forall|i: int, e: int| 0 <= i < 4 && 0 <= e < 32 implies all_are(
        #[trigger] wall_quads(c, n, wall_dir(i), e),
        pred,
    ) by {
        let to = wall_dir(i);
        let row = c.max_height + 1;
        let mask = wall_mask(c, n, to, e);
        reveal(wall_cell);
        assert(levels_ok(mask));
        let (d, a, b) = place_in(to, along_x(to), x, y, z);
        if 0 <= a < 32 && 0 <= b < row {
            lemma_cell_split(row, a, b);
            lemma_next_cell(32, row, a, b);
            assert(mask[a * row + b] == wall_cell(c, n, to, e, a, b));
        }
        lemma_mask_bright(to, along_x(to), mask, 32, row, c, x, y, z, dir);
    }
    lemma_surface_are(c, n, 4, pred);
    assert(pred(quads[k]));
    let v = quad_at(mesh_vertices(quads), k);
    assert(v =~= quads[k].v);
    assert forall|i: int| 0 <= i < 4 implies (#[trigger] v[i]).ao == 3 by {
        assert(i == 0 || i == 1 || i == 2 || i == 3);
    }
}

/// The vertices of the water mesh all face up and have all light. The texture of stone lies on the
/// water, unstretched.
pub proof fn law_water_drawn(c: ChunkView, n: NeighborMasks, i: int)
    requires
        c.wf(),
        0 <= i < lods_of(c, n).water.vertices.len(),
    ensures
        ({
            let w = lods_of(c, n).water.vertices[i];
            points(w.normal, FaceDir::PosY) && w.ao == 3
        }),
        textured(quad_at(lods_of(c, n).water.vertices, i / 4), FaceDir::PosY, 0),
{
    let quads = water_quads(c, n);
    let mask = water_mask(c, n);
    lemma_water_mask(c, n);
    law_merged(mask, 32, 32);
    let k = i / 4;
    let q = merged(mask, 32, 32)[k];
    assert(quad_ok(mask, 32, 32, merged(mask, 32, 32)[k]));
    assert(covers(q, q.a as int, q.b as int));
    assert(cell_of(mask, 32, q.a as int, q.b as int) == Some(q.cell));
    let at = q.a * 32 + q.b;
    reveal(water_cell);
    assert(mask[at] == water_cell(c, n, at / 32, at % 32));
    assert(quads[k] == rect_quad(FaceDir::PosY, false, c.origin, q));
    let r = i % 4;
    assert(r == 0 || r == 1 || r == 2 || r == 3);
    let (a, b) = (q.a as int, q.b as int);
    let (da, db) = (q.da as int, q.db as int);
    let (block, level) = (q.cell.block, q.cell.level as int);
    lemma_rect_textured(FaceDir::PosY, level, a, b, da, db, c.origin, block, q.cell.ao);
    let v = quad_at(lods_of(c, n).water.vertices, k);
    let dry = quads[k].v;
    assert forall|j: int| 0 <= j < 4 implies (#[trigger] v[j]).uv == dry[j].uv && v[j].pos[0]
        == dry[j].pos[0] && v[j].pos[2] == dry[j].pos[2] by {
        assert((4 * k + j) / 4 == k && (4 * k + j) % 4 == j);
    }
    assert(textured(dry, FaceDir::PosY, 0));
    let f = choose|f: int| 0 <= f < 4 && (#[trigger] dry[f]).uv[0] == 0 && dry[f].uv[1] == 0;
    assert(v[f].uv[0] == 0);
}

/// A vertex of a side of a slab has full light, and the texture of stone lies on the side.
pub open spec fn slab_vertex(w: Vertex, dir: FaceDir, b: Cell) -> bool {
    let s = w.pos[axis_s(dir)] - low_of(b, axis_s(dir));
    let t = w.pos[axis_t(dir)] - low_of(b, axis_t(dir));
    &&& w.ao == 3
    &&& 0 <= s <= 10
    &&& 0 <= t <= 10
    &&& w.uv[1] == t
    &&& w.uv[0] == match dir {
        FaceDir::NegX | FaceDir::PosZ => s,
        _ => 10 - s,
    }
}

spec fn slab_for(q: FaceQuad, c: ChunkView, x: int, y: int, z: int, to: FaceDir) -> bool {
    let b = cell_at(c.origin, x, y, z, 5);
    over(q.v, to, b) ==> slab_vertex(q.v[0], to, b) && slab_vertex(q.v[1], to, b) && slab_vertex(
        q.v[2],
        to,
        b,
    ) && slab_vertex(q.v[3], to, b)
}

proof fn lemma_slab_loose(
    c: ChunkView,
    n: NeighborMasks,
    dir: FaceDir,
    d: int,
    u: int,
    v: int,
    x: int,
    y: int,
    z: int,
    to: FaceDir,
)
    requires
        0 <= d <= 256,
        0 <= u <= 256,
        0 <= v <= 256,
        slice_loose(c, n, dir, d, u, v) is Some,
    ensures
        slab_for(slice_loose(c, n, dir, d, u, v)->0, c, x, y, z, to),
{
    lemma_loose_over(c, n, dir, d, u, v, to, x, y, z, 5);
    reveal(slice_loose);
}

proof fn lemma_slab_rect(
    c: ChunkView,
    n: NeighborMasks,
    dir: FaceDir,
    d: int,
    j: int,
    x: int,
    y: int,
    z: int,
    to: FaceDir,
)
    requires
        c.wf(),
        c.at(x, y, z).0 == 3,
        0 <= d < dims_of(dir, c.max_height + 1).0,
        0 <= j < merged(slice_mask(c, n, dir, d), slice_dims(c, dir).0, slice_dims(c, dir).1).len(),
    ensures
        !over(
            rect_quad(
                dir,
                false,
                c.origin,
                merged(slice_mask(c, n, dir, d), slice_dims(c, dir).0, slice_dims(c, dir).1)[j],
            ).v,
            to,
            cell_at(c.origin, x, y, z, 5),
        ),
{
    let (u_len, v_len) = slice_dims(c, dir);
    let mask = slice_mask(c, n, dir, d);
    lemma_slice_mask(c, n, dir, d);
    lemma_mask_rect(dir, false, c.origin, mask, u_len, v_len, j, to, x, y, z, 5);
    let (e, a, b) = place_in(dir, false, x, y, z);
    if 0 <= a < u_len && 0 <= b < v_len {
        lemma_cell_split(v_len, a, b);
        lemma_next_cell(u_len, v_len, a, b);
        assert(mask[a * v_len + b] == slice_cell(c, n, dir, d, a, b));
        reveal(slice_cell);
    }
}

/// A slab looks like stone on its sides and on its top, and has full light.
pub proof fn law_slab_drawn(
    c: ChunkView,
    n: NeighborMasks,
    k: int,
    x: int,
    y: int,
    z: int,
    dir: FaceDir,
    i: int,
)
    requires
        c.wf(),
        0 <= x < 32,
        0 <= y < 256,
        0 <= z < 32,
        c.at(x, y, z).0 == 3,
        0 <= k,
        4 * k < lods_of(c, n).full.vertices.len(),
        over(quad_at(lods_of(c, n).full.vertices, k), dir, cell_at(c.origin, x, y, z, 5)),
        0 <= i < 4,
    ensures
        slab_vertex(
            lods_of(c, n).full.vertices[4 * k + i],
            dir,
            cell_at(c.origin, x, y, z, 5),
        ),
{
    let pred = |q: FaceQuad| slab_for(q, c, x, y, z, dir);
    let quads = chunk_quads(c, n);
    assert forall|to: FaceDir, d: int| 0 <= d < dims_of(to, c.max_height + 1).0 implies all_are(
        #[trigger] mask_quads(
            to,
            false,
            c.origin,
            slice_mask(c, n, to, d),
            slice_dims(c, to).0,
            slice_dims(c, to).1,
        ),
        pred,
    ) by {
        let qs = mask_quads(
            to,
            false,
            c.origin,
            slice_mask(c, n, to, d),
            slice_dims(c, to).0,
            slice_dims(c, to).1,
        );
        assert forall|j: int| 0 <= j < qs.len() implies pred(#[trigger] qs[j]) by {
            lemma_slab_rect(c, n, to, d, j, x, y, z, dir);
        }
    }
    assert forall|to: FaceDir, d: int, u: int, v: int|
        0 <= d < dims_of(to, c.max_height + 1).0 && 0 <= u < slice_dims(c, to).0 && 0 <= v
            < slice_dims(c, to).1 implies (#[trigger] slice_loose(c, n, to, d, u, v) matches Some(q)
        ==> pred(q)) by {
        if slice_loose(c, n, to, d, u, v) is Some {
            lemma_slab_loose(c, n, to, d, u, v, x, y, z, dir);
        }
    }
    lemma_chunk_are(c, n, 6, pred);
    assert(pred(quads[k]));
    assert(quad_at(mesh_vertices(quads), k) =~= quads[k].v);
    assert(i == 0 || i == 1 || i == 2 || i == 3);
}

} // verus!
