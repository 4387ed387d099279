//! What the meshes of a chunk show, said of their vertices and of the blocks of the chunk.

use crate::meshing::exposure::{dims_of, exposed, xyz_of};
use crate::meshing::greedy::{
    chunk_quads, chunk_quads_to, dir_quads_to, lemma_cell_split, lemma_next_cell, lemma_rect_level,
    levels_ok, mask_quads, rect_quad, slice_cell, slice_dims, slice_loose, slice_loose_to,
    slice_mask, slice_quads,
};
use crate::meshing::laws::lemma_top_opaque;
use crate::meshing::lods::lods_of;
use crate::meshing::merge::{
    cell_of, covered, covers, law_merged, merged, quad_ok, MaskCell,
};
use crate::meshing::quad::{merged_quad, mesh_vertices, FaceQuad};
use crate::meshing::surface::{
    along_x, dir_walls_to, has_sea, lowered, mask_top, surface_level, surface_mask, surface_quads,
    surface_quads_to, top_water, wall_cell, wall_column, wall_dir, wall_mask, wall_quads,
    water_cell, water_mask, water_quads,
};
use crate::models::face::{dir_of, index_of, FaceDir};
use crate::render::mesh::Vertex;
use crate::world::block::BlockId;
use crate::world::chunk::ChunkView;
use crate::world::coords::BlockPos;
use crate::world::neighbor::{solid_in, NeighborMasks, FACE_BYTES};
use vstd::prelude::*;

verus! {

// ── Words for it ─────────────────────────────────────────────────────────────

/// A vector points in a direction and is one block long.
pub open spec fn points(n: [i32; 3], dir: FaceDir) -> bool {
    match dir {
        FaceDir::PosX => n[0] == 1 && n[1] == 0 && n[2] == 0,
        FaceDir::NegX => n[0] == -1 && n[1] == 0 && n[2] == 0,
        FaceDir::PosY => n[0] == 0 && n[1] == 1 && n[2] == 0,
        FaceDir::NegY => n[0] == 0 && n[1] == -1 && n[2] == 0,
        FaceDir::PosZ => n[0] == 0 && n[1] == 0 && n[2] == 1,
        FaceDir::NegZ => n[0] == 0 && n[1] == 0 && n[2] == -1,
    }
}

/// A box, given by its lowest corner and by its height. It is one block wide.
pub struct Cell {
    pub x: int,
    pub y: int,
    pub z: int,
    pub h: int,
}

/// The box of the block at (x, y, z) of a chunk, of which the lower `h` tenths are filled.
pub open spec fn cell_at(o: BlockPos, x: int, y: int, z: int, h: int) -> Cell {
    Cell { x: 10 * (o.x + x), y: 10 * (o.y + y), z: 10 * (o.z + z), h }
}

/// A point lies in the plane of a side of a box.
pub open spec fn in_plane(p: [i64; 3], dir: FaceDir, b: Cell) -> bool {
    match dir {
        FaceDir::PosX => p[0] == b.x + 10,
        FaceDir::NegX => p[0] == b.x,
        FaceDir::PosY => p[1] == b.y + b.h,
        FaceDir::NegY => p[1] == b.y,
        FaceDir::PosZ => p[2] == b.z + 10,
        FaceDir::NegZ => p[2] == b.z,
    }
}

/// Four points reach from `lo` to `hi` along an axis.
pub open spec fn reach(v: [Vertex; 4], axis: int, lo: int, hi: int) -> bool {
    &&& v[0].pos[axis] <= lo || v[1].pos[axis] <= lo || v[2].pos[axis] <= lo || v[3].pos[axis] <= lo
    &&& v[0].pos[axis] >= hi || v[1].pos[axis] >= hi || v[2].pos[axis] >= hi || v[3].pos[axis] >= hi
}

/// A quad lies over a side of a box: it faces the same way, lies in its plane and reaches across.
pub open spec fn over(v: [Vertex; 4], dir: FaceDir, b: Cell) -> bool {
    &&& points(v[0].normal, dir) && points(v[1].normal, dir) && points(v[2].normal, dir) && points(
        v[3].normal,
        dir,
    )
    &&& in_plane(v[0].pos, dir, b) && in_plane(v[1].pos, dir, b) && in_plane(v[2].pos, dir, b)
        && in_plane(v[3].pos, dir, b)
    &&& dir == FaceDir::PosX || dir == FaceDir::NegX || reach(v, 0, b.x, b.x + 10)
    &&& dir == FaceDir::PosY || dir == FaceDir::NegY || reach(v, 1, b.y, b.y + b.h)
    &&& dir == FaceDir::PosZ || dir == FaceDir::NegZ || reach(v, 2, b.z, b.z + 10)
}

/// The four corners of the `k`-th quad of a mesh.
pub open spec fn quad_at(vs: Seq<Vertex>, k: int) -> [Vertex; 4] {
    [vs[4 * k], vs[4 * k + 1], vs[4 * k + 2], vs[4 * k + 3]]
}

/// A quad of a mesh lies over a side of a box.
pub open spec fn shown(vs: Seq<Vertex>, dir: FaceDir, b: Cell) -> bool {
    exists|k: int| 0 <= 4 * k && 4 * k + 3 < vs.len() && over(#[trigger] quad_at(vs, k), dir, b)
}

/// A block that hides what is behind it: any but air and water.
pub open spec fn hides(id: BlockId) -> bool {
    id.0 != 0 && id.0 != 4
}

/// How many tenths of its cell a block fills from below: a slab half, any other all.
pub open spec fn fill_of(id: BlockId) -> int {
    if id.0 == 3 {
        5
    } else {
        10
    }
}

/// A neighbour that is known has an opaque block at (y, lateral) of its side.
pub open spec fn hidden_by(mask: Option<[u8; FACE_BYTES]>, y: int, lateral: int) -> bool {
    mask matches Some(m) && solid_in(m, y, lateral)
}

/// The side of the cell at (x, y, z) of a chunk can be seen: what it faces, in the chunk or beside
/// it, hides nothing.
pub open spec fn open_side(c: ChunkView, n: NeighborMasks, x: int, y: int, z: int, dir: FaceDir)
    -> bool {
    match dir {
        FaceDir::PosX => if x < 31 {
            !hides(c.at(x + 1, y, z))
        } else {
            !hidden_by(n.pos_x, y, z)
        },
        FaceDir::NegX => if x > 0 {
            !hides(c.at(x - 1, y, z))
        } else {
            !hidden_by(n.neg_x, y, z)
        },
        FaceDir::PosY => y == 255 || !hides(c.at(x, y + 1, z)),
        FaceDir::NegY => y == 0 || !hides(c.at(x, y - 1, z)),
        FaceDir::PosZ => if z < 31 {
            !hides(c.at(x, y, z + 1))
        } else {
            !hidden_by(n.pos_z, y, x)
        },
        FaceDir::NegZ => if z > 0 {
            !hides(c.at(x, y, z - 1))
        } else {
            !hidden_by(n.neg_z, y, x)
        },
    }
}

// ── Quads of rectangles ──────────────────────────────────────────────────────

/// The cell at (x, y, z) lies at depth `d` of a direction, within a rectangle.
pub open spec fn within(dir: FaceDir, d: int, u: int, v: int, du: int, dv: int, x: int, y: int, z: int)
    -> bool {
    match dir {
        FaceDir::PosX | FaceDir::NegX => x == d && u <= y < u + du && v <= z < v + dv,
        FaceDir::PosY | FaceDir::NegY => y == d && u <= x < u + du && v <= z < v + dv,
        FaceDir::PosZ | FaceDir::NegZ => z == d && u <= x < u + du && v <= y < v + dv,
    }
}

proof fn lemma_rect_over(
    dir: FaceDir,
    d: int,
    u: int,
    v: int,
    du: int,
    dv: int,
    o: BlockPos,
    block: BlockId,
    ao: [u8; 4],
    to: FaceDir,
    x: int,
    y: int,
    z: int,
    h: int,
)
    requires
        0 <= d <= 256,
        0 <= u <= 256,
        0 <= v <= 256,
        0 < du <= 256,
        0 < dv <= 256,
        h == 5 || h == 10,
    ensures
        over(merged_quad(dir, d, u, v, du, dv, o, block, ao).v, to, cell_at(o, x, y, z, h)) <==> to
            == dir && within(dir, d, u, v, du, dv, x, y, z) && (dir == FaceDir::PosY ==> h == 10),
{
}

/// Where the cell at (x, y, z) lies in a mask: its depth, its row and its column.
pub open spec fn place_in(dir: FaceDir, swap: bool, x: int, y: int, z: int) -> (int, int, int) {
    let (d, u, v) = match dir {
        FaceDir::PosX | FaceDir::NegX => (x, y, z),
        FaceDir::PosY | FaceDir::NegY => (y, x, z),
        FaceDir::PosZ | FaceDir::NegZ => (z, x, y),
    };
    if swap {
        (d, v, u)
    } else {
        (d, u, v)
    }
}

/// A mask has a face for the cell at (x, y, z).
pub open spec fn has_face(
    mask: Seq<Option<MaskCell>>,
    a_len: int,
    b_len: int,
    dir: FaceDir,
    swap: bool,
    x: int,
    y: int,
    z: int,
) -> bool {
    let (d, a, b) = place_in(dir, swap, x, y, z);
    0 <= a < a_len && 0 <= b < b_len && (mask[a * b_len + b] matches Some(m) && m.level == d)
}

/// A quad of a list lies over a side of a box.
pub open spec fn any_over(qs: Seq<FaceQuad>, to: FaceDir, b: Cell) -> bool {
    exists|j: int| 0 <= j < qs.len() && over((#[trigger] qs[j]).v, to, b)
}

/// The quad of a rectangle of a mask lies over the sides of its own cells only.
pub proof fn lemma_mask_rect(
    dir: FaceDir,
    swap: bool,
    o: BlockPos,
    mask: Seq<Option<MaskCell>>,
    a_len: int,
    b_len: int,
    j: int,
    to: FaceDir,
    x: int,
    y: int,
    z: int,
    h: int,
)
    requires
        0 <= a_len <= 256,
        0 <= b_len <= 256,
        mask.len() == a_len * b_len,
        levels_ok(mask),
        0 <= j < merged(mask, a_len, b_len).len(),
        h == 5 || h == 10,
    ensures
        ({
            let q = merged(mask, a_len, b_len)[j];
            let (d, a, b) = place_in(dir, swap, x, y, z);
            &&& over(rect_quad(dir, swap, o, q).v, to, cell_at(o, x, y, z, h)) <==> to == dir
                && q.cell.level == d && covers(q, a, b) && (dir == FaceDir::PosY ==> h == 10)
            &&& covers(q, a, b) ==> 0 <= a < a_len && 0 <= b < b_len && mask[a * b_len + b]
                == Some(q.cell)
        }),
{
    let q = merged(mask, a_len, b_len)[j];
    let (d, a, b) = place_in(dir, swap, x, y, z);
    law_merged(mask, a_len, b_len);
    assert(quad_ok(mask, a_len, b_len, merged(mask, a_len, b_len)[j]));
    lemma_rect_level(mask, a_len, b_len, j);
    if covers(q, a, b) {
        assert(cell_of(mask, b_len, a, b) == Some(q.cell));
    }
    if swap {
        lemma_rect_over(
            dir,
            q.cell.level as int,
            q.b as int,
            q.a as int,
            q.db as int,
            q.da as int,
            o,
            q.cell.block,
            q.cell.ao,
            to,
            x,
            y,
            z,
            h,
        );
    } else {
        lemma_rect_over(
            dir,
            q.cell.level as int,
            q.a as int,
            q.b as int,
            q.da as int,
            q.db as int,
            o,
            q.cell.block,
            q.cell.ao,
            to,
            x,
            y,
            z,
            h,
        );
    }
}

/// The quads of a mask lie over the sides of the cells that it has faces for, and over no others.
proof fn lemma_mask_over(
    dir: FaceDir,
    swap: bool,
    o: BlockPos,
    mask: Seq<Option<MaskCell>>,
    a_len: int,
    b_len: int,
    to: FaceDir,
    x: int,
    y: int,
    z: int,
    h: int,
)
    requires
        0 <= a_len <= 256,
        0 <= b_len <= 256,
        mask.len() == a_len * b_len,
        levels_ok(mask),
        h == 5 || h == 10,
    ensures
        any_over(mask_quads(dir, swap, o, mask, a_len, b_len), to, cell_at(o, x, y, z, h)) <==> to
            == dir && has_face(mask, a_len, b_len, dir, swap, x, y, z) && (dir == FaceDir::PosY
            ==> h == 10),
{
    let qs = mask_quads(dir, swap, o, mask, a_len, b_len);
    let rects = merged(mask, a_len, b_len);
    let b = cell_at(o, x, y, z, h);
    let (depth, row, col) = place_in(dir, swap, x, y, z);
    law_merged(mask, a_len, b_len);
    if any_over(qs, to, b) {
        let j = choose|j: int| 0 <= j < qs.len() && over((#[trigger] qs[j]).v, to, b);
        assert(qs[j] == rect_quad(dir, swap, o, rects[j]));
        lemma_mask_rect(dir, swap, o, mask, a_len, b_len, j, to, x, y, z, h);
    }
    if to == dir && has_face(mask, a_len, b_len, dir, swap, x, y, z) && (dir == FaceDir::PosY ==> h
        == 10) {
        assert(cell_of(mask, b_len, row, col) is Some);
        assert(covered(rects, row, col));
        let j = choose|j: int| 0 <= j < rects.len() && #[trigger] covers(rects[j], row, col);
        lemma_mask_rect(dir, swap, o, mask, a_len, b_len, j, to, x, y, z, h);
        assert(qs[j] == rect_quad(dir, swap, o, rects[j]));
        assert(over(qs[j].v, to, b));
    }
}

proof fn lemma_any_concat(p: Seq<FaceQuad>, q: Seq<FaceQuad>, to: FaceDir, b: Cell)
    ensures
        any_over(p + q, to, b) <==> any_over(p, to, b) || any_over(q, to, b),
{
    if any_over(p, to, b) {
        let j = choose|j: int| 0 <= j < p.len() && over((#[trigger] p[j]).v, to, b);
        assert((p + q)[j] == p[j]);
    }
    if any_over(q, to, b) {
        let j = choose|j: int| 0 <= j < q.len() && over((#[trigger] q[j]).v, to, b);
        assert((p + q)[p.len() + j] == q[j]);
    }
    if any_over(p + q, to, b) {
        let j = choose|j: int| 0 <= j < (p + q).len() && over((#[trigger] (p + q)[j]).v, to, b);
        if j < p.len() {
            assert(p[j] == (p + q)[j]);
        } else {
            assert(q[j - p.len()] == (p + q)[j]);
        }
    }
}

/// A mesh shows what its quads lie over.
proof fn lemma_shown(quads: Seq<FaceQuad>, dir: FaceDir, b: Cell)
    ensures
        shown(mesh_vertices(quads), dir, b) <==> any_over(quads, dir, b),
{
    let vs = mesh_vertices(quads);
    assert forall|k: int| 0 <= k < quads.len() implies #[trigger] quad_at(vs, k) == quads[k].v by {
        assert(quad_at(vs, k) =~= quads[k].v);
    }
    if shown(vs, dir, b) {
        let k = choose|k: int|
            0 <= 4 * k && 4 * k + 3 < vs.len() && over(#[trigger] quad_at(vs, k), dir, b);
        assert(quad_at(vs, k) == quads[k].v);
    }
    if any_over(quads, dir, b) {
        let k = choose|k: int| 0 <= k < quads.len() && over((#[trigger] quads[k]).v, dir, b);
        assert(quad_at(vs, k) == quads[k].v);
    }
}

// ── The full mesh ────────────────────────────────────────────────────────────

/// A face that is drawn for itself is that of a slab.
pub proof fn lemma_loose_over(
    c: ChunkView,
    n: NeighborMasks,
    dir: FaceDir,
    d: int,
    u: int,
    v: int,
    to: FaceDir,
    x: int,
    y: int,
    z: int,
    h: int,
)
    requires
        0 <= d <= 256,
        0 <= u <= 256,
        0 <= v <= 256,
        h == 5 || h == 10,
    ensures
        (slice_loose(c, n, dir, d, u, v) matches Some(q) && over(
            q.v,
            to,
            cell_at(c.origin, x, y, z, h),
        )) <==> to == dir && (x, y, z) == xyz_of(dir, d, u, v) && h == 5 && c.at(x, y, z).0 == 3
            && dir != FaceDir::NegY && open_cell(c, n, x, y, z, dir),
{
    reveal(slice_loose);
}

/// The side can be seen as far as the mesher looks at it.
pub open spec fn open_cell(c: ChunkView, n: NeighborMasks, x: int, y: int, z: int, dir: FaceDir) -> bool {
    exposed(c, n, x, y, z, dir)
}

/// The side of a cell is drawn: in full, or as high as a slab.
spec fn draws(c: ChunkView, n: NeighborMasks, dir: FaceDir, x: int, y: int, z: int, h: int)
    -> bool {
    let id = c.at(x, y, z);
    &&& dir != FaceDir::NegY
    &&& open_cell(c, n, x, y, z, dir)
    &&& (id.0 == 1 || id.0 == 2) && (dir == FaceDir::PosY ==> h == 10) || id.0 == 3 && h == 5
}

proof fn lemma_loose_to(
    c: ChunkView,
    n: NeighborMasks,
    dir: FaceDir,
    d: int,
    k: int,
    to: FaceDir,
    x: int,
    y: int,
    z: int,
    h: int,
)
    requires
        0 <= d <= 256,
        0 < slice_dims(c, dir).0 <= 256,
        0 < slice_dims(c, dir).1 <= 256,
        0 <= k <= slice_dims(c, dir).0 * slice_dims(c, dir).1,
        h == 5 || h == 10,
    ensures
        ({
            let (depth, a, b) = place_in(dir, false, x, y, z);
            let (u_len, v_len) = slice_dims(c, dir);
            any_over(slice_loose_to(c, n, dir, d, k), to, cell_at(c.origin, x, y, z, h)) <==> to
                == dir && depth == d && 0 <= a < u_len && 0 <= b < v_len && a * v_len + b < k
                && c.at(x, y, z).0 == 3 && draws(c, n, dir, x, y, z, h)
        }),
    decreases k,
{
    let (depth, a, b) = place_in(dir, false, x, y, z);
    let (u_len, v_len) = slice_dims(c, dir);
    let cell = cell_at(c.origin, x, y, z, h);
    if 0 <= a < u_len && 0 <= b < v_len {
        lemma_cell_split(v_len, a, b);
        lemma_next_cell(u_len, v_len, a, b);
    }
    if k > 0 {
        lemma_loose_to(c, n, dir, d, k - 1, to, x, y, z, h);
        let u = (k - 1) / v_len;
        let v = (k - 1) % v_len;
        vstd::arithmetic::div_mod::lemma_fundamental_div_mod(k - 1, v_len);
        assert(0 <= v < v_len);
        assert(v_len * u == u * v_len) by (nonlinear_arith);
        assert(0 <= u < u_len) by (nonlinear_arith)
            requires
                k - 1 == v_len * u + v,
                0 <= v < v_len,
                0 <= k - 1 < u_len * v_len,
        ;
        lemma_loose_over(c, n, dir, d, u, v, to, x, y, z, h);
        if (a, b) == (u, v) {
            assert(a * v_len + b == k - 1);
        }
        let before = slice_loose_to(c, n, dir, d, k - 1);
        match slice_loose(c, n, dir, d, u, v) {
            Some(q) => {
                lemma_any_concat(before, seq![q], to, cell);
                assert(before.push(q) =~= before + seq![q]);
                assert(seq![q][0] == q);
                if any_over(seq![q], to, cell) {
                    assert(over(q.v, to, cell));
                }
            },
            None => {},
        }
    } else {
        if 0 <= a < u_len && 0 <= b < v_len {
            assert(a * v_len + b >= 0);
        }
    }
}

pub proof fn lemma_slice_mask(c: ChunkView, n: NeighborMasks, dir: FaceDir, d: int)
    requires
        c.wf(),
        0 <= d < dims_of(dir, c.max_height + 1).0,
    ensures
        levels_ok(slice_mask(c, n, dir, d)),
        slice_mask(c, n, dir, d).len() == slice_dims(c, dir).0 * slice_dims(c, dir).1,
{
    let (u_len, v_len) = slice_dims(c, dir);
    lemma_next_cell(u_len, v_len, 0, 0);
    reveal(slice_cell);
}

/// The mask of a slice has a face for a cell if and only if the cell's side is drawn in full.
proof fn lemma_slice_face(
    c: ChunkView,
    n: NeighborMasks,
    dir: FaceDir,
    x: int,
    y: int,
    z: int,
)
    requires
        0 <= place_in(dir, false, x, y, z).0 <= 256,
    ensures
        ({
            let (d, a, b) = place_in(dir, false, x, y, z);
            slice_cell(c, n, dir, d, a, b) is Some <==> draws(c, n, dir, x, y, z, 10) && c.at(
                x,
                y,
                z,
            ).0 != 3
        }),
        ({
            let (d, a, b) = place_in(dir, false, x, y, z);
            slice_cell(c, n, dir, d, a, b) matches Some(m) ==> m.level == d
        }),
{
    reveal(slice_cell);
}

proof fn lemma_slice_level(c: ChunkView, n: NeighborMasks, dir: FaceDir, d: int, a: int, b: int)
    requires
        0 <= d <= 256,
    ensures
        slice_cell(c, n, dir, d, a, b) matches Some(m) ==> m.level == d,
{
    reveal(slice_cell);
}

proof fn lemma_slice_over(
    c: ChunkView,
    n: NeighborMasks,
    dir: FaceDir,
    d: int,
    to: FaceDir,
    x: int,
    y: int,
    z: int,
    h: int,
)
    requires
        c.wf(),
        0 <= d < dims_of(dir, c.max_height + 1).0,
        h == 5 || h == 10,
    ensures
        ({
            let (depth, a, b) = place_in(dir, false, x, y, z);
            let (u_len, v_len) = slice_dims(c, dir);
            any_over(slice_quads(c, n, dir, d), to, cell_at(c.origin, x, y, z, h)) <==> to == dir
                && depth == d && 0 <= a < u_len && 0 <= b < v_len && draws(c, n, dir, x, y, z, h)
        }),
{
    let (depth, a, b) = place_in(dir, false, x, y, z);
    let (u_len, v_len) = slice_dims(c, dir);
    let cell = cell_at(c.origin, x, y, z, h);
    let mask = slice_mask(c, n, dir, d);
    lemma_next_cell(u_len, v_len, 0, 0);
    assert(u_len * v_len >= 0);
    lemma_slice_mask(c, n, dir, d);
    lemma_loose_to(c, n, dir, d, u_len * v_len, to, x, y, z, h);
    lemma_mask_over(dir, false, c.origin, mask, u_len, v_len, to, x, y, z, h);
    lemma_any_concat(
        slice_loose_to(c, n, dir, d, u_len * v_len),
        mask_quads(dir, false, c.origin, mask, u_len, v_len),
        to,
        cell,
    );
    if 0 <= a < u_len && 0 <= b < v_len {
        lemma_cell_split(v_len, a, b);
        lemma_next_cell(u_len, v_len, a, b);
        assert(mask[a * v_len + b] == slice_cell(c, n, dir, d, a, b));
        lemma_slice_level(c, n, dir, d, a, b);
        if depth == d {
            lemma_slice_face(c, n, dir, x, y, z);
        }
    }
}

proof fn lemma_dir_over(
    c: ChunkView,
    n: NeighborMasks,
    dir: FaceDir,
    d: int,
    to: FaceDir,
    x: int,
    y: int,
    z: int,
    h: int,
)
    requires
        c.wf(),
        0 <= d <= dims_of(dir, c.max_height + 1).0,
        h == 5 || h == 10,
    ensures
        ({
            let (depth, a, b) = place_in(dir, false, x, y, z);
            let (u_len, v_len) = slice_dims(c, dir);
            any_over(dir_quads_to(c, n, dir, d), to, cell_at(c.origin, x, y, z, h)) <==> to == dir
                && 0 <= depth < d && 0 <= a < u_len && 0 <= b < v_len && draws(
                c,
                n,
                dir,
                x,
                y,
                z,
                h,
            )
        }),
    decreases d,
{
    if d > 0 {
        lemma_dir_over(c, n, dir, d - 1, to, x, y, z, h);
        lemma_slice_over(c, n, dir, d - 1, to, x, y, z, h);
        lemma_any_concat(
            dir_quads_to(c, n, dir, d - 1),
            slice_quads(c, n, dir, d - 1),
            to,
            cell_at(c.origin, x, y, z, h),
        );
    }
}

proof fn lemma_chunk_over(
    c: ChunkView,
    n: NeighborMasks,
    k: int,
    to: FaceDir,
    x: int,
    y: int,
    z: int,
    h: int,
)
    requires
        c.wf(),
        0 <= k <= 6,
        h == 5 || h == 10,
    ensures
        any_over(chunk_quads_to(c, n, k), to, cell_at(c.origin, x, y, z, h)) <==> index_of(to) < k
            && 0 <= x < 32 && 0 <= y <= c.max_height && 0 <= z < 32 && draws(c, n, to, x, y, z, h),
    decreases k,
{
    if k > 0 {
        let dir = dir_of(k - 1);
        lemma_chunk_over(c, n, k - 1, to, x, y, z, h);
        lemma_dir_over(c, n, dir, dims_of(dir, c.max_height + 1).0, to, x, y, z, h);
        lemma_any_concat(
            chunk_quads_to(c, n, k - 1),
            dir_quads_to(c, n, dir, dims_of(dir, c.max_height + 1).0),
            to,
            cell_at(c.origin, x, y, z, h),
        );
    }
}

/// The full mesh shows a side of a block if and only if the block is solid and what the side faces
/// hides nothing, be it in the chunk or beside it. Undersides are left out, and so is water. A slab
/// shows the lower half of its cell, other blocks all of it.
pub proof fn law_full_mesh(c: ChunkView, n: NeighborMasks, x: int, y: int, z: int, dir: FaceDir)
    requires
        c.wf(),
        0 <= x < 32,
        0 <= y < 256,
        0 <= z < 32,
    ensures
        ({
            let id = c.at(x, y, z);
            let vs = lods_of(c, n).full.vertices;
            &&& shown(vs, dir, cell_at(c.origin, x, y, z, fill_of(id))) <==> dir != FaceDir::NegY
                && 1 <= id.0 <= 3 && open_side(c, n, x, y, z, dir)
            &&& id.0 == 3 ==> !shown(vs, dir, cell_at(c.origin, x, y, z, 10))
        }),
{
    let id = c.at(x, y, z);
    let h = fill_of(id);
    if y > c.max_height {
        assert(c.at(x, y, z) == BlockId(crate::world::block::AIR));
    }
    lemma_chunk_over(c, n, 6, dir, x, y, z, h);
    lemma_shown(chunk_quads(c, n), dir, cell_at(c.origin, x, y, z, h));
    lemma_chunk_over(c, n, 6, dir, x, y, z, 10);
    lemma_shown(chunk_quads(c, n), dir, cell_at(c.origin, x, y, z, 10));
}

// ── The surface mesh ─────────────────────────────────────────────────────────

/// It is known what lies beside a cell, in the chunk or past its border.
pub open spec fn known_beside(n: NeighborMasks, x: int, z: int, dir: FaceDir) -> bool {
    match dir {
        FaceDir::PosX => x < 31 || n.pos_x is Some,
        FaceDir::NegX => x > 0 || n.neg_x is Some,
        FaceDir::PosZ => z < 31 || n.pos_z is Some,
        FaceDir::NegZ => z > 0 || n.neg_z is Some,
        FaceDir::PosY | FaceDir::NegY => true,
    }
}

/// Nothing that a column of sides faces from level `y` up hides anything.
pub open spec fn open_from(c: ChunkView, n: NeighborMasks, x: int, y: int, z: int, dir: FaceDir)
    -> bool {
    forall|y2: int| y <= y2 < 256 ==> #[trigger] open_side(c, n, x, y2, z, dir)
}

/// The highest opaque level of a column is below `y` if and only if nothing from `y` up hides
/// anything.
proof fn lemma_level_below(c: ChunkView, x: int, z: int, y: int)
    requires
        c.wf(),
        0 <= x < 32,
        0 <= z < 32,
        0 <= y < 256,
    ensures
        surface_level(c, x, z) < y <==> forall|y2: int|
            y <= y2 < 256 ==> !hides(#[trigger] c.at(x, y2, z)),
        surface_level(c, x, z) < 256,
        surface_level(c, x, z) == y <==> hides(c.at(x, y, z)) && forall|y2: int|
            y < y2 < 256 ==> !hides(#[trigger] c.at(x, y2, z)),
{
    let top = surface_level(c, x, z);
    lemma_top_opaque(c, x, z, c.max_height);
    assert forall|y2: int| top < y2 < 256 && 0 <= y2 implies !hides(#[trigger] c.at(x, y2, z)) by {
        if y2 > c.max_height {
            assert(c.at(x, y2, z) == BlockId(crate::world::block::AIR));
        }
    }
    if top >= 0 {
        assert(hides(c.at(x, top, z)));
    }
}

proof fn lemma_mask_below(mask: [u8; FACE_BYTES], lateral: int, h: int, y: int)
    requires
        0 <= y,
    ensures
        mask_top(mask, lateral, h) < y <==> forall|y2: int|
            y <= y2 <= h ==> !#[trigger] solid_in(mask, y2, lateral),
        mask_top(mask, lateral, h) >= -1,
    decreases h + 1,
{
    if h >= 0 {
        lemma_mask_below(mask, lateral, h - 1, y);
        if solid_in(mask, h, lateral) {
            if h < y {
                assert forall|y2: int| y <= y2 <= h implies !#[trigger] solid_in(
                    mask,
                    y2,
                    lateral,
                ) by {}
            }
        } else {
            if mask_top(mask, lateral, h - 1) < y {
                assert forall|y2: int| y <= y2 <= h implies !#[trigger] solid_in(
                    mask,
                    y2,
                    lateral,
                ) by {
                    if y2 < h {
                        assert(!solid_in(mask, y2, lateral));
                    }
                }
            } else {
                let y2 = choose|y2: int|
                    y <= y2 <= h - 1 && #[trigger] solid_in(mask, y2, lateral);
                assert(solid_in(mask, y2, lateral));
            }
        }
    }
}

/// A wall is drawn where the column that it faces is known and lower.
proof fn lemma_wall_open(c: ChunkView, n: NeighborMasks, dir: FaceDir, x: int, y: int, z: int)
    requires
        c.wf(),
        0 <= x < 32,
        0 <= y < 256,
        0 <= z < 32,
        dir != FaceDir::PosY,
        dir != FaceDir::NegY,
    ensures
        ({
            let (d, lat) = if dir == FaceDir::PosX || dir == FaceDir::NegX {
                (x, z)
            } else {
                (z, x)
            };
            wall_cell(c, n, dir, d, lat, y) is Some <==> hides(c.at(x, y, z)) && known_beside(
                n,
                x,
                z,
                dir,
            ) && open_from(c, n, x, y, z, dir)
        }),
        wall_column(
            dir,
            if dir == FaceDir::PosX || dir == FaceDir::NegX {
                x
            } else {
                z
            },
            if dir == FaceDir::PosX || dir == FaceDir::NegX {
                z
            } else {
                x
            },
        ) == (x, z),
{
    reveal(wall_cell);
    let own = surface_level(c, x, z);
    lemma_level_below(c, x, z, y);
    if hides(c.at(x, y, z)) {
        assert(own >= y);
    }
    let (nx, nz) = match dir {
        FaceDir::PosX => (x + 1, z),
        FaceDir::NegX => (x - 1, z),
        FaceDir::PosZ => (x, z + 1),
        _ => (x, z - 1),
    };
    if 0 <= nx < 32 && 0 <= nz < 32 {
        lemma_level_below(c, nx, nz, y);
        if open_from(c, n, x, y, z, dir) {
            assert forall|y2: int| y <= y2 < 256 implies !hides(#[trigger] c.at(nx, y2, nz)) by {
                assert(open_side(c, n, x, y2, z, dir));
            }
        }
    } else {
        let (mask, lat) = match dir {
            FaceDir::PosX => (n.pos_x, z),
            FaceDir::NegX => (n.neg_x, z),
            FaceDir::PosZ => (n.pos_z, x),
            _ => (n.neg_z, x),
        };
        if let Some(m) = mask {
            lemma_mask_below(m, lat, 255, y);
            if open_from(c, n, x, y, z, dir) {
                assert forall|y2: int| y <= y2 <= 255 implies !#[trigger] solid_in(m, y2, lat) by {
                    assert(open_side(c, n, x, y2, z, dir));
                }
            }
        }
    }
}

proof fn lemma_walls_over(
    c: ChunkView,
    n: NeighborMasks,
    dir: FaceDir,
    d: int,
    to: FaceDir,
    x: int,
    y: int,
    z: int,
)
    requires
        c.wf(),
        0 <= d <= 32,
        dir != FaceDir::PosY,
        dir != FaceDir::NegY,
    ensures
        ({
            let (depth, lat, level) = place_in(dir, along_x(dir), x, y, z);
            any_over(dir_walls_to(c, n, dir, d), to, cell_at(c.origin, x, y, z, 10)) <==> to == dir
                && 0 <= depth < d && 0 <= lat < 32 && 0 <= level <= c.max_height && wall_cell(
                c,
                n,
                dir,
                depth,
                lat,
                level,
            ) is Some
        }),
    decreases d,
{
    let (depth, lat, level) = place_in(dir, along_x(dir), x, y, z);
    if d > 0 {
        lemma_walls_over(c, n, dir, d - 1, to, x, y, z);
        let row = c.max_height + 1;
        let mask = wall_mask(c, n, dir, d - 1);
        reveal(wall_cell);
        assert(levels_ok(mask));
        lemma_mask_over(dir, along_x(dir), c.origin, mask, 32, row, to, x, y, z, 10);
        lemma_any_concat(
            dir_walls_to(c, n, dir, d - 1),
            wall_quads(c, n, dir, d - 1),
            to,
            cell_at(c.origin, x, y, z, 10),
        );
        if 0 <= lat < 32 && 0 <= level < row {
            lemma_cell_split(row, lat, level);
            lemma_next_cell(32, row, lat, level);
            assert(mask[lat * row + level] == wall_cell(c, n, dir, d - 1, lat, level));
        }
    }
}

pub proof fn lemma_surface_mask(c: ChunkView)
    requires
        c.wf(),
    ensures
        forall|i: int|
            0 <= i < 1024 ==> (#[trigger] surface_mask(c)[i] matches Some(m) ==> m.level < 256),
{
    let mask = surface_mask(c);
    assert forall|i: int| 0 <= i < 1024 implies (#[trigger] mask[i] matches Some(m) ==> m.level
        < 256) by {
        lemma_level_below(c, i / 32, i % 32, 0);
    }
}

proof fn lemma_surface_over(
    c: ChunkView,
    n: NeighborMasks,
    k: int,
    to: FaceDir,
    x: int,
    y: int,
    z: int,
)
    requires
        c.wf(),
        0 <= k <= 4,
        0 <= x < 32,
        0 <= y < 256,
        0 <= z < 32,
    ensures
        any_over(surface_quads_to(c, n, k), to, cell_at(c.origin, x, y, z, 10)) <==> (if to
            == FaceDir::PosY {
            surface_level(c, x, z) == y
        } else {
            to != FaceDir::NegY && (exists|i: int| 0 <= i < k && #[trigger] wall_dir(i) == to)
                && hides(c.at(x, y, z)) && known_beside(n, x, z, to) && open_from(
                c,
                n,
                x,
                y,
                z,
                to,
            )
        }),
    decreases k,
{
    let cell = cell_at(c.origin, x, y, z, 10);
    if k == 0 {
        let mask = surface_mask(c);
        lemma_level_below(c, x, z, y);
        lemma_surface_mask(c);
        lemma_mask_over(FaceDir::PosY, false, c.origin, mask, 32, 32, to, x, y, z, 10);
        let i = x * 32 + z;
        assert(i / 32 == x && i % 32 == z);
    } else {
        let dir = wall_dir(k - 1);
        lemma_surface_over(c, n, k - 1, to, x, y, z);
        lemma_walls_over(c, n, dir, 32, to, x, y, z);
        lemma_any_concat(surface_quads_to(c, n, k - 1), dir_walls_to(c, n, dir, 32), to, cell);
        lemma_wall_open(c, n, dir, x, y, z);
        if y > c.max_height {
            assert(c.at(x, y, z) == BlockId(crate::world::block::AIR));
        }
        if to == dir {
            assert(wall_dir(k - 1) == to);
        }
    }
}

/// The surface mesh shows the top of a block if and only if it is the highest opaque one of its
/// column. It shows a side of a block if and only if the block is opaque, it is known what lies
/// beside it, and nothing there hides anything, neither at its level nor above.
pub proof fn law_surface_mesh(c: ChunkView, n: NeighborMasks, x: int, y: int, z: int, dir: FaceDir)
    requires
        c.wf(),
        0 <= x < 32,
        0 <= y < 256,
        0 <= z < 32,
    ensures
        ({
            let vs = lods_of(c, n).surface.vertices;
            let seen = shown(vs, dir, cell_at(c.origin, x, y, z, 10));
            match dir {
                FaceDir::PosY => seen <==> hides(c.at(x, y, z)) && forall|y2: int|
                    y < y2 < 256 ==> !hides(#[trigger] c.at(x, y2, z)),
                FaceDir::NegY => !seen,
                _ => seen <==> hides(c.at(x, y, z)) && known_beside(n, x, z, dir) && open_from(
                    c,
                    n,
                    x,
                    y,
                    z,
                    dir,
                ),
            }
        }),
{
    lemma_surface_over(c, n, 4, dir, x, y, z);
    lemma_level_below(c, x, z, y);
    lemma_shown(surface_quads(c, n), dir, cell_at(c.origin, x, y, z, 10));
    assert(wall_dir(0) == FaceDir::PosX);
    assert(wall_dir(1) == FaceDir::NegX);
    assert(wall_dir(2) == FaceDir::PosZ);
    assert(wall_dir(3) == FaceDir::NegZ);
}

// ── The water mesh ───────────────────────────────────────────────────────────

proof fn lemma_water_level(c: ChunkView, x: int, z: int, h: int, y: int)
    requires
        0 <= y,
    ensures
        top_water(c, x, z, h) == y <==> y <= h && c.at(x, y, z).0 == 4 && forall|y2: int|
            y < y2 <= h ==> (#[trigger] c.at(x, y2, z)).0 != 4,
        -1 <= top_water(c, x, z, h) && (h >= -1 ==> top_water(c, x, z, h) <= h),
    decreases h + 1,
{
    if h >= 0 {
        lemma_water_level(c, x, z, h - 1, y);
        if c.at(x, h, z).0 != 4 {
            if top_water(c, x, z, h - 1) == y {
                assert forall|y2: int| y < y2 <= h implies (#[trigger] c.at(x, y2, z)).0 != 4 by {
                    if y2 < h {
                        assert(c.at(x, y2, z).0 != 4);
                    }
                }
            }
        }
    }
}

pub proof fn lemma_water_mask(c: ChunkView, n: NeighborMasks)
    requires
        c.wf(),
    ensures
        forall|i: int|
            0 <= i < 1024 ==> (#[trigger] water_mask(c, n)[i] matches Some(m) ==> m.level < 256),
{
    let mask = water_mask(c, n);
    reveal(water_cell);
    assert forall|i: int| 0 <= i < 1024 implies (#[trigger] mask[i] matches Some(m) ==> m.level
        < 256) by {
        lemma_water_level(c, i / 32, i % 32, c.max_height, 0);
        assert(mask[i] == water_cell(c, n, i / 32, i % 32));
    }
}

/// A quad on top of blocks that is lowered lies over boxes that are lower.
proof fn lemma_lowered(v: [Vertex; 4], dir: FaceDir, o: BlockPos, x: int, y: int, z: int)
    requires
        points(v[0].normal, FaceDir::PosY),
        v[0].pos[1] > i64::MIN,
        v[1].pos[1] > i64::MIN,
        v[2].pos[1] > i64::MIN,
        v[3].pos[1] > i64::MIN,
    ensures
        over([lowered(v[0]), lowered(v[1]), lowered(v[2]), lowered(v[3])], dir, cell_at(o, x, y, z, 9))
            == (dir == FaceDir::PosY && over(v, dir, cell_at(o, x, y, z, 10))),
{
}

pub proof fn lemma_water_quad(c: ChunkView, n: NeighborMasks, k: int)
    requires
        c.wf(),
        0 <= k < water_quads(c, n).len(),
    ensures
        ({
            let v = water_quads(c, n)[k].v;
            &&& points(v[0].normal, FaceDir::PosY)
            &&& v[0].pos[1] > i64::MIN
            &&& v[1].pos[1] > i64::MIN
            &&& v[2].pos[1] > i64::MIN
            &&& v[3].pos[1] > i64::MIN
            &&& quad_at(lods_of(c, n).water.vertices, k) == [
                lowered(v[0]),
                lowered(v[1]),
                lowered(v[2]),
                lowered(v[3]),
            ]
        }),
{
    let mask = water_mask(c, n);
    let quads = water_quads(c, n);
    lemma_water_mask(c, n);
    let q = merged(mask, 32, 32)[k];
    lemma_rect_level(mask, 32, 32, k);
    assert(quads[k] == rect_quad(FaceDir::PosY, false, c.origin, q));
    let v = quads[k].v;
    assert(quad_at(lods_of(c, n).water.vertices, k) =~= [
        lowered(v[0]),
        lowered(v[1]),
        lowered(v[2]),
        lowered(v[3]),
    ]);
}

proof fn lemma_water_shown(c: ChunkView, n: NeighborMasks, x: int, y: int, z: int, dir: FaceDir)
    requires
        c.wf(),
    ensures
        shown(lods_of(c, n).water.vertices, dir, cell_at(c.origin, x, y, z, 9)) <==> dir
            == FaceDir::PosY && any_over(
            water_quads(c, n),
            dir,
            cell_at(c.origin, x, y, z, 10),
        ),
{
    let quads = water_quads(c, n);
    let vs = lods_of(c, n).water.vertices;
    let low = cell_at(c.origin, x, y, z, 9);
    let full = cell_at(c.origin, x, y, z, 10);
    assert(vs.len() == 4 * quads.len());
    if shown(vs, dir, low) {
        let k = choose|k: int|
            0 <= 4 * k && 4 * k + 3 < vs.len() && over(#[trigger] quad_at(vs, k), dir, low);
        lemma_water_quad(c, n, k);
        lemma_lowered(quads[k].v, dir, c.origin, x, y, z);
        assert(over(quads[k].v, dir, full));
    }
    if dir == FaceDir::PosY && any_over(quads, dir, full) {
        let k = choose|k: int| 0 <= k < quads.len() && over((#[trigger] quads[k]).v, dir, full);
        lemma_water_quad(c, n, k);
        lemma_lowered(quads[k].v, dir, c.origin, x, y, z);
        assert(over(quad_at(vs, k), dir, low));
    }
}

/// The mesh shows the top of water nine tenths up its block. Of a chunk that has water at sea
/// level, it shows the highest water of each column unless something opaque lies on it. It shows
/// nothing else, and nothing of other chunks.
pub proof fn law_water_mesh(c: ChunkView, n: NeighborMasks, x: int, y: int, z: int, dir: FaceDir)
    requires
        c.wf(),
        0 <= x < 32,
        0 <= y < 256,
        0 <= z < 32,
    ensures
        ({
            let vs = lods_of(c, n).water.vertices;
            &&& shown(vs, dir, cell_at(c.origin, x, y, z, 9)) <==> dir == FaceDir::PosY
                && (exists|a: int, b: int|
                0 <= a < 32 && 0 <= b < 32 && (#[trigger] c.at(a, 120, b)).0 == 4) && c.at(
                x,
                y,
                z,
            ).0 == 4 && (y == 255 || !hides(c.at(x, y + 1, z))) && forall|y2: int|
                y < y2 < 256 ==> (#[trigger] c.at(x, y2, z)).0 != 4
        }),
{
    let mask = water_mask(c, n);
    lemma_water_mask(c, n);
    lemma_water_shown(c, n, x, y, z, dir);
    lemma_mask_over(FaceDir::PosY, false, c.origin, mask, 32, 32, dir, x, y, z, 10);
    lemma_water_level(c, x, z, c.max_height, y);
    if y > c.max_height {
        assert(c.at(x, y, z) == BlockId(crate::world::block::AIR));
    }
    assert forall|y2: int| c.max_height < y2 < 256 implies (#[trigger] c.at(x, y2, z)).0 != 4 by {
        assert(c.at(x, y2, z) == BlockId(crate::world::block::AIR));
    }
    let i = x * 32 + z;
    assert(i / 32 == x && i % 32 == z);
    assert(mask[i] == water_cell(c, n, x, z));
    reveal(water_cell);
    assert(has_sea(c) <==> exists|a: int, b: int|
        0 <= a < 32 && 0 <= b < 32 && (#[trigger] c.at(a, 120, b)).0 == 4);
}

} // verus!
