//! How the quads of a mesh are made: their shape, their triangles, their textures and their light.

use crate::meshing::exposure::dims_of;
use crate::meshing::greedy::{
    chunk_quads, chunk_quads_to, dir_quads_to, lemma_next_cell, lemma_rect_level, levels_ok,
    mask_quads, rect_quad, slice_cell, slice_dims, slice_loose, slice_loose_to, slice_mask,
    slice_quads,
};
use crate::meshing::laws::law_models_outward;
use crate::meshing::lods::lods_of;
use crate::meshing::merge::{law_merged, merged, quad_ok};
use crate::meshing::quad::{
    corner_order, law_merged_outward, merged_quad, mesh_indices, mesh_vertices, seen_area, FaceQuad,
};
use crate::meshing::shown::{lemma_surface_mask, lemma_water_mask, points};
use crate::meshing::surface::{
    along_x, dir_walls_to, lowered, surface_mask, surface_quads, surface_quads_to, wall_cell,
    wall_dir, wall_mask, wall_quads, water_mask, water_quads,
};
use crate::models::face::{dir_of, FaceDir};
use crate::render::mesh::{MeshView, Vertex};
use crate::world::block::BlockId;
use crate::world::chunk::ChunkView;
use crate::world::coords::BlockPos;
use crate::world::neighbor::NeighborMasks;
use vstd::prelude::*;

verus! {

// ── Words for it ─────────────────────────────────────────────────────────────

/// The axis (0 for X, 1 for Y, 2 for Z) that a direction lies along.
pub open spec fn axis_of(dir: FaceDir) -> int {
    match dir {
        FaceDir::PosX | FaceDir::NegX => 0,
        FaceDir::PosY | FaceDir::NegY => 1,
        FaceDir::PosZ | FaceDir::NegZ => 2,
    }
}

/// The axis along which textures run to the side: Z on sides along X, else X.
pub open spec fn axis_s(dir: FaceDir) -> int {
    match dir {
        FaceDir::PosX | FaceDir::NegX => 2,
        _ => 0,
    }
}

/// The axis along which textures run up: Y on sides, Z on tops and undersides.
pub open spec fn axis_t(dir: FaceDir) -> int {
    match dir {
        FaceDir::PosY | FaceDir::NegY => 2,
        _ => 1,
    }
}

/// Four corners go around a rectangle across a direction.
pub open spec fn rectangle(v: [Vertex; 4], dir: FaceDir) -> bool {
    let (p, q, r, w) = (v[0].pos, v[1].pos, v[2].pos, v[3].pos);
    let (a, s, t) = (axis_of(dir), axis_s(dir), axis_t(dir));
    &&& p[a] == q[a] && q[a] == r[a] && r[a] == w[a]
    &&& p[s] != q[s] && p[t] == q[t]
    &&& q[s] == r[s] && q[t] != r[t]
    &&& w[s] == p[s] && w[t] == r[t]
}

/// A point lies in a chunk or on its border.
pub open spec fn inside(p: [i64; 3], o: BlockPos) -> bool {
    &&& 10 * o.x <= p[0] <= 10 * (o.x + 32)
    &&& 10 * o.y <= p[1] <= 10 * (o.y + 256)
    &&& 10 * o.z <= p[2] <= 10 * (o.z + 32)
}

/// All corners have the same normal and lie in the chunk, and they go around a rectangle across it.
pub open spec fn shaped(v: [Vertex; 4], dir: FaceDir, o: BlockPos) -> bool {
    &&& points(v[0].normal, dir) && points(v[1].normal, dir) && points(v[2].normal, dir) && points(
        v[3].normal,
        dir,
    )
    &&& rectangle(v, dir)
    &&& inside(v[0].pos, o) && inside(v[1].pos, o) && inside(v[2].pos, o) && inside(v[3].pos, o)
}

/// The `j`-th corner of the two triangles of the `k`-th quad of a mesh.
pub open spec fn turn(m: MeshView, k: int, j: int) -> Vertex {
    m.vertices[m.indices[6 * k + j] as int]
}

/// The `k`-th quad of a mesh is made of two triangles, both counter-clockwise as they are seen from
/// where it faces, on either side of a diagonal. Of the two diagonals it is the one with more light
/// at its ends.
pub open spec fn triangles(m: MeshView, k: int, dir: FaceDir) -> bool {
    let i = |j: int| m.indices[6 * k + j] as int;
    let first = i(0) + i(1) + i(2);
    let second = i(3) + i(4) + i(5);
    let light = |j: int| turn(m, k, j).ao as int;
    &&& forall|j: int| 0 <= j < 6 ==> 4 * k <= #[trigger] m.indices[6 * k + j] < 4 * k + 4
    &&& seen_area(dir, turn(m, k, 0).pos, turn(m, k, 1).pos, turn(m, k, 2).pos) > 0
    &&& seen_area(dir, turn(m, k, 3).pos, turn(m, k, 4).pos, turn(m, k, 5).pos) > 0
    &&& first - second == 2 || second - first == 2
    &&& 2 * (light(0) + light(1) + light(2) + light(3) + light(4) + light(5)) >= 3 * (
    m.vertices[4 * k].ao + m.vertices[4 * k + 1].ao + m.vertices[4 * k + 2].ao
        + m.vertices[4 * k + 3].ao)
}

/// The `k`-th quad of a mesh is a rectangle of two triangles that faces `dir`.
pub open spec fn sound_quad(m: MeshView, k: int, dir: FaceDir, o: BlockPos) -> bool {
    &&& shaped(
        [
            m.vertices[4 * k],
            m.vertices[4 * k + 1],
            m.vertices[4 * k + 2],
            m.vertices[4 * k + 3],
        ],
        dir,
        o,
    )
    &&& triangles(m, k, dir)
}

// ── All quads of a mesh ──────────────────────────────────────────────────────

/// All quads of a list are of a kind.
pub open spec fn all_are(qs: Seq<FaceQuad>, pred: spec_fn(FaceQuad) -> bool) -> bool {
    forall|j: int| 0 <= j < qs.len() ==> pred(#[trigger] qs[j])
}

proof fn lemma_all_concat(p: Seq<FaceQuad>, q: Seq<FaceQuad>, pred: spec_fn(FaceQuad) -> bool)
    requires
        all_are(p, pred),
        all_are(q, pred),
    ensures
        all_are(p + q, pred),
{
    assert forall|j: int| 0 <= j < (p + q).len() implies pred(#[trigger] (p + q)[j]) by {
        if j < p.len() {
            assert((p + q)[j] == p[j]);
        } else {
            assert((p + q)[j] == q[j - p.len()]);
        }
    }
}

/// All quads that slices are made of are of a kind.
pub open spec fn slices_are(c: ChunkView, n: NeighborMasks, pred: spec_fn(FaceQuad) -> bool) -> bool {
    &&& forall|dir: FaceDir, d: int|
        0 <= d < dims_of(dir, c.max_height + 1).0 ==> all_are(
            #[trigger] mask_quads(
                dir,
                false,
                c.origin,
                slice_mask(c, n, dir, d),
                slice_dims(c, dir).0,
                slice_dims(c, dir).1,
            ),
            pred,
        )
    &&& forall|dir: FaceDir, d: int, u: int, v: int|
        0 <= d < dims_of(dir, c.max_height + 1).0 && 0 <= u < slice_dims(c, dir).0 && 0 <= v
            < slice_dims(c, dir).1 ==> (#[trigger] slice_loose(c, n, dir, d, u, v) matches Some(q)
            ==> pred(q))
}

proof fn lemma_loose_are(
    c: ChunkView,
    n: NeighborMasks,
    dir: FaceDir,
    d: int,
    k: int,
    pred: spec_fn(FaceQuad) -> bool,
)
    requires
        slices_are(c, n, pred),
        0 <= d < dims_of(dir, c.max_height + 1).0,
        0 < slice_dims(c, dir).1,
        0 <= k <= slice_dims(c, dir).0 * slice_dims(c, dir).1,
    ensures
        all_are(slice_loose_to(c, n, dir, d, k), pred),
    decreases k,
{
    if k > 0 {
        let (u_len, v_len) = slice_dims(c, dir);
        lemma_loose_are(c, n, dir, d, k - 1, pred);
        let u = (k - 1) / v_len;
        let v = (k - 1) % v_len;
        vstd::arithmetic::div_mod::lemma_fundamental_div_mod(k - 1, v_len);
        assert(0 <= v < v_len);
        assert(0 <= u < u_len) by (nonlinear_arith)
            requires
                k - 1 == v_len * u + v,
                0 <= v < v_len,
                0 <= k - 1 < u_len * v_len,
        ;
        let before = slice_loose_to(c, n, dir, d, k - 1);
        if let Some(q) = slice_loose(c, n, dir, d, u, v) {
            assert(pred(q));
            assert(before.push(q) =~= before + seq![q]);
            assert(all_are(seq![q], pred));
            lemma_all_concat(before, seq![q], pred);
        }
    }
}

proof fn lemma_dir_are(
    c: ChunkView,
    n: NeighborMasks,
    dir: FaceDir,
    d: int,
    pred: spec_fn(FaceQuad) -> bool,
)
    requires
        c.wf(),
        slices_are(c, n, pred),
        0 <= d <= dims_of(dir, c.max_height + 1).0,
    ensures
        all_are(dir_quads_to(c, n, dir, d), pred),
    decreases d,
{
    if d > 0 {
        let (u_len, v_len) = slice_dims(c, dir);
        lemma_dir_are(c, n, dir, d - 1, pred);
        lemma_next_cell(u_len, v_len, 0, 0);
        lemma_loose_are(c, n, dir, d - 1, u_len * v_len, pred);
        let flat = mask_quads(dir, false, c.origin, slice_mask(c, n, dir, d - 1), u_len, v_len);
        assert(all_are(flat, pred));
        lemma_all_concat(slice_loose_to(c, n, dir, d - 1, u_len * v_len), flat, pred);
        lemma_all_concat(dir_quads_to(c, n, dir, d - 1), slice_quads(c, n, dir, d - 1), pred);
    }
}

pub proof fn lemma_chunk_are(c: ChunkView, n: NeighborMasks, k: int, pred: spec_fn(FaceQuad) -> bool)
    requires
        c.wf(),
        slices_are(c, n, pred),
        0 <= k <= 6,
    ensures
        all_are(chunk_quads_to(c, n, k), pred),
    decreases k,
{
    if k > 0 {
        let dir = dir_of(k - 1);
        lemma_chunk_are(c, n, k - 1, pred);
        lemma_dir_are(c, n, dir, dims_of(dir, c.max_height + 1).0, pred);
        lemma_all_concat(
            chunk_quads_to(c, n, k - 1),
            dir_quads_to(c, n, dir, dims_of(dir, c.max_height + 1).0),
            pred,
        );
    }
}

proof fn lemma_walls_are(
    c: ChunkView,
    n: NeighborMasks,
    dir: FaceDir,
    d: int,
    pred: spec_fn(FaceQuad) -> bool,
)
    requires
        forall|e: int| 0 <= e < 32 ==> all_are(#[trigger] wall_quads(c, n, dir, e), pred),
        0 <= d <= 32,
    ensures
        all_are(dir_walls_to(c, n, dir, d), pred),
    decreases d,
{
    if d > 0 {
        lemma_walls_are(c, n, dir, d - 1, pred);
        assert(all_are(wall_quads(c, n, dir, d - 1), pred));
        lemma_all_concat(dir_walls_to(c, n, dir, d - 1), wall_quads(c, n, dir, d - 1), pred);
    }
}

pub proof fn lemma_surface_are(c: ChunkView, n: NeighborMasks, k: int, pred: spec_fn(FaceQuad) -> bool)
    requires
        all_are(mask_quads(FaceDir::PosY, false, c.origin, surface_mask(c), 32, 32), pred),
        forall|i: int, e: int|
            0 <= i < 4 && 0 <= e < 32 ==> all_are(
                #[trigger] wall_quads(c, n, wall_dir(i), e),
                pred,
            ),
        0 <= k <= 4,
    ensures
        all_are(surface_quads_to(c, n, k), pred),
    decreases k,
{
    if k > 0 {
        let dir = wall_dir(k - 1);
        lemma_surface_are(c, n, k - 1, pred);
        assert forall|e: int| 0 <= e < 32 implies all_are(
            #[trigger] wall_quads(c, n, dir, e),
            pred,
        ) by {}
        lemma_walls_are(c, n, dir, 32, pred);
        lemma_all_concat(surface_quads_to(c, n, k - 1), dir_walls_to(c, n, dir, 32), pred);
    }
}

// ── Shape ────────────────────────────────────────────────────────────────────

/// A quad is a rectangle in the chunk, its triangles turn outward, and it is split along the
/// diagonal with more light.
spec fn good(q: FaceQuad, dir: FaceDir, o: BlockPos) -> bool {
    let p = |j: int| q.v[corner_order(q.flip, j)].pos;
    &&& shaped(q.v, dir, o)
    &&& seen_area(dir, p(0), p(1), p(2)) > 0
    &&& seen_area(dir, p(3), p(4), p(5)) > 0
    &&& q.flip ==> q.v[0].ao + q.v[2].ao <= q.v[1].ao + q.v[3].ao
    &&& !q.flip ==> q.v[0].ao + q.v[2].ao >= q.v[1].ao + q.v[3].ao
}

spec fn good_quad(o: BlockPos) -> spec_fn(FaceQuad) -> bool {
    |q: FaceQuad| exists|dir: FaceDir| #[trigger] good(q, dir, o)
}

proof fn lemma_rect_good(
    dir: FaceDir,
    d: int,
    u: int,
    v: int,
    du: int,
    dv: int,
    o: BlockPos,
    block: BlockId,
    ao: [u8; 4],
)
    requires
        0 <= d,
        0 <= u,
        0 <= v,
        0 < du,
        0 < dv,
        match dir {
            FaceDir::PosX | FaceDir::NegX => d < 32 && u + du <= 256 && v + dv <= 32,
            FaceDir::PosY | FaceDir::NegY => d < 256 && u + du <= 32 && v + dv <= 32,
            FaceDir::PosZ | FaceDir::NegZ => d < 32 && u + du <= 32 && v + dv <= 256,
        },
    ensures
        good(merged_quad(dir, d, u, v, du, dv, o, block, ao), dir, o),
{
    let q = merged_quad(dir, d, u, v, du, dv, o, block, ao);
    law_merged_outward(dir, d, u, v, du, dv, o, q.flip);
}

/// The quads of a mask are rectangles in the chunk.
proof fn lemma_mask_good(
    dir: FaceDir,
    swap: bool,
    o: BlockPos,
    mask: Seq<Option<crate::meshing::merge::MaskCell>>,
    a_len: int,
    b_len: int,
    depth: int,
)
    requires
        0 <= a_len <= 256,
        0 <= b_len <= 256,
        mask.len() == a_len * b_len,
        forall|i: int|
            0 <= i < mask.len() ==> (#[trigger] mask[i] matches Some(m) ==> m.level < depth),
        match dir {
            FaceDir::PosX | FaceDir::NegX => depth <= 32 && if swap {
                a_len <= 32
            } else {
                b_len <= 32
            },
            FaceDir::PosY | FaceDir::NegY => depth <= 256 && a_len <= 32 && b_len <= 32,
            FaceDir::PosZ | FaceDir::NegZ => depth <= 32 && if swap {
                b_len <= 32
            } else {
                a_len <= 32
            },
        },
    ensures
        all_are(mask_quads(dir, swap, o, mask, a_len, b_len), good_quad(o)),
{
    let qs = mask_quads(dir, swap, o, mask, a_len, b_len);
    let rects = merged(mask, a_len, b_len);
    law_merged(mask, a_len, b_len);
    assert(levels_ok(mask));
    assert forall|j: int| 0 <= j < qs.len() implies good_quad(o)(#[trigger] qs[j]) by {
        let r = merged(mask, a_len, b_len)[j];
        lemma_rect_level(mask, a_len, b_len, j);
        assert(quad_ok(mask, a_len, b_len, merged(mask, a_len, b_len)[j]));
        assert(crate::meshing::merge::covers(r, r.a as int, r.b as int));
        assert(crate::meshing::merge::cell_of(mask, b_len, r.a as int, r.b as int) == Some(r.cell));
        assert(0 <= r.a * b_len + r.b < a_len * b_len) by (nonlinear_arith)
            requires
                r.a < a_len,
                r.b < b_len,
        ;
        assert(r.cell.level < depth);
        assert(qs[j] == rect_quad(dir, swap, o, r));
        if swap {
            lemma_rect_good(
                dir,
                r.cell.level as int,
                r.b as int,
                r.a as int,
                r.db as int,
                r.da as int,
                o,
                r.cell.block,
                r.cell.ao,
            );
        } else {
            lemma_rect_good(
                dir,
                r.cell.level as int,
                r.a as int,
                r.b as int,
                r.da as int,
                r.db as int,
                o,
                r.cell.block,
                r.cell.ao,
            );
        }
        assert(good(qs[j], dir, o));
    }
}

/// A face that is drawn for itself is a rectangle in the chunk.
proof fn lemma_loose_good(c: ChunkView, n: NeighborMasks, dir: FaceDir, d: int, u: int, v: int)
    requires
        c.wf(),
        0 <= d < dims_of(dir, c.max_height + 1).0,
        0 <= u < slice_dims(c, dir).0,
        0 <= v < slice_dims(c, dir).1,
    ensures
        slice_loose(c, n, dir, d, u, v) matches Some(q) ==> good(q, dir, c.origin),
{
    reveal(slice_loose);
    law_models_outward(dir, 5);
    if let Some(q) = slice_loose(c, n, dir, d, u, v) {
        assert(good(q, dir, c.origin));
    }
}

proof fn lemma_full_good(c: ChunkView, n: NeighborMasks)
    requires
        c.wf(),
    ensures
        all_are(chunk_quads(c, n), good_quad(c.origin)),
{
    let pred = good_quad(c.origin);
    assert forall|dir: FaceDir, d: int| 0 <= d < dims_of(dir, c.max_height + 1).0 implies all_are(
        #[trigger] mask_quads(
            dir,
            false,
            c.origin,
            slice_mask(c, n, dir, d),
            slice_dims(c, dir).0,
            slice_dims(c, dir).1,
        ),
        pred,
    ) by {
        let (u_len, v_len) = slice_dims(c, dir);
        lemma_next_cell(u_len, v_len, 0, 0);
        reveal(slice_cell);
        let mask = slice_mask(c, n, dir, d);
        lemma_mask_good(
            dir,
            false,
            c.origin,
            mask,
            u_len,
            v_len,
            dims_of(dir, c.max_height + 1).0,
        );
    }
    assert forall|dir: FaceDir, d: int, u: int, v: int|
        0 <= d < dims_of(dir, c.max_height + 1).0 && 0 <= u < slice_dims(c, dir).0 && 0 <= v
            < slice_dims(c, dir).1 implies (#[trigger] slice_loose(c, n, dir, d, u, v) matches Some(q)
        ==> pred(q)) by {
        lemma_loose_good(c, n, dir, d, u, v);
        if let Some(q) = slice_loose(c, n, dir, d, u, v) {
            assert(good(q, dir, c.origin));
        }
    }
    lemma_chunk_are(c, n, 6, pred);
}

proof fn lemma_surface_good(c: ChunkView, n: NeighborMasks)
    requires
        c.wf(),
    ensures
        all_are(surface_quads(c, n), good_quad(c.origin)),
{
    let pred = good_quad(c.origin);
    lemma_surface_mask(c);
    lemma_mask_good(FaceDir::PosY, false, c.origin, surface_mask(c), 32, 32, 256);
    assert forall|i: int, e: int| 0 <= i < 4 && 0 <= e < 32 implies all_are(
        #[trigger] wall_quads(c, n, wall_dir(i), e),
        pred,
    ) by {
        let dir = wall_dir(i);
        reveal(wall_cell);
        lemma_mask_good(
            dir,
            along_x(dir),
            c.origin,
            wall_mask(c, n, dir, e),
            32,
            c.max_height + 1,
            32,
        );
    }
    lemma_surface_are(c, n, 4, pred);
}

proof fn lemma_water_good(c: ChunkView, n: NeighborMasks)
    requires
        c.wf(),
    ensures
        all_are(water_quads(c, n), good_quad(c.origin)),
{
    lemma_water_mask(c, n);
    lemma_mask_good(FaceDir::PosY, false, c.origin, water_mask(c, n), 32, 32, 256);
}

// ── How many there are ───────────────────────────────────────────────────────

proof fn lemma_loose_count(c: ChunkView, n: NeighborMasks, dir: FaceDir, d: int, k: int)
    requires
        0 <= k,
    ensures
        slice_loose_to(c, n, dir, d, k).len() <= k,
    decreases k,
{
    if k > 0 {
        lemma_loose_count(c, n, dir, d, k - 1);
    }
}

proof fn lemma_slice_area(c: ChunkView, dir: FaceDir)
    requires
        c.wf(),
    ensures
        0 <= slice_dims(c, dir).0 * slice_dims(c, dir).1 <= 8192,
{
    let (u, v) = slice_dims(c, dir);
    assert(0 <= u * v <= 8192) by (nonlinear_arith)
        requires
            0 <= u <= 256,
            0 <= v <= 256,
            u <= 32 || v <= 32,
    ;
}

proof fn lemma_dir_count(c: ChunkView, n: NeighborMasks, dir: FaceDir, d: int)
    requires
        c.wf(),
        0 <= d,
    ensures
        dir_quads_to(c, n, dir, d).len() <= 16384 * d,
    decreases d,
{
    if d > 0 {
        let (u_len, v_len) = slice_dims(c, dir);
        lemma_dir_count(c, n, dir, d - 1);
        lemma_slice_area(c, dir);
        lemma_loose_count(c, n, dir, d - 1, u_len * v_len);
        law_merged(slice_mask(c, n, dir, d - 1), u_len, v_len);
    }
}

proof fn lemma_chunk_count(c: ChunkView, n: NeighborMasks, k: int)
    requires
        c.wf(),
        0 <= k <= 6,
    ensures
        chunk_quads_to(c, n, k).len() <= 4194304 * k,
    decreases k,
{
    if k > 0 {
        let dir = dir_of(k - 1);
        lemma_chunk_count(c, n, k - 1);
        lemma_dir_count(c, n, dir, dims_of(dir, c.max_height + 1).0);
    }
}

proof fn lemma_walls_count(c: ChunkView, n: NeighborMasks, dir: FaceDir, d: int)
    requires
        c.wf(),
        0 <= d,
    ensures
        dir_walls_to(c, n, dir, d).len() <= 8192 * d,
    decreases d,
{
    if d > 0 {
        lemma_walls_count(c, n, dir, d - 1);
        law_merged(wall_mask(c, n, dir, d - 1), 32, c.max_height + 1);
    }
}

proof fn lemma_surface_count(c: ChunkView, n: NeighborMasks, k: int)
    requires
        c.wf(),
        0 <= k <= 4,
    ensures
        surface_quads_to(c, n, k).len() <= 1024 + 262144 * k,
    decreases k,
{
    if k > 0 {
        lemma_surface_count(c, n, k - 1);
        lemma_walls_count(c, n, wall_dir(k - 1), 32);
    } else {
        law_merged(surface_mask(c), 32, 32);
    }
}

// ── Meshes ───────────────────────────────────────────────────────────────────

/// The mesh of a list of quads.
spec fn mesh_of(quads: Seq<FaceQuad>) -> MeshView {
    MeshView { vertices: mesh_vertices(quads), indices: mesh_indices(quads) }
}

proof fn lemma_turns(quads: Seq<FaceQuad>, k: int, j: int)
    requires
        4 * quads.len() <= u32::MAX,
        0 <= k < quads.len(),
        0 <= j < 6,
    ensures
        mesh_of(quads).indices[6 * k + j] == 4 * k + corner_order(quads[k].flip, j),
        turn(mesh_of(quads), k, j) == quads[k].v[corner_order(quads[k].flip, j)],
        0 <= corner_order(quads[k].flip, j) < 4,
{
}

proof fn lemma_sound(quads: Seq<FaceQuad>, k: int, dir: FaceDir, o: BlockPos)
    requires
        4 * quads.len() <= u32::MAX,
        0 <= k < quads.len(),
        good(quads[k], dir, o),
    ensures
        sound_quad(mesh_of(quads), k, dir, o),
{
    let m = mesh_of(quads);
    let q = quads[k];
    lemma_turns(quads, k, 0);
    lemma_turns(quads, k, 1);
    lemma_turns(quads, k, 2);
    lemma_turns(quads, k, 3);
    lemma_turns(quads, k, 4);
    lemma_turns(quads, k, 5);
    assert([
        m.vertices[4 * k],
        m.vertices[4 * k + 1],
        m.vertices[4 * k + 2],
        m.vertices[4 * k + 3],
    ] =~= q.v);
    assert forall|j: int| 0 <= j < 6 implies 4 * k <= #[trigger] m.indices[6 * k + j] < 4 * k + 4 by {
        lemma_turns(quads, k, j);
    }
}

/// The `k`-th quad of a mesh is sound, and there are four vertices and six indices for each.
pub open spec fn sound_at(m: MeshView, k: int, o: BlockPos) -> bool {
    &&& 6 * m.vertices.len() == 4 * m.indices.len()
    &&& m.vertices.len() % 4 == 0
    &&& exists|dir: FaceDir| #[trigger] sound_quad(m, k, dir, o)
}

proof fn lemma_mesh_sound(m: MeshView, quads: Seq<FaceQuad>, k: int, o: BlockPos)
    requires
        m == mesh_of(quads),
        4 * quads.len() <= u32::MAX,
        0 <= k,
        4 * k < m.vertices.len(),
        all_are(quads, good_quad(o)),
    ensures
        sound_at(m, k, o),
{
    assert(good_quad(o)(quads[k]));
    let dir = choose|dir: FaceDir| #[trigger] good(quads[k], dir, o);
    lemma_sound(quads, k, dir, o);
}

/// A quad one unit further down.
spec fn lowered_quad(q: FaceQuad) -> FaceQuad {
    FaceQuad {
        v: [lowered(q.v[0]), lowered(q.v[1]), lowered(q.v[2]), lowered(q.v[3])],
        flip: q.flip,
    }
}

proof fn lemma_lowered_good(q: FaceQuad, o: BlockPos)
    requires
        good(q, FaceDir::PosY, o),
        q.v[0].pos[1] > 10 * o.y,
    ensures
        good(lowered_quad(q), FaceDir::PosY, o),
{
    let l = lowered_quad(q);
    assert forall|j: int| 0 <= j < 6 implies {
        let (a, b) = (l.v[#[trigger] corner_order(q.flip, j)].pos, q.v[corner_order(q.flip, j)].pos);
        a[0] == b[0] && a[2] == b[2]
    } by {
        let i = corner_order(q.flip, j);
        assert(i == 0 || i == 1 || i == 2 || i == 3);
    }
    assert(0 <= corner_order(q.flip, 0) < 4);
    assert(0 <= corner_order(q.flip, 1) < 4);
    assert(0 <= corner_order(q.flip, 2) < 4);
    assert(0 <= corner_order(q.flip, 3) < 4);
    assert(0 <= corner_order(q.flip, 4) < 4);
    assert(0 <= corner_order(q.flip, 5) < 4);
}

proof fn lemma_water_mesh(c: ChunkView, n: NeighborMasks)
    requires
        c.wf(),
    ensures
        ({
            let low = water_quads(c, n).map_values(|q: FaceQuad| lowered_quad(q));
            &&& lods_of(c, n).water == mesh_of(low)
            &&& all_are(low, good_quad(c.origin))
            &&& low.len() <= 1024
        }),
{
    let o = c.origin;
    let quads = water_quads(c, n);
    let low = quads.map_values(|q: FaceQuad| lowered_quad(q));
    let mask = water_mask(c, n);
    lemma_water_good(c, n);
    lemma_water_mask(c, n);
    law_merged(mask, 32, 32);
    assert forall|j: int| 0 <= j < low.len() implies good_quad(o)(#[trigger] low[j]) by {
        assert(good_quad(o)(quads[j]));
        let dir = choose|dir: FaceDir| #[trigger] good(quads[j], dir, o);
        lemma_water_top(c, n, j);
        lemma_lowered_good(quads[j], o);
        assert(good(low[j], FaceDir::PosY, o));
    }
    assert(mesh_vertices(quads).map_values(|v: Vertex| lowered(v)) =~= mesh_vertices(low)) by {
        assert forall|i: int| 0 <= i < 4 * quads.len() implies lowered(
            #[trigger] mesh_vertices(quads)[i],
        ) == mesh_vertices(low)[i] by {
            let k = i % 4;
            assert(k == 0 || k == 1 || k == 2 || k == 3);
        }
    }
    assert(mesh_indices(quads) =~= mesh_indices(low));
}

proof fn lemma_water_top(c: ChunkView, n: NeighborMasks, j: int)
    requires
        c.wf(),
        0 <= j < water_quads(c, n).len(),
        good_quad(c.origin)(water_quads(c, n)[j]),
    ensures
        good(water_quads(c, n)[j], FaceDir::PosY, c.origin),
        water_quads(c, n)[j].v[0].pos[1] > 10 * c.origin.y,
{
    let q = water_quads(c, n)[j];
    let mask = water_mask(c, n);
    lemma_water_mask(c, n);
    let r = merged(mask, 32, 32)[j];
    lemma_rect_level(mask, 32, 32, j);
    assert(q == rect_quad(FaceDir::PosY, false, c.origin, r));
    let dir = choose|dir: FaceDir| #[trigger] good(q, dir, c.origin);
    assert(points(q.v[0].normal, dir));
    assert(points(q.v[0].normal, FaceDir::PosY));
    assert(dir == FaceDir::PosY);
}

/// The meshes of a chunk are made of rectangles in the chunk, four vertices and six indices for
/// each. A rectangle faces along an axis, and its two triangles are counter-clockwise as they are
/// seen from there, on either side of the diagonal that has more light at its ends.
pub proof fn law_meshes_sound(c: ChunkView, n: NeighborMasks, lod: int, k: int)
    requires
        c.wf(),
        0 <= lod < 3,
        0 <= k,
        4 * k < lods_of(c, n).level(lod).vertices.len(),
    ensures
        sound_at(lods_of(c, n).level(lod), k, c.origin),
{
    let o = c.origin;
    let m = lods_of(c, n);
    if lod == 0 {
        lemma_full_good(c, n);
        lemma_chunk_count(c, n, 6);
        lemma_mesh_sound(m.full, chunk_quads(c, n), k, o);
    } else if lod == 1 {
        lemma_surface_good(c, n);
        lemma_surface_count(c, n, 4);
        lemma_mesh_sound(m.surface, surface_quads(c, n), k, o);
    } else {
        lemma_water_mesh(c, n);
        lemma_mesh_sound(
            m.water,
            water_quads(c, n).map_values(|q: FaceQuad| lowered_quad(q)),
            k,
            o,
        );
    }
}

} // verus!
