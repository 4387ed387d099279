//! Turns the blocks of a chunk into meshes.

use crate::meshing::exposure::{
    dims_of, dir_dims, exposed, face_ao, face_light, in_chunk, is_exposed, to_xyz, xyz_of,
};
use crate::meshing::merge::{
    cell_of, covers, law_merged, merge_cells, merged, quad_ok, CellQuad, MaskCell,
};
use crate::meshing::quad::{
    build_merged_quad, build_model_quad, merged_quad, mesh_indices, mesh_vertices, model_quad,
    push_quad, small, small_geometry, FaceQuad,
};
use crate::models::face::{dir_of, index_of, FaceDir, FaceGeometry};
use crate::render::mesh::Vertex;
use crate::world::block::{get_model, model_of, opaque, BlockId, WATER};
use crate::world::chunk::{Chunk, ChunkView};
use crate::world::coords::BlockPos;
use crate::world::neighbor::NeighborMasks;
use vstd::prelude::*;

verus! {

// ── Rectangles to quads ──────────────────────────────────────────────────────

/// The quad of a rectangle of cells. Rows run along the first axis of the slice, columns along
/// the second, or the other way round if `swap` is set.
pub open spec fn rect_quad(dir: FaceDir, swap: bool, origin: BlockPos, q: CellQuad) -> FaceQuad {
    if swap {
        merged_quad(
            dir,
            q.cell.level as int,
            q.b as int,
            q.a as int,
            q.db as int,
            q.da as int,
            origin,
            q.cell.block,
            q.cell.ao,
        )
    } else {
        merged_quad(
            dir,
            q.cell.level as int,
            q.a as int,
            q.b as int,
            q.da as int,
            q.db as int,
            origin,
            q.cell.block,
            q.cell.ao,
        )
    }
}

/// The quads of the rectangles that a mask is merged into.
pub open spec fn mask_quads(
    dir: FaceDir,
    swap: bool,
    origin: BlockPos,
    mask: Seq<Option<MaskCell>>,
    a_len: int,
    b_len: int,
) -> Seq<FaceQuad> {
    merged(mask, a_len, b_len).map_values(|q: CellQuad| rect_quad(dir, swap, origin, q))
}

/// The faces in a mask lie at depths that a chunk has.
pub open spec fn levels_ok(mask: Seq<Option<MaskCell>>) -> bool {
    forall|i: int|
        0 <= i < mask.len() ==> (#[trigger] mask[i] matches Some(c) ==> c.level <= 256)
}

/// The rectangles of a mask lie within it, at depths that a chunk has.
pub proof fn lemma_rect_level(mask: Seq<Option<MaskCell>>, a_len: int, b_len: int, j: int)
    requires
        0 <= a_len <= 256,
        0 <= b_len <= 256,
        mask.len() == a_len * b_len,
        levels_ok(mask),
        0 <= j < merged(mask, a_len, b_len).len(),
    ensures
        ({
            let q = merged(mask, a_len, b_len)[j];
            q.cell.level <= 256 && q.a + q.da <= a_len && q.b + q.db <= b_len
        }),
{
    law_merged(mask, a_len, b_len);
    let q = merged(mask, a_len, b_len)[j];
    assert(quad_ok(mask, a_len, b_len, q));
    assert(covers(q, q.a as int, q.b as int));
    assert(cell_of(mask, b_len, q.a as int, q.b as int) == Some(q.cell));
    assert(0 <= q.a * b_len + q.b < a_len * b_len) by (nonlinear_arith)
        requires
            q.a < a_len,
            q.b < b_len,
    ;
    assert(mask[q.a * b_len + q.b] matches Some(c) ==> c.level <= 256);
}

/// Merges a mask and adds the quads to a mesh.
pub(crate) fn push_mask(
    vertices: &mut Vec<Vertex>,
    indices: &mut Vec<u32>,
    dir: FaceDir,
    swap: bool,
    origin: BlockPos,
    mask: &Vec<Option<MaskCell>>,
    a_len: usize,
    b_len: usize,
    Ghost(quads): Ghost<Seq<FaceQuad>>,
)
    requires
        mask.len() == a_len * b_len,
        a_len <= 256,
        b_len <= 256,
        levels_ok(mask@),
        old(vertices)@ == mesh_vertices(quads),
        old(indices)@ == mesh_indices(quads),
        4 * (quads.len() + mask.len()) <= u32::MAX,
    ensures
        final(vertices)@ == mesh_vertices(
            quads + mask_quads(dir, swap, origin, mask@, a_len as int, b_len as int),
        ),
        final(indices)@ == mesh_indices(
            quads + mask_quads(dir, swap, origin, mask@, a_len as int, b_len as int),
        ),
        mask_quads(dir, swap, origin, mask@, a_len as int, b_len as int).len() <= mask.len(),
{
    let rects = merge_cells(mask, a_len, b_len);
    let ghost all = mask_quads(dir, swap, origin, mask@, a_len as int, b_len as int);
    proof {
        law_merged(mask@, a_len as int, b_len as int);
        assert(all.len() == rects.len());
        assert(quads + all.take(0) =~= quads);
    }
    let mut j: usize = 0;
    while j < rects.len()
        invariant
            j <= rects.len(),
            rects@ == merged(mask@, a_len as int, b_len as int),
            all == mask_quads(dir, swap, origin, mask@, a_len as int, b_len as int),
            all.len() == rects.len(),
            rects.len() <= mask.len(),
            mask.len() == a_len * b_len,
            a_len <= 256,
            b_len <= 256,
            levels_ok(mask@),
            vertices@ == mesh_vertices(quads + all.take(j as int)),
            indices@ == mesh_indices(quads + all.take(j as int)),
            4 * (quads.len() + mask.len()) <= u32::MAX,
        decreases rects.len() - j,
    {
        let q = &rects[j];
        proof {
            lemma_rect_level(mask@, a_len as int, b_len as int, j as int);
        }
        let f = if swap {
            build_merged_quad(
                dir,
                q.cell.level,
                q.b,
                q.a,
                q.db,
                q.da,
                origin,
                q.cell.block,
                q.cell.ao,
            )
        } else {
            build_merged_quad(
                dir,
                q.cell.level,
                q.a,
                q.b,
                q.da,
                q.db,
                origin,
                q.cell.block,
                q.cell.ao,
            )
        };
        push_quad(vertices, indices, &f, Ghost(quads + all.take(j as int)));
        proof {
            assert((quads + all.take(j as int)).push(f) =~= quads + all.take(j + 1));
        }
        j = j + 1;
    }
    proof {
        assert(all.take(j as int) =~= all);
    }
}

// ── Full mesher ──────────────────────────────────────────────────────────────

/// The face that is drawn for the block at (x, y, z) towards `dir`. Undersides and water are
/// never drawn.
pub open spec fn drawn_face(
    c: ChunkView,
    n: NeighborMasks,
    dir: FaceDir,
    x: int,
    y: int,
    z: int,
) -> Option<FaceGeometry> {
    let id = c.at(x, y, z);
    if dir == FaceDir::NegY || id.0 == WATER {
        None
    } else {
        match model_of(id) {
            Some(m) => if exposed(c, n, x, y, z, dir) {
                m.faces[index_of(dir)]
            } else {
                None
            },
            None => None,
        }
    }
}

/// The mask of a slice holds the drawn faces that cover their cell side, with their light.
#[verifier::opaque]
pub open spec fn slice_cell(
    c: ChunkView,
    n: NeighborMasks,
    dir: FaceDir,
    d: int,
    u: int,
    v: int,
) -> Option<MaskCell> {
    let (x, y, z) = xyz_of(dir, d, u, v);
    match drawn_face(c, n, dir, x, y, z) {
        Some(g) => if g.is_full {
            Some(
                MaskCell {
                    block: c.at(x, y, z),
                    level: d as usize,
                    ao: face_light(c, n, x, y, z, dir),
                },
            )
        } else {
            None
        },
        None => None,
    }
}

/// The other drawn faces become quads of their own.
#[verifier::opaque]
pub open spec fn slice_loose(
    c: ChunkView,
    n: NeighborMasks,
    dir: FaceDir,
    d: int,
    u: int,
    v: int,
) -> Option<FaceQuad> {
    let (x, y, z) = xyz_of(dir, d, u, v);
    match drawn_face(c, n, dir, x, y, z) {
        Some(g) => if !g.is_full {
            Some(model_quad(g, dir, x, y, z, c.origin, c.at(x, y, z)))
        } else {
            None
        },
        None => None,
    }
}

/// The size of a slice along its two axes.
pub open spec fn slice_dims(c: ChunkView, dir: FaceDir) -> (int, int) {
    (dims_of(dir, c.max_height + 1).1, dims_of(dir, c.max_height + 1).2)
}

/// The mask of slice `d`, row by row.
pub open spec fn slice_mask(c: ChunkView, n: NeighborMasks, dir: FaceDir, d: int) -> Seq<
    Option<MaskCell>,
> {
    let (u_len, v_len) = slice_dims(c, dir);
    Seq::new((u_len * v_len) as nat, |i: int| slice_cell(c, n, dir, d, i / v_len, i % v_len))
}

/// The quads that the first `k` cells of slice `d` get of their own.
pub open spec fn slice_loose_to(
    c: ChunkView,
    n: NeighborMasks,
    dir: FaceDir,
    d: int,
    k: int,
) -> Seq<FaceQuad>
    decreases k,
{
    if k <= 0 {
        Seq::empty()
    } else {
        let before = slice_loose_to(c, n, dir, d, k - 1);
        let v_len = slice_dims(c, dir).1;
        match slice_loose(c, n, dir, d, (k - 1) / v_len, (k - 1) % v_len) {
            Some(q) => before.push(q),
            None => before,
        }
    }
}

/// All quads of slice `d`.
pub open spec fn slice_quads(c: ChunkView, n: NeighborMasks, dir: FaceDir, d: int) -> Seq<FaceQuad> {
    let (u_len, v_len) = slice_dims(c, dir);
    slice_loose_to(c, n, dir, d, u_len * v_len) + mask_quads(
        dir,
        false,
        c.origin,
        slice_mask(c, n, dir, d),
        u_len,
        v_len,
    )
}

/// The quads of the first `d` slices of a direction.
pub open spec fn dir_quads_to(c: ChunkView, n: NeighborMasks, dir: FaceDir, d: int) -> Seq<FaceQuad>
    decreases d,
{
    if d <= 0 {
        Seq::empty()
    } else {
        dir_quads_to(c, n, dir, d - 1) + slice_quads(c, n, dir, d - 1)
    }
}

/// The quads of the first `k` directions.
pub open spec fn chunk_quads_to(c: ChunkView, n: NeighborMasks, k: int) -> Seq<FaceQuad>
    decreases k,
{
    if k <= 0 {
        Seq::empty()
    } else {
        let dir = dir_of(k - 1);
        chunk_quads_to(c, n, k - 1) + dir_quads_to(c, n, dir, dims_of(dir, c.max_height + 1).0)
    }
}

/// The quads of the full mesh of a chunk: direction by direction, slice by slice.
pub open spec fn chunk_quads(c: ChunkView, n: NeighborMasks) -> Seq<FaceQuad> {
    chunk_quads_to(c, n, 6)
}

pub proof fn lemma_cell_split(v_len: int, u: int, v: int)
    requires
        0 <= v < v_len,
        0 <= u,
    ensures
        (u * v_len + v) / v_len == u,
        (u * v_len + v) % v_len == v,
{
    assert(u * v_len + v == v_len * u + v) by (nonlinear_arith);
    vstd::arithmetic::div_mod::lemma_fundamental_div_mod_converse(u * v_len + v, v_len, u, v);
}

pub proof fn lemma_next_cell(u_len: int, v_len: int, u: int, v: int)
    requires
        0 <= u < u_len <= 256,
        0 <= v < v_len <= 256,
    ensures
        0 <= u * v_len + v < u_len * v_len <= 65536,
        (u + 1) * v_len == u * v_len + v_len,
{
    assert(0 <= u * v_len + v < u_len * v_len <= 65536 && (u + 1) * v_len == u * v_len + v_len)
        by (nonlinear_arith)
        requires
            0 <= u < u_len <= 256,
            0 <= v < v_len <= 256,
    ;
}

/// The face that is drawn for a block, as `drawn_face` says.
fn find_face(chunk: &Chunk, neighbors: &NeighborMasks, dir: FaceDir, x: usize, y: usize, z: usize)
    -> (r: Option<FaceGeometry>)
    requires
        chunk@.wf(),
        in_chunk(x as int, y as int, z as int),
    ensures
        r == drawn_face(chunk@, *neighbors, dir, x as int, y as int, z as int),
        r matches Some(g) ==> small_geometry(g),
{
    if dir == FaceDir::NegY {
        return None;
    }
    let id = chunk.get(x, y, z);
    if id.0 == WATER {
        return None;
    }
    match get_model(id) {
        Some(model) => {
            if !is_exposed(chunk, neighbors, x, y, z, dir) {
                return None;
            }
            match model.face(dir) {
                Some(g) => {
                    proof {
                        lemma_small_geometry(*g, id, dir);
                    }
                    Some(*g)
                },
                None => None,
            }
        },
        None => None,
    }
}

proof fn lemma_small_geometry(g: FaceGeometry, id: BlockId, dir: FaceDir)
    requires
        model_of(id) is Some,
        model_of(id)->0.faces[index_of(dir)] == Some(g),
    ensures
        small_geometry(g),
{
    assert forall|i: int| 0 <= i < 4 implies small((#[trigger] g.verts[i])[0] as int) && small(
        g.verts[i][1] as int,
    ) && small(g.verts[i][2] as int) by {
        assert(i == 0 || i == 1 || i == 2 || i == 3);
    }
    assert forall|i: int| 0 <= i < 4 implies small((#[trigger] g.uvs[i])[1] as int) by {
        assert(i == 0 || i == 1 || i == 2 || i == 3);
    }
}

/// The mask cell and the loose quad of one cell of a slice.
fn scan_cell(
    chunk: &Chunk,
    neighbors: &NeighborMasks,
    dir: FaceDir,
    d: usize,
    u: usize,
    v: usize,
) -> (r: (Option<MaskCell>, Option<FaceQuad>))
    requires
        chunk@.wf(),
        d < dims_of(dir, chunk@.max_height + 1).0,
        u < slice_dims(chunk@, dir).0,
        v < slice_dims(chunk@, dir).1,
    ensures
        r.0 == slice_cell(chunk@, *neighbors, dir, d as int, u as int, v as int),
        r.1 == slice_loose(chunk@, *neighbors, dir, d as int, u as int, v as int),
        r.0 matches Some(c) ==> c.level <= 256,
{
    proof {
        reveal(slice_cell);
        reveal(slice_loose);
    }
    let (x, y, z) = to_xyz(dir, d, u, v);
    match find_face(chunk, neighbors, dir, x, y, z) {
        Some(face) => {
            let id = chunk.get(x, y, z);
            if face.is_full {
                let ao = face_ao(chunk, neighbors, x, y, z, dir);
                (Some(MaskCell { block: id, level: d, ao }), None)
            } else {
                (None, Some(build_model_quad(&face, dir, x, y, z, chunk.origin(), id)))
            }
        },
        None => (None, None),
    }
}

/// Fills the mask of a slice and adds the quads of the faces that are not merged.
fn scan_slice(
    chunk: &Chunk,
    neighbors: &NeighborMasks,
    dir: FaceDir,
    d: usize,
    u_len: usize,
    v_len: usize,
    vertices: &mut Vec<Vertex>,
    indices: &mut Vec<u32>,
    Ghost(quads): Ghost<Seq<FaceQuad>>,
) -> (mask: Vec<Option<MaskCell>>)
    requires
        chunk@.wf(),
        d < dims_of(dir, chunk@.max_height + 1).0,
        u_len == slice_dims(chunk@, dir).0,
        v_len == slice_dims(chunk@, dir).1,
        old(vertices)@ == mesh_vertices(quads),
        old(indices)@ == mesh_indices(quads),
        4 * (quads.len() + u_len * v_len) <= u32::MAX,
    ensures
        mask@ == slice_mask(chunk@, *neighbors, dir, d as int),
        levels_ok(mask@),
        final(vertices)@ == mesh_vertices(
            quads + slice_loose_to(chunk@, *neighbors, dir, d as int, u_len * v_len),
        ),
        final(indices)@ == mesh_indices(
            quads + slice_loose_to(chunk@, *neighbors, dir, d as int, u_len * v_len),
        ),
        slice_loose_to(chunk@, *neighbors, dir, d as int, u_len * v_len).len() <= u_len * v_len,
{
    let ghost c = chunk@;
    let ghost n = *neighbors;
    let mut mask: Vec<Option<MaskCell>> = Vec::new();
    assert(quads + slice_loose_to(c, n, dir, d as int, 0) =~= quads);
    let mut u: usize = 0;
    while u < u_len
        invariant
            c == chunk@,
            n == *neighbors,
            chunk@.wf(),
            d < dims_of(dir, chunk@.max_height + 1).0,
            u_len == slice_dims(chunk@, dir).0,
            v_len == slice_dims(chunk@, dir).1,
            u <= u_len,
            mask.len() == u * v_len,
            forall|i: int|
                0 <= i < mask.len() ==> #[trigger] mask[i] == slice_cell(
                    c,
                    n,
                    dir,
                    d as int,
                    i / v_len as int,
                    i % v_len as int,
                ),
            levels_ok(mask@),
            vertices@ == mesh_vertices(quads + slice_loose_to(c, n, dir, d as int, u * v_len)),
            indices@ == mesh_indices(quads + slice_loose_to(c, n, dir, d as int, u * v_len)),
            slice_loose_to(c, n, dir, d as int, u * v_len).len() <= u * v_len,
            4 * (quads.len() + u_len * v_len) <= u32::MAX,
        decreases u_len - u,
    {
        let mut v: usize = 0;
        while v < v_len
            invariant
                c == chunk@,
                n == *neighbors,
                chunk@.wf(),
                d < dims_of(dir, chunk@.max_height + 1).0,
                u_len == slice_dims(chunk@, dir).0,
                v_len == slice_dims(chunk@, dir).1,
                u < u_len,
                v <= v_len,
                mask.len() == u * v_len + v,
                forall|i: int|
                    0 <= i < mask.len() ==> #[trigger] mask[i] == slice_cell(
                        c,
                        n,
                        dir,
                        d as int,
                        i / v_len as int,
                        i % v_len as int,
                    ),
                levels_ok(mask@),
                vertices@ == mesh_vertices(
                    quads + slice_loose_to(c, n, dir, d as int, u * v_len + v),
                ),
                indices@ == mesh_indices(
                    quads + slice_loose_to(c, n, dir, d as int, u * v_len + v),
                ),
                slice_loose_to(c, n, dir, d as int, u * v_len + v).len() <= u * v_len + v,
                4 * (quads.len() + u_len * v_len) <= u32::MAX,
            decreases v_len - v,
        {
            let ghost k: int = u * v_len + v;
            proof {
                lemma_next_cell(u_len as int, v_len as int, u as int, v as int);
                lemma_cell_split(v_len as int, u as int, v as int);
            }
            let ghost before = quads + slice_loose_to(c, n, dir, d as int, k);
            let (cell, loose) = scan_cell(chunk, neighbors, dir, d, u, v);
            if let Some(f) = loose {
                push_quad(vertices, indices, &f, Ghost(before));
                assert(before.push(f) =~= quads + slice_loose_to(c, n, dir, d as int, k + 1));
            }
            mask.push(cell);
            v = v + 1;
        }
        proof {
            lemma_next_cell(u_len as int, v_len as int, u as int, 0);
        }
        u = u + 1;
    }
    assert(mask@ =~= slice_mask(c, n, dir, d as int));
    mask
}

/// Meshes a chunk: all faces that can be seen, but undersides and water. Equal faces that lie
/// side by side are merged.
pub fn mesh_chunk(chunk: &Chunk, neighbors: &NeighborMasks) -> (r: (Vec<Vertex>, Vec<u32>))
    requires
        chunk@.wf(),
    ensures
        r.0@ == mesh_vertices(chunk_quads(chunk@, *neighbors)),
        r.1@ == mesh_indices(chunk_quads(chunk@, *neighbors)),
        chunk_quads(chunk@, *neighbors).len() <= 0x30_0000,
{
    let ghost c = chunk@;
    let ghost n = *neighbors;
    let mut vertices: Vec<Vertex> = Vec::new();
    let mut indices: Vec<u32> = Vec::new();
    let mh: usize = chunk.max_height() + 1;
    assert(vertices@ =~= mesh_vertices(Seq::empty()));
    assert(indices@ =~= mesh_indices(Seq::empty()));
    let mut i: usize = 0;
    while i < 6
        invariant
            c == chunk@,
            n == *neighbors,
            chunk@.wf(),
            mh == c.max_height + 1,
            i <= 6,
            vertices@ == mesh_vertices(chunk_quads_to(c, n, i as int)),
            indices@ == mesh_indices(chunk_quads_to(c, n, i as int)),
            chunk_quads_to(c, n, i as int).len() <= i * 0x8_0000,
        decreases 6 - i,
    {
        let dir = FaceDir::at(i);
        let (depth_len, u_len, v_len) = dir_dims(dir, mh);
        let ghost done = chunk_quads_to(c, n, i as int);
        let mut d: usize = 0;
        assert(done + dir_quads_to(c, n, dir, 0) =~= done);
        while d < depth_len
            invariant
                c == chunk@,
                n == *neighbors,
                chunk@.wf(),
                mh == c.max_height + 1,
                i < 6,
                dir == dir_of(i as int),
                depth_len == dims_of(dir, c.max_height + 1).0,
                u_len == slice_dims(c, dir).0,
                v_len == slice_dims(c, dir).1,
                d <= depth_len,
                done == chunk_quads_to(c, n, i as int),
                done.len() <= i * 0x8_0000,
                vertices@ == mesh_vertices(done + dir_quads_to(c, n, dir, d as int)),
                indices@ == mesh_indices(done + dir_quads_to(c, n, dir, d as int)),
                dir_quads_to(c, n, dir, d as int).len() <= 2 * (d * (u_len * v_len)),
            decreases depth_len - d,
        {
            let ghost before = done + dir_quads_to(c, n, dir, d as int);
            proof {
                lemma_area(d as int, dir, mh as int);
            }
            let mask = scan_slice(
                chunk,
                neighbors,
                dir,
                d,
                u_len,
                v_len,
                &mut vertices,
                &mut indices,
                Ghost(before),
            );
            let ghost loose = slice_loose_to(c, n, dir, d as int, u_len * v_len);
            push_mask(
                &mut vertices,
                &mut indices,
                dir,
                false,
                chunk.origin(),
                &mask,
                u_len,
                v_len,
                Ghost(before + loose),
            );
            proof {
                let m = mask_quads(dir, false, c.origin, mask@, u_len as int, v_len as int);
                assert(before + loose + m =~= done + dir_quads_to(c, n, dir, d + 1));
                assert((d + 1) * (u_len * v_len) == d * (u_len * v_len) + u_len * v_len)
                    by (nonlinear_arith);
            }
            d = d + 1;
        }
        proof {
            lemma_area(depth_len - 1, dir, mh as int);
            assert(depth_len * (u_len * v_len) <= 0x4_0000);
            assert(done + dir_quads_to(c, n, dir, depth_len as int) =~= chunk_quads_to(
                c,
                n,
                i + 1,
            ));
        }
        i = i + 1;
    }
    (vertices, indices)
}

proof fn lemma_area(d: int, dir: FaceDir, mh: int)
    requires
        0 <= d < dims_of(dir, mh).0,
        1 <= mh <= 256,
    ensures
        0 <= dims_of(dir, mh).1 * dims_of(dir, mh).2 <= 8192,
        d * (dims_of(dir, mh).1 * dims_of(dir, mh).2) <= 0x4_0000,
        (d + 1) * (dims_of(dir, mh).1 * dims_of(dir, mh).2) <= 0x4_0000,
        d * (dims_of(dir, mh).1 * dims_of(dir, mh).2) >= 0,
{
    let (depth, u, v) = dims_of(dir, mh);
    assert(0 <= u * v <= 8192 && depth * (u * v) <= 0x4_0000) by (nonlinear_arith)
        requires
            (depth == 32 && u == mh && v == 32) || (depth == mh && u == 32 && v == 32) || (depth
                == 32 && u == 32 && v == mh),
            1 <= mh <= 256,
    ;
    assert(0 <= d * (u * v) && (d + 1) * (u * v) <= depth * (u * v)) by (nonlinear_arith)
        requires
            0 <= d < depth,
            0 <= u * v,
    ;
    assert(d * (u * v) <= (d + 1) * (u * v)) by (nonlinear_arith)
        requires
            0 <= u * v,
    ;
}

} // verus!
