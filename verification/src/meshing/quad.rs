//! Quads of a mesh: where their corners are, how they are textured and lit, and in which order
//! their triangles are drawn.

use crate::models::face::{normal_of, FaceDir, FaceGeometry};
use crate::render::mesh::Vertex;
use crate::world::block::{face_tex, tex_layer, BlockId};
use crate::world::coords::BlockPos;
use vstd::prelude::*;

verus! {

/// A quad with its four corners in drawing order.
#[derive(Clone, Copy, Debug)]
pub struct FaceQuad {
    pub v: [Vertex; 4],
    /// The quad is split along the diagonal from corner 1 to corner 3, not from 0 to 2.
    pub flip: bool,
}

/// Which corner the k-th index of a quad's two triangles refers to.
pub open spec fn corner_order(flip: bool, k: int) -> int {
    if flip {
        if k == 0 {
            0
        } else if k == 1 || k == 3 {
            1
        } else if k == 4 {
            2
        } else {
            3
        }
    } else {
        if k == 0 || k == 3 {
            0
        } else if k == 1 {
            1
        } else if k == 2 || k == 4 {
            2
        } else {
            3
        }
    }
}

/// The vertices of a mesh: four for each quad.
pub open spec fn mesh_vertices(quads: Seq<FaceQuad>) -> Seq<Vertex> {
    Seq::new(4 * quads.len(), |k: int| quads[k / 4].v[k % 4])
}

/// The indices of a mesh: two triangles for each quad.
pub open spec fn mesh_indices(quads: Seq<FaceQuad>) -> Seq<u32> {
    Seq::new(
        6 * quads.len(),
        |k: int| (4 * (k / 6) + corner_order(quads[k / 6].flip, k % 6)) as u32,
    )
}

/// A point given in whole blocks.
pub open spec fn block_point(x: int, y: int, z: int) -> [i64; 3] {
    [(10 * x) as i64, (10 * y) as i64, (10 * z) as i64]
}

/// The corners of a merged rectangle that lies at depth `d` and covers `du` by `dv` cells from
/// (u, v) on, counted from a chunk corner at (ox, oy, oz).
pub open spec fn quad_corners(
    dir: FaceDir,
    d: int,
    u: int,
    v: int,
    du: int,
    dv: int,
    ox: int,
    oy: int,
    oz: int,
) -> [[i64; 3]; 4] {
    match dir {
        FaceDir::PosX => [
            block_point(d + 1 + ox, u + oy, v + dv + oz),
            block_point(d + 1 + ox, u + oy, v + oz),
            block_point(d + 1 + ox, u + du + oy, v + oz),
            block_point(d + 1 + ox, u + du + oy, v + dv + oz),
        ],
        FaceDir::NegX => [
            block_point(d + ox, u + oy, v + oz),
            block_point(d + ox, u + oy, v + dv + oz),
            block_point(d + ox, u + du + oy, v + dv + oz),
            block_point(d + ox, u + du + oy, v + oz),
        ],
        FaceDir::PosY => [
            block_point(u + du + ox, d + 1 + oy, v + oz),
            block_point(u + ox, d + 1 + oy, v + oz),
            block_point(u + ox, d + 1 + oy, v + dv + oz),
            block_point(u + du + ox, d + 1 + oy, v + dv + oz),
        ],
        FaceDir::NegY => [
            block_point(u + du + ox, d + oy, v + dv + oz),
            block_point(u + ox, d + oy, v + dv + oz),
            block_point(u + ox, d + oy, v + oz),
            block_point(u + du + ox, d + oy, v + oz),
        ],
        FaceDir::PosZ => [
            block_point(u + ox, v + oy, d + 1 + oz),
            block_point(u + du + ox, v + oy, d + 1 + oz),
            block_point(u + du + ox, v + dv + oy, d + 1 + oz),
            block_point(u + ox, v + dv + oy, d + 1 + oz),
        ],
        FaceDir::NegZ => [
            block_point(u + du + ox, v + oy, d + oz),
            block_point(u + ox, v + oy, d + oz),
            block_point(u + ox, v + dv + oy, d + oz),
            block_point(u + du + ox, v + dv + oy, d + oz),
        ],
    }
}

/// Light at the corners comes in the order u-end/v-start, u-start/v-start, u-start/v-end,
/// u-end/v-end; this puts it into the order in which the corners are drawn.
pub open spec fn corner_light(dir: FaceDir, ao: [u8; 4]) -> [u8; 4] {
    match dir {
        FaceDir::PosX => [ao[2], ao[1], ao[0], ao[3]],
        FaceDir::NegX => [ao[1], ao[2], ao[3], ao[0]],
        FaceDir::PosY => [ao[0], ao[1], ao[2], ao[3]],
        FaceDir::NegY => [ao[3], ao[2], ao[1], ao[0]],
        FaceDir::PosZ => [ao[1], ao[0], ao[3], ao[2]],
        FaceDir::NegZ => [ao[0], ao[1], ao[2], ao[3]],
    }
}

/// A texture coordinate given in tiles, on a layer of the texture array.
pub open spec fn tile_uv(s: int, t: int, layer: u32) -> [i64; 2] {
    [(10 * s) as i64, (10 * t + 2560 * layer) as i64]
}

/// Texture coordinates of the corners of a face that shows `s` by `t` tiles.
pub open spec fn corner_uvs(dir: FaceDir, s: int, t: int, layer: u32) -> [[i64; 2]; 4] {
    match dir {
        FaceDir::PosX | FaceDir::PosY | FaceDir::NegZ => [
            tile_uv(s, 0, layer),
            tile_uv(0, 0, layer),
            tile_uv(0, t, layer),
            tile_uv(s, t, layer),
        ],
        FaceDir::NegX | FaceDir::PosZ => [
            tile_uv(0, 0, layer),
            tile_uv(s, 0, layer),
            tile_uv(s, t, layer),
            tile_uv(0, t, layer),
        ],
        FaceDir::NegY => [
            tile_uv(s, t, layer),
            tile_uv(0, t, layer),
            tile_uv(0, 0, layer),
            tile_uv(s, 0, layer),
        ],
    }
}

/// The tiles that a rectangle of `du` by `dv` cells shows along its two texture axes.
pub open spec fn tiles_of(dir: FaceDir, du: int, dv: int) -> (int, int) {
    match dir {
        FaceDir::PosX | FaceDir::NegX => (dv, du),
        _ => (du, dv),
    }
}

/// The quad of a merged rectangle.
pub open spec fn merged_quad(
    dir: FaceDir,
    d: int,
    u: int,
    v: int,
    du: int,
    dv: int,
    origin: BlockPos,
    block: BlockId,
    ao: [u8; 4],
) -> FaceQuad {
    let p = quad_corners(
        dir,
        d,
        u,
        v,
        du,
        dv,
        origin.x as int,
        origin.y as int,
        origin.z as int,
    );
    let n = normal_of(dir);
    let (s, t) = tiles_of(dir, du, dv);
    let w = corner_uvs(dir, s, t, tex_layer(block, dir));
    let l = corner_light(dir, ao);
    FaceQuad {
        v: [
            Vertex { pos: p[0], normal: n, uv: w[0], ao: l[0] },
            Vertex { pos: p[1], normal: n, uv: w[1], ao: l[1] },
            Vertex { pos: p[2], normal: n, uv: w[2], ao: l[2] },
            Vertex { pos: p[3], normal: n, uv: w[3], ao: l[3] },
        ],
        flip: l[0] + l[2] < l[1] + l[3],
    }
}

/// A corner of a block model, moved to the block at (x, y, z).
pub open spec fn moved_point(p: [i64; 3], x: int, y: int, z: int) -> [i64; 3] {
    [(p[0] + 10 * x) as i64, (p[1] + 10 * y) as i64, (p[2] + 10 * z) as i64]
}

/// A model corner of the quad below.
pub open spec fn model_vertex(
    face: FaceGeometry,
    i: int,
    dir: FaceDir,
    x: int,
    y: int,
    z: int,
    origin: BlockPos,
    block: BlockId,
) -> Vertex {
    Vertex {
        pos: moved_point(face.verts[i], origin.x + x, origin.y + y, origin.z + z),
        normal: normal_of(dir),
        uv: [face.uvs[i][0], (face.uvs[i][1] + 2560 * tex_layer(block, dir)) as i64],
        ao: 3,
    }
}

/// The quad of a face that is not merged, drawn as the block model has it.
pub open spec fn model_quad(
    face: FaceGeometry,
    dir: FaceDir,
    x: int,
    y: int,
    z: int,
    origin: BlockPos,
    block: BlockId,
) -> FaceQuad {
    FaceQuad {
        v: [
            model_vertex(face, 0, dir, x, y, z, origin, block),
            model_vertex(face, 1, dir, x, y, z, origin, block),
            model_vertex(face, 2, dir, x, y, z, origin, block),
            model_vertex(face, 3, dir, x, y, z, origin, block),
        ],
        flip: false,
    }
}

/// A number of blocks that is small enough to compute with.
pub open spec fn small(n: int) -> bool {
    -0x1_0000_0000 <= n <= 0x1_0000_0000
}

/// A model whose coordinates are small enough to compute with.
pub open spec fn small_geometry(face: FaceGeometry) -> bool {
    &&& forall|i: int|
        0 <= i < 4 ==> small((#[trigger] face.verts[i])[0] as int) && small(
            face.verts[i][1] as int,
        ) && small(face.verts[i][2] as int)
    &&& forall|i: int| 0 <= i < 4 ==> small((#[trigger] face.uvs[i])[1] as int)
}

fn point(x: i64, y: i64, z: i64) -> (r: [i64; 3])
    requires
        -0x100_0000_0000 <= x <= 0x100_0000_0000,
        -0x100_0000_0000 <= y <= 0x100_0000_0000,
        -0x100_0000_0000 <= z <= 0x100_0000_0000,
    ensures
        r == block_point(x as int, y as int, z as int),
{
    [10 * x, 10 * y, 10 * z]
}

fn corners(
    dir: FaceDir,
    d: i64,
    u: i64,
    v: i64,
    du: i64,
    dv: i64,
    ox: i64,
    oy: i64,
    oz: i64,
) -> (r: [[i64; 3]; 4])
    requires
        small(d as int),
        small(u as int),
        small(v as int),
        small(du as int),
        small(dv as int),
        small(ox as int),
        small(oy as int),
        small(oz as int),
    ensures
        r == quad_corners(
            dir,
            d as int,
            u as int,
            v as int,
            du as int,
            dv as int,
            ox as int,
            oy as int,
            oz as int,
        ),
{
    match dir {
        FaceDir::PosX => [
            point(d + 1 + ox, u + oy, v + dv + oz),
            point(d + 1 + ox, u + oy, v + oz),
            point(d + 1 + ox, u + du + oy, v + oz),
            point(d + 1 + ox, u + du + oy, v + dv + oz),
        ],
        FaceDir::NegX => [
            point(d + ox, u + oy, v + oz),
            point(d + ox, u + oy, v + dv + oz),
            point(d + ox, u + du + oy, v + dv + oz),
            point(d + ox, u + du + oy, v + oz),
        ],
        FaceDir::PosY => [
            point(u + du + ox, d + 1 + oy, v + oz),
            point(u + ox, d + 1 + oy, v + oz),
            point(u + ox, d + 1 + oy, v + dv + oz),
            point(u + du + ox, d + 1 + oy, v + dv + oz),
        ],
        FaceDir::NegY => [
            point(u + du + ox, d + oy, v + dv + oz),
            point(u + ox, d + oy, v + dv + oz),
            point(u + ox, d + oy, v + oz),
            point(u + du + ox, d + oy, v + oz),
        ],
        FaceDir::PosZ => [
            point(u + ox, v + oy, d + 1 + oz),
            point(u + du + ox, v + oy, d + 1 + oz),
            point(u + du + ox, v + dv + oy, d + 1 + oz),
            point(u + ox, v + dv + oy, d + 1 + oz),
        ],
        FaceDir::NegZ => [
            point(u + du + ox, v + oy, d + oz),
            point(u + ox, v + oy, d + oz),
            point(u + ox, v + dv + oy, d + oz),
            point(u + du + ox, v + dv + oy, d + oz),
        ],
    }
}

fn light(dir: FaceDir, ao: [u8; 4]) -> (r: [u8; 4])
    ensures
        r == corner_light(dir, ao),
{
    match dir {
        FaceDir::PosX => [ao[2], ao[1], ao[0], ao[3]],
        FaceDir::NegX => [ao[1], ao[2], ao[3], ao[0]],
        FaceDir::PosY => [ao[0], ao[1], ao[2], ao[3]],
        FaceDir::NegY => [ao[3], ao[2], ao[1], ao[0]],
        FaceDir::PosZ => [ao[1], ao[0], ao[3], ao[2]],
        FaceDir::NegZ => [ao[0], ao[1], ao[2], ao[3]],
    }
}

fn tile(s: i64, t: i64, layer: u32) -> (r: [i64; 2])
    requires
        small(s as int),
        small(t as int),
    ensures
        r == tile_uv(s as int, t as int, layer),
{
    [10 * s, 10 * t + 2560 * (layer as i64)]
}

fn quad_uvs(dir: FaceDir, s: i64, t: i64, layer: u32) -> (r: [[i64; 2]; 4])
    requires
        small(s as int),
        small(t as int),
    ensures
        r == corner_uvs(dir, s as int, t as int, layer),
{
    match dir {
        FaceDir::PosX | FaceDir::PosY | FaceDir::NegZ => [
            tile(s, 0, layer),
            tile(0, 0, layer),
            tile(0, t, layer),
            tile(s, t, layer),
        ],
        FaceDir::NegX | FaceDir::PosZ => [
            tile(0, 0, layer),
            tile(s, 0, layer),
            tile(s, t, layer),
            tile(0, t, layer),
        ],
        FaceDir::NegY => [
            tile(s, t, layer),
            tile(0, t, layer),
            tile(0, 0, layer),
            tile(s, 0, layer),
        ],
    }
}

/// Builds the quad of a merged rectangle. `ao` is the light at its corners in the order
/// u-end/v-start, u-start/v-start, u-start/v-end, u-end/v-end.
pub fn build_merged_quad(
    dir: FaceDir,
    d: usize,
    u: usize,
    v: usize,
    du: usize,
    dv: usize,
    origin: BlockPos,
    block: BlockId,
    ao: [u8; 4],
) -> (r: FaceQuad)
    requires
        small(d as int),
        small(u as int),
        small(v as int),
        small(du as int),
        small(dv as int),
    ensures
        r == merged_quad(
            dir,
            d as int,
            u as int,
            v as int,
            du as int,
            dv as int,
            origin,
            block,
            ao,
        ),
{
    let p = corners(
        dir,
        d as i64,
        u as i64,
        v as i64,
        du as i64,
        dv as i64,
        origin.x as i64,
        origin.y as i64,
        origin.z as i64,
    );
    let n = dir.normal();
    let (s, t): (i64, i64) = match dir {
        FaceDir::PosX | FaceDir::NegX => (dv as i64, du as i64),
        _ => (du as i64, dv as i64),
    };
    let w = quad_uvs(dir, s, t, face_tex(block, dir));
    let l = light(dir, ao);
    FaceQuad {
        v: [
            Vertex { pos: p[0], normal: n, uv: w[0], ao: l[0] },
            Vertex { pos: p[1], normal: n, uv: w[1], ao: l[1] },
            Vertex { pos: p[2], normal: n, uv: w[2], ao: l[2] },
            Vertex { pos: p[3], normal: n, uv: w[3], ao: l[3] },
        ],
        flip: (l[0] as u32) + (l[2] as u32) < (l[1] as u32) + (l[3] as u32),
    }
}

fn build_model_vertex(
    face: &FaceGeometry,
    i: usize,
    dir: FaceDir,
    x: usize,
    y: usize,
    z: usize,
    origin: BlockPos,
    block: BlockId,
) -> (r: Vertex)
    requires
        i < 4,
        small(x as int),
        small(y as int),
        small(z as int),
        small_geometry(*face),
    ensures
        r == model_vertex(
            *face,
            i as int,
            dir,
            x as int,
            y as int,
            z as int,
            origin,
            block,
        ),
{
    assert(small(face.verts[i as int][0] as int));
    assert(small(face.uvs[i as int][1] as int));
    Vertex {
        pos: [
            face.verts[i][0] + 10 * (origin.x as i64 + x as i64),
            face.verts[i][1] + 10 * (origin.y as i64 + y as i64),
            face.verts[i][2] + 10 * (origin.z as i64 + z as i64),
        ],
        normal: dir.normal(),
        uv: [face.uvs[i][0], face.uvs[i][1] + 2560 * (face_tex(block, dir) as i64)],
        ao: 3,
    }
}

/// Builds the quad of a face that is drawn as the block model has it.
pub fn build_model_quad(
    face: &FaceGeometry,
    dir: FaceDir,
    x: usize,
    y: usize,
    z: usize,
    origin: BlockPos,
    block: BlockId,
) -> (r: FaceQuad)
    requires
        small(x as int),
        small(y as int),
        small(z as int),
        small_geometry(*face),
    ensures
        r == model_quad(*face, dir, x as int, y as int, z as int, origin, block),
{
    FaceQuad {
        v: [
            build_model_vertex(face, 0, dir, x, y, z, origin, block),
            build_model_vertex(face, 1, dir, x, y, z, origin, block),
            build_model_vertex(face, 2, dir, x, y, z, origin, block),
            build_model_vertex(face, 3, dir, x, y, z, origin, block),
        ],
        flip: false,
    }
}

/// Adds a quad to a mesh.
pub(crate) fn push_quad(
    vertices: &mut Vec<Vertex>,
    indices: &mut Vec<u32>,
    q: &FaceQuad,
    Ghost(quads): Ghost<Seq<FaceQuad>>,
)
    requires
        old(vertices)@ == mesh_vertices(quads),
        old(indices)@ == mesh_indices(quads),
        4 * quads.len() + 4 <= u32::MAX,
    ensures
        final(vertices)@ == mesh_vertices(quads.push(*q)),
        final(indices)@ == mesh_indices(quads.push(*q)),
{
    let base: u32 = vertices.len() as u32;
    vertices.push(q.v[0]);
    vertices.push(q.v[1]);
    vertices.push(q.v[2]);
    vertices.push(q.v[3]);
    indices.push(base);
    indices.push(base + 1);
    if q.flip {
        indices.push(base + 3);
        indices.push(base + 1);
        indices.push(base + 2);
        indices.push(base + 3);
    } else {
        indices.push(base + 2);
        indices.push(base);
        indices.push(base + 2);
        indices.push(base + 3);
    }
    proof {
        assert(vertices@ =~= mesh_vertices(quads.push(*q)));
        assert(indices@ =~= mesh_indices(quads.push(*q)));
    }
}

/// Every index of a mesh refers to one of its vertices.
pub proof fn law_indices_in_range(quads: Seq<FaceQuad>, k: int)
    requires
        4 * quads.len() <= u32::MAX,
        0 <= k < mesh_indices(quads).len(),
    ensures
        mesh_indices(quads)[k] < mesh_vertices(quads).len(),
{
}

// ── Which way quads face ─────────────────────────────────────────────────────

/// Twice the area of a triangle as it is seen from where a direction points to: positive if its
/// corners turn counter-clockwise.
pub open spec fn seen_area(dir: FaceDir, a: [i64; 3], b: [i64; 3], c: [i64; 3]) -> int {
    let (ux, uy, uz) = (b[0] - a[0], b[1] - a[1], b[2] - a[2]);
    let (vx, vy, vz) = (c[0] - a[0], c[1] - a[1], c[2] - a[2]);
    match dir {
        FaceDir::PosX => uy * vz - uz * vy,
        FaceDir::NegX => uz * vy - uy * vz,
        FaceDir::PosY => uz * vx - ux * vz,
        FaceDir::NegY => ux * vz - uz * vx,
        FaceDir::PosZ => ux * vy - uy * vx,
        FaceDir::NegZ => uy * vx - ux * vy,
    }
}

/// Both triangles of a quad turn counter-clockwise when they are seen from outside.
pub open spec fn turns_outward(dir: FaceDir, p: [[i64; 3]; 4], flip: bool) -> bool {
    &&& seen_area(
        dir,
        p[corner_order(flip, 0)],
        p[corner_order(flip, 1)],
        p[corner_order(flip, 2)],
    ) > 0
    &&& seen_area(
        dir,
        p[corner_order(flip, 3)],
        p[corner_order(flip, 4)],
        p[corner_order(flip, 5)],
    ) > 0
}

/// The four triangles of a parallelogram with the edges (e, f) and (g, h) have the same area.
proof fn lemma_triangles(e: int, f: int, g: int, h: int)
    ensures
        e * (f + h) - f * (e + g) == e * h - f * g,
        (e + g) * h - (f + h) * g == e * h - f * g,
        g * (h - f) - h * (g - e) == e * h - f * g,
{
    assert(e * (f + h) - f * (e + g) == e * h - f * g) by (nonlinear_arith);
    assert((e + g) * h - (f + h) * g == e * h - f * g) by (nonlinear_arith);
    assert(g * (h - f) - h * (g - e) == e * h - f * g) by (nonlinear_arith);
}

/// Two edges with the coordinates (e, f) and (g, h) lie along different axes, and the way from
/// the first to the second is counter-clockwise.
pub open spec fn right_angle(e: int, f: int, g: int, h: int) -> bool {
    ||| f == 0 && g == 0 && (e > 0 && h > 0 || e < 0 && h < 0)
    ||| e == 0 && h == 0 && (f > 0 && g < 0 || f < 0 && g > 0)
}

/// The edges from the first corner of a quad to its neighbours, as they are seen from where a
/// direction points to.
pub open spec fn first_angle(dir: FaceDir, p: [[i64; 3]; 4]) -> bool {
    let (ux, uy, uz) = (p[1][0] - p[0][0], p[1][1] - p[0][1], p[1][2] - p[0][2]);
    let (vx, vy, vz) = (p[3][0] - p[0][0], p[3][1] - p[0][1], p[3][2] - p[0][2]);
    match dir {
        FaceDir::PosX => right_angle(uy, uz, vy, vz),
        FaceDir::NegX => right_angle(uz, uy, vz, vy),
        FaceDir::PosY => right_angle(uz, ux, vz, vx),
        FaceDir::NegY => right_angle(ux, uz, vx, vz),
        FaceDir::PosZ => right_angle(ux, uy, vx, vy),
        FaceDir::NegZ => right_angle(uy, ux, vy, vx),
    }
}

/// A rectangle turns outward if its first corner does.
pub proof fn lemma_turns_outward(dir: FaceDir, p: [[i64; 3]; 4], flip: bool)
    requires
        forall|k: int| 0 <= k < 3 ==> #[trigger] p[2][k] - p[1][k] == p[3][k] - p[0][k],
        first_angle(dir, p),
    ensures
        turns_outward(dir, p, flip),
{
    let (ux, uy, uz) = (p[1][0] - p[0][0], p[1][1] - p[0][1], p[1][2] - p[0][2]);
    let (vx, vy, vz) = (p[3][0] - p[0][0], p[3][1] - p[0][1], p[3][2] - p[0][2]);
    match dir {
        FaceDir::PosX => lemma_area(uy, uz, vy, vz),
        FaceDir::NegX => lemma_area(uz, uy, vz, vy),
        FaceDir::PosY => lemma_area(uz, ux, vz, vx),
        FaceDir::NegY => lemma_area(ux, uz, vx, vz),
        FaceDir::PosZ => lemma_area(ux, uy, vx, vy),
        FaceDir::NegZ => lemma_area(uy, ux, vy, vx),
    }
    assert(seen_area(dir, p[0], p[1], p[3]) > 0);
    let e = [p[1][0] - p[0][0], p[1][1] - p[0][1], p[1][2] - p[0][2]];
    let f = [p[3][0] - p[0][0], p[3][1] - p[0][1], p[3][2] - p[0][2]];
    assert(p[2][0] - p[1][0] == p[3][0] - p[0][0]);
    assert(p[2][1] - p[1][1] == p[3][1] - p[0][1]);
    assert(p[2][2] - p[1][2] == p[3][2] - p[0][2]);
    lemma_triangles(e[1], e[2], f[1], f[2]);
    lemma_triangles(e[2], e[0], f[2], f[0]);
    lemma_triangles(e[0], e[1], f[0], f[1]);
}

/// Merged quads turn outward: seen from where their normal points to, the corners of both of
/// their triangles come counter-clockwise.
pub proof fn law_merged_outward(
    dir: FaceDir,
    d: int,
    u: int,
    v: int,
    du: int,
    dv: int,
    origin: BlockPos,
    flip: bool,
)
    requires
        0 <= d <= 256,
        0 <= u <= 256,
        0 <= v <= 256,
        0 < du <= 256,
        0 < dv <= 256,
    ensures
        turns_outward(
            dir,
            quad_corners(
                dir,
                d,
                u,
                v,
                du,
                dv,
                origin.x as int,
                origin.y as int,
                origin.z as int,
            ),
            flip,
        ),
{
    let p = quad_corners(
        dir,
        d,
        u,
        v,
        du,
        dv,
        origin.x as int,
        origin.y as int,
        origin.z as int,
    );
    assert forall|k: int| 0 <= k < 3 implies #[trigger] p[2][k] - p[1][k] == p[3][k] - p[0][k] by {
        assert(k == 0 || k == 1 || k == 2);
    }
    lemma_turns_outward(dir, p, flip);
}

/// Two edges along different axes span an area.
proof fn lemma_area(e: int, f: int, g: int, h: int)
    requires
        right_angle(e, f, g, h),
    ensures
        e * h - f * g > 0,
{
    assert(e * h - f * g > 0) by (nonlinear_arith)
        requires
            right_angle(e, f, g, h),
    ;
}

// ── Light at the corners ─────────────────────────────────────────────────────

/// A point of the plane of a face, at depth `d` and at (u, v) along the axes of the slice.
pub open spec fn slice_point(dir: FaceDir, d: int, u: int, v: int, o: BlockPos) -> [i64; 3] {
    match dir {
        FaceDir::PosX => block_point(d + 1 + o.x, u + o.y, v + o.z),
        FaceDir::NegX => block_point(d + o.x, u + o.y, v + o.z),
        FaceDir::PosY => block_point(u + o.x, d + 1 + o.y, v + o.z),
        FaceDir::NegY => block_point(u + o.x, d + o.y, v + o.z),
        FaceDir::PosZ => block_point(u + o.x, v + o.y, d + 1 + o.z),
        FaceDir::NegZ => block_point(u + o.x, v + o.y, d + o.z),
    }
}

/// Each corner of a merged quad gets the light that was found for it: the corner drawn at place
/// `i` lies at that end of both axes for which its light was computed.
pub proof fn law_light_at_corners(
    dir: FaceDir,
    d: int,
    u: int,
    v: int,
    du: int,
    dv: int,
    origin: BlockPos,
    block: BlockId,
    ao: [u8; 4],
    i: int,
)
    requires
        0 <= i < 4,
    ensures
        exists|k: int|
            {
                &&& 0 <= k < 4
                &&& merged_quad(dir, d, u, v, du, dv, origin, block, ao).v[i].ao
                    == #[trigger] ao[k]
                &&& merged_quad(dir, d, u, v, du, dv, origin, block, ao).v[i].pos == slice_point(
                    dir,
                    d,
                    if k == 0 || k == 3 {
                        u + du
                    } else {
                        u
                    },
                    if k <= 1 {
                        v
                    } else {
                        v + dv
                    },
                    origin,
                )
            },
{
    let k: int = match dir {
        FaceDir::PosX => if i == 0 {
            2
        } else if i == 1 {
            1
        } else if i == 2 {
            0
        } else {
            3
        },
        FaceDir::NegX => if i == 3 {
            0
        } else {
            i + 1
        },
        FaceDir::PosY | FaceDir::NegZ => i,
        FaceDir::NegY => 3 - i,
        FaceDir::PosZ => if i == 0 {
            1
        } else if i == 1 {
            0
        } else if i == 2 {
            3
        } else {
            2
        },
    };
    assert(i == 0 || i == 1 || i == 2 || i == 3);
    assert(merged_quad(dir, d, u, v, du, dv, origin, block, ao).v[i].ao == ao[k]);
}

} // verus!
