//! Coarse meshes: the surface of a chunk seen from far away, and its water.

use crate::meshing::exposure::{exposed, is_exposed};
use crate::meshing::greedy::{
    lemma_cell_split, lemma_next_cell, lemma_rect_level, levels_ok, mask_quads, push_mask,
    rect_quad,
};
use crate::meshing::merge::{merged, MaskCell};
use crate::meshing::quad::{mesh_indices, mesh_vertices, FaceQuad};
use crate::models::face::FaceDir;
use crate::render::mesh::Vertex;
use crate::world::block::{is_opaque, opaque, BlockId, WATER};
use crate::world::chunk::{Chunk, ChunkView, CHUNK_HEIGHT, CHUNK_SIZE};
use crate::world::coords::BlockPos;
use crate::world::neighbor::{mask_solid, solid_in, NeighborMasks, FACE_BYTES};
use crate::world::terrain::SEA_LEVEL;
use vstd::prelude::*;

verus! {

/// Light of a face that nothing darkens.
pub open spec fn full_light() -> [u8; 4] {
    [3, 3, 3, 3]
}

/// The highest level up to `h` at which a column has an opaque block, or -1.
pub open spec fn top_opaque(c: ChunkView, x: int, z: int, h: int) -> int
    decreases h + 1,
{
    if h < 0 {
        -1
    } else if opaque(c.at(x, h, z)) {
        h
    } else {
        top_opaque(c, x, z, h - 1)
    }
}

/// The level of the surface of a column, or -1 where there is none.
pub open spec fn surface_level(c: ChunkView, x: int, z: int) -> int {
    top_opaque(c, x, z, c.max_height)
}

/// The surface has one face per column, at the level of the column's highest opaque block.
pub open spec fn surface_cell(c: ChunkView, x: int, z: int) -> Option<MaskCell> {
    let h = surface_level(c, x, z);
    if h >= 0 {
        Some(MaskCell { block: c.at(x, h, z), level: h as usize, ao: full_light() })
    } else {
        None
    }
}

pub open spec fn surface_mask(c: ChunkView) -> Seq<Option<MaskCell>> {
    Seq::new(1024, |i: int| surface_cell(c, i / 32, i % 32))
}

/// The highest level up to `h` at which a mask of a neighbouring chunk's face has an opaque
/// block, or -1.
pub open spec fn mask_top(mask: [u8; FACE_BYTES], lateral: int, h: int) -> int
    decreases h + 1,
{
    if h < 0 {
        -1
    } else if solid_in(mask, h, lateral) {
        h
    } else {
        mask_top(mask, lateral, h - 1)
    }
}

/// The column beside the edge of the chunk ends where the neighbour's does. A neighbour that is
/// not known is taken to be as high as this column, so that no wall is drawn towards it.
pub open spec fn border_top(mask: Option<[u8; FACE_BYTES]>, lateral: int, own: int) -> int {
    match mask {
        Some(m) => mask_top(m, lateral, CHUNK_HEIGHT - 1),
        None => own,
    }
}

/// The four directions that have walls.
pub open spec fn wall_dir(k: int) -> FaceDir {
    if k == 0 {
        FaceDir::PosX
    } else if k == 1 {
        FaceDir::NegX
    } else if k == 2 {
        FaceDir::PosZ
    } else {
        FaceDir::NegZ
    }
}

pub open spec fn along_x(dir: FaceDir) -> bool {
    dir == FaceDir::PosX || dir == FaceDir::NegX
}

/// The column at depth `d` along a wall direction and `lat` across it.
pub open spec fn wall_column(dir: FaceDir, d: int, lat: int) -> (int, int) {
    if along_x(dir) {
        (d, lat)
    } else {
        (lat, d)
    }
}

/// The surface level of the column that a wall faces.
pub open spec fn facing_top(
    c: ChunkView,
    n: NeighborMasks,
    dir: FaceDir,
    d: int,
    lat: int,
    own: int,
) -> int {
    let next = if dir == FaceDir::PosX || dir == FaceDir::PosZ {
        d + 1
    } else {
        d - 1
    };
    if 0 <= next < 32 {
        let (x, z) = wall_column(dir, next, lat);
        surface_level(c, x, z)
    } else {
        match dir {
            FaceDir::PosX => border_top(n.pos_x, lat, own),
            FaceDir::NegX => border_top(n.neg_x, lat, own),
            FaceDir::PosZ => border_top(n.pos_z, lat, own),
            _ => border_top(n.neg_z, lat, own),
        }
    }
}

/// A wall shows the opaque blocks of a column that stand above the column it faces.
#[verifier::opaque]
pub open spec fn wall_cell(
    c: ChunkView,
    n: NeighborMasks,
    dir: FaceDir,
    d: int,
    lat: int,
    y: int,
) -> Option<MaskCell> {
    let (x, z) = wall_column(dir, d, lat);
    let own = surface_level(c, x, z);
    let id = c.at(x, y, z);
    if facing_top(c, n, dir, d, lat, own) < y <= own && opaque(id) {
        Some(MaskCell { block: id, level: d as usize, ao: full_light() })
    } else {
        None
    }
}

/// The wall mask at depth `d`: a row for each column across, from the bottom up.
pub open spec fn wall_mask(c: ChunkView, n: NeighborMasks, dir: FaceDir, d: int) -> Seq<
    Option<MaskCell>,
> {
    let row = c.max_height + 1;
    Seq::new((32 * row) as nat, |i: int| wall_cell(c, n, dir, d, i / row, i % row))
}

pub open spec fn wall_quads(c: ChunkView, n: NeighborMasks, dir: FaceDir, d: int) -> Seq<
    FaceQuad,
> {
    mask_quads(
        dir,
        along_x(dir),
        c.origin,
        wall_mask(c, n, dir, d),
        32,
        c.max_height + 1,
    )
}

/// The quads of the first `d` walls of a direction.
pub open spec fn dir_walls_to(c: ChunkView, n: NeighborMasks, dir: FaceDir, d: int) -> Seq<FaceQuad>
    decreases d,
{
    if d <= 0 {
        Seq::empty()
    } else {
        dir_walls_to(c, n, dir, d - 1) + wall_quads(c, n, dir, d - 1)
    }
}

/// The top of the surface and the walls of the first `k` directions.
pub open spec fn surface_quads_to(c: ChunkView, n: NeighborMasks, k: int) -> Seq<FaceQuad>
    decreases k,
{
    if k <= 0 {
        mask_quads(FaceDir::PosY, false, c.origin, surface_mask(c), 32, 32)
    } else {
        surface_quads_to(c, n, k - 1) + dir_walls_to(c, n, wall_dir(k - 1), 32)
    }
}

/// The quads of the surface mesh of a chunk.
pub open spec fn surface_quads(c: ChunkView, n: NeighborMasks) -> Seq<FaceQuad> {
    surface_quads_to(c, n, 4)
}

// ── Water ────────────────────────────────────────────────────────────────────

/// The highest level up to `h` at which a column has water, or -1.
pub open spec fn top_water(c: ChunkView, x: int, z: int, h: int) -> int
    decreases h + 1,
{
    if h < 0 {
        -1
    } else if c.at(x, h, z).0 == WATER {
        h
    } else {
        top_water(c, x, z, h - 1)
    }
}

/// There is water at sea level.
pub open spec fn has_sea(c: ChunkView) -> bool {
    exists|x: int, z: int|
        0 <= x < 32 && 0 <= z < 32 && (#[trigger] c.at(x, SEA_LEVEL as int, z)).0 == WATER
}

/// The highest water of a column, where its top can be seen.
#[verifier::opaque]
pub open spec fn water_cell(c: ChunkView, n: NeighborMasks, x: int, z: int) -> Option<MaskCell> {
    let h = top_water(c, x, z, c.max_height);
    if h >= 0 && exposed(c, n, x, h, z, FaceDir::PosY) {
        Some(MaskCell { block: BlockId(WATER), level: h as usize, ao: full_light() })
    } else {
        None
    }
}

pub open spec fn water_mask(c: ChunkView, n: NeighborMasks) -> Seq<Option<MaskCell>> {
    Seq::new(1024, |i: int| water_cell(c, n, i / 32, i % 32))
}

/// A vertex one unit further down.
pub open spec fn lowered(v: Vertex) -> Vertex {
    Vertex { pos: [v.pos[0], (v.pos[1] - 1) as i64, v.pos[2]], ..v }
}

/// The quads of the water of a chunk, before they are lowered. A chunk without a sea has none.
pub open spec fn water_quads(c: ChunkView, n: NeighborMasks) -> Seq<FaceQuad> {
    if has_sea(c) {
        mask_quads(FaceDir::PosY, false, c.origin, water_mask(c, n), 32, 32)
    } else {
        Seq::empty()
    }
}

// ── Meshers ──────────────────────────────────────────────────────────────────

fn find_surface(chunk: &Chunk, x: usize, z: usize) -> (r: i32)
    requires
        chunk@.wf(),
        x < 32,
        z < 32,
    ensures
        r == surface_level(chunk@, x as int, z as int),
        -1 <= r <= chunk@.max_height,
{
    let mut h: i32 = chunk.max_height() as i32;
    while h >= 0
        invariant
            chunk@.wf(),
            x < 32,
            z < 32,
            -1 <= h <= chunk@.max_height,
            top_opaque(chunk@, x as int, z as int, h as int) == surface_level(
                chunk@,
                x as int,
                z as int,
            ),
        decreases h + 1,
    {
        if is_opaque(chunk.get(x, h as usize, z)) {
            return h;
        }
        h = h - 1;
    }
    -1
}

fn find_water(chunk: &Chunk, x: usize, z: usize) -> (r: i32)
    requires
        chunk@.wf(),
        x < 32,
        z < 32,
    ensures
        r == top_water(chunk@, x as int, z as int, chunk@.max_height),
        -1 <= r <= chunk@.max_height,
{
    let mut h: i32 = chunk.max_height() as i32;
    while h >= 0
        invariant
            chunk@.wf(),
            x < 32,
            z < 32,
            -1 <= h <= chunk@.max_height,
            top_water(chunk@, x as int, z as int, h as int) == top_water(
                chunk@,
                x as int,
                z as int,
                chunk@.max_height,
            ),
        decreases h + 1,
    {
        if chunk.get(x, h as usize, z).0 == WATER {
            return h;
        }
        h = h - 1;
    }
    -1
}

fn find_border(mask: &Option<[u8; FACE_BYTES]>, lateral: usize, own: i32) -> (r: i32)
    requires
        lateral < 32,
        -1 <= own < 256,
    ensures
        r == border_top(*mask, lateral as int, own as int),
        -1 <= r < 256,
{
    match mask {
        Some(m) => {
            let mut h: i32 = CHUNK_HEIGHT as i32 - 1;
            while h >= 0
                invariant
                    -1 <= h < 256,
                    lateral < 32,
                    *mask == Some(*m),
                    mask_top(*m, lateral as int, h as int) == mask_top(*m, lateral as int, 255),
                decreases h + 1,
            {
                if mask_solid(m, h as usize, lateral) {
                    return h;
                }
                h = h - 1;
            }
            -1
        },
        None => own,
    }
}

fn side_level(heights: &Vec<i32>, dir: FaceDir, d: usize, lat: usize, Ghost(c): Ghost<ChunkView>)
    -> (r: i32)
    requires
        heights.len() == 1024,
        d < 32,
        lat < 32,
        forall|x: int, z: int|
            0 <= x < 32 && 0 <= z < 32 ==> #[trigger] surface_level(c, x, z) == heights[x * 32
                + z],
    ensures
        r == surface_level(c, wall_column(dir, d as int, lat as int).0, wall_column(
            dir,
            d as int,
            lat as int,
        ).1),
{
    match dir {
        FaceDir::PosX => heights[d * 32 + lat],
        FaceDir::NegX => heights[d * 32 + lat],
        _ => heights[lat * 32 + d],
    }
}

/// The surface level of the column that a wall faces, as `facing_top` says.
fn find_facing(
    heights: &Vec<i32>,
    neighbors: &NeighborMasks,
    dir: FaceDir,
    d: usize,
    lat: usize,
    own: i32,
    Ghost(c): Ghost<ChunkView>,
) -> (r: i32)
    requires
        heights.len() == 1024,
        d < 32,
        lat < 32,
        -1 <= own < 256,
        dir != FaceDir::PosY,
        dir != FaceDir::NegY,
        forall|x: int, z: int|
            0 <= x < 32 && 0 <= z < 32 ==> #[trigger] surface_level(c, x, z) == heights[x * 32
                + z],
    ensures
        r == facing_top(c, *neighbors, dir, d as int, lat as int, own as int),
{
    let positive = dir == FaceDir::PosX || dir == FaceDir::PosZ;
    if positive && d + 1 < CHUNK_SIZE {
        side_level(heights, dir, d + 1, lat, Ghost(c))
    } else if !positive && d > 0 {
        side_level(heights, dir, d - 1, lat, Ghost(c))
    } else {
        match dir {
            FaceDir::PosX => find_border(&neighbors.pos_x, lat, own),
            FaceDir::NegX => find_border(&neighbors.neg_x, lat, own),
            FaceDir::PosZ => find_border(&neighbors.pos_z, lat, own),
            _ => find_border(&neighbors.neg_z, lat, own),
        }
    }
}

/// The mask of the surface and the level of each column.
fn scan_surface(chunk: &Chunk) -> (r: (Vec<Option<MaskCell>>, Vec<i32>))
    requires
        chunk@.wf(),
    ensures
        r.0@ == surface_mask(chunk@),
        levels_ok(r.0@),
        r.1.len() == 1024,
        forall|x: int, z: int|
            0 <= x < 32 && 0 <= z < 32 ==> #[trigger] surface_level(chunk@, x, z) == r.1[x * 32
                + z],
        forall|i: int| 0 <= i < 1024 ==> -1 <= #[trigger] r.1[i] <= chunk@.max_height,
{
    let ghost c = chunk@;
    let mut mask: Vec<Option<MaskCell>> = Vec::new();
    let mut heights: Vec<i32> = Vec::new();
    let mut i: usize = 0;
    while i < 1024
        invariant
            c == chunk@,
            chunk@.wf(),
            i <= 1024,
            mask.len() == i,
            heights.len() == i,
            levels_ok(mask@),
            forall|j: int|
                0 <= j < i ==> #[trigger] mask[j] == surface_cell(c, j / 32, j % 32),
            forall|j: int|
                0 <= j < i ==> #[trigger] heights[j] == surface_level(c, j / 32, j % 32),
            forall|j: int| 0 <= j < i ==> -1 <= #[trigger] heights[j] <= c.max_height,
        decreases 1024 - i,
    {
        let x: usize = i / 32;
        let z: usize = i % 32;
        let h = find_surface(chunk, x, z);
        if h >= 0 {
            mask.push(
                Some(
                    MaskCell {
                        block: chunk.get(x, h as usize, z),
                        level: h as usize,
                        ao: [3, 3, 3, 3],
                    },
                ),
            );
        } else {
            mask.push(None);
        }
        heights.push(h);
        i = i + 1;
    }
    assert(mask@ =~= surface_mask(c));
    assert forall|x: int, z: int| 0 <= x < 32 && 0 <= z < 32 implies #[trigger] surface_level(
        c,
        x,
        z,
    ) == heights[x * 32 + z] by {
        let j = x * 32 + z;
        assert(j / 32 == x && j % 32 == z);
        assert(heights[j] == surface_level(c, j / 32, j % 32));
    }
    (mask, heights)
}

/// The mask of a wall.
fn scan_wall(
    chunk: &Chunk,
    neighbors: &NeighborMasks,
    heights: &Vec<i32>,
    dir: FaceDir,
    d: usize,
) -> (mask: Vec<Option<MaskCell>>)
    requires
        chunk@.wf(),
        d < 32,
        dir != FaceDir::PosY,
        dir != FaceDir::NegY,
        heights.len() == 1024,
        forall|x: int, z: int|
            0 <= x < 32 && 0 <= z < 32 ==> #[trigger] surface_level(chunk@, x, z) == heights[x
                * 32 + z],
        forall|i: int| 0 <= i < 1024 ==> -1 <= #[trigger] heights[i] <= chunk@.max_height,
    ensures
        mask@ == wall_mask(chunk@, *neighbors, dir, d as int),
        levels_ok(mask@),
{
    let ghost c = chunk@;
    let ghost n = *neighbors;
    let row: usize = chunk.max_height() + 1;
    let mut mask: Vec<Option<MaskCell>> = Vec::new();
    let mut lat: usize = 0;
    while lat < 32
        invariant
            c == chunk@,
            n == *neighbors,
            c.wf(),
            d < 32,
            lat <= 32,
            row == c.max_height + 1,
            dir != FaceDir::PosY,
            dir != FaceDir::NegY,
            heights.len() == 1024,
            forall|x: int, z: int|
                0 <= x < 32 && 0 <= z < 32 ==> #[trigger] surface_level(c, x, z) == heights[x
                    * 32 + z],
            forall|i: int| 0 <= i < 1024 ==> -1 <= #[trigger] heights[i] <= c.max_height,
            mask.len() == lat * row,
            levels_ok(mask@),
            forall|i: int|
                0 <= i < mask.len() ==> #[trigger] mask[i] == wall_cell(
                    c,
                    n,
                    dir,
                    d as int,
                    i / row as int,
                    i % row as int,
                ),
        decreases 32 - lat,
    {
        let ghost col = wall_column(dir, d as int, lat as int);
        let own = side_level(heights, dir, d, lat, Ghost(c));
        assert(surface_level(c, col.0, col.1) == heights[col.0 * 32 + col.1]);
        let facing = find_facing(heights, neighbors, dir, d, lat, own, Ghost(c));
        let (x, z): (usize, usize) = match dir {
            FaceDir::PosX => (d, lat),
            FaceDir::NegX => (d, lat),
            _ => (lat, d),
        };
        let mut y: usize = 0;
        while y < row
            invariant
                c == chunk@,
                n == *neighbors,
                c.wf(),
                d < 32,
                lat < 32,
                x < 32,
                z < 32,
                y <= row,
                row == c.max_height + 1,
                row <= 256,
                (x as int, z as int) == wall_column(dir, d as int, lat as int),
                own == surface_level(c, x as int, z as int),
                facing == facing_top(c, n, dir, d as int, lat as int, own as int),
                mask.len() == lat * row + y,
                levels_ok(mask@),
                forall|i: int|
                    0 <= i < mask.len() ==> #[trigger] mask[i] == wall_cell(
                        c,
                        n,
                        dir,
                        d as int,
                        i / row as int,
                        i % row as int,
                    ),
            decreases row - y,
        {
            proof {
                reveal(wall_cell);
                lemma_next_cell(32, row as int, lat as int, y as int);
                lemma_cell_split(row as int, lat as int, y as int);
            }
            let id = chunk.get(x, y, z);
            let shown = facing < y as i32 && y as i32 <= own && is_opaque(id);
            let cell: Option<MaskCell> = if shown {
                Some(MaskCell { block: id, level: d, ao: [3, 3, 3, 3] })
            } else {
                None
            };
            mask.push(cell);
            y = y + 1;
        }
        proof {
            lemma_next_cell(32, row as int, lat as int, 0);
        }
        lat = lat + 1;
    }
    assert(mask@ =~= wall_mask(c, n, dir, d as int));
    mask
}

fn wall_at(k: usize) -> (r: FaceDir)
    requires
        k < 4,
    ensures
        r == wall_dir(k as int),
{
    if k == 0 {
        FaceDir::PosX
    } else if k == 1 {
        FaceDir::NegX
    } else if k == 2 {
        FaceDir::PosZ
    } else {
        FaceDir::NegZ
    }
}

/// Meshes the surface of a chunk: the top of each column, and the walls between columns of
/// different height.
pub fn mesh_chunk_surface(chunk: &Chunk, neighbors: &NeighborMasks) -> (r: (Vec<Vertex>, Vec<u32>))
    requires
        chunk@.wf(),
    ensures
        r.0@ == mesh_vertices(surface_quads(chunk@, *neighbors)),
        r.1@ == mesh_indices(surface_quads(chunk@, *neighbors)),
        surface_quads(chunk@, *neighbors).len() <= 0x11_0000,
{
    let ghost c = chunk@;
    let ghost n = *neighbors;
    let mut vertices: Vec<Vertex> = Vec::new();
    let mut indices: Vec<u32> = Vec::new();
    assert(vertices@ =~= mesh_vertices(Seq::empty()));
    assert(indices@ =~= mesh_indices(Seq::empty()));
    let origin = chunk.origin();
    let row: usize = chunk.max_height() + 1;
    let (top, heights) = scan_surface(chunk);
    push_mask(
        &mut vertices,
        &mut indices,
        FaceDir::PosY,
        false,
        origin,
        &top,
        32,
        32,
        Ghost(Seq::empty()),
    );
    assert(Seq::<FaceQuad>::empty() + mask_quads(
        FaceDir::PosY,
        false,
        c.origin,
        surface_mask(c),
        32,
        32,
    ) =~= surface_quads_to(c, n, 0));
    let mut k: usize = 0;
    while k < 4
        invariant
            c == chunk@,
            n == *neighbors,
            c.wf(),
            k <= 4,
            origin == c.origin,
            row == c.max_height + 1,
            heights.len() == 1024,
            forall|x: int, z: int|
                0 <= x < 32 && 0 <= z < 32 ==> #[trigger] surface_level(c, x, z) == heights[x
                    * 32 + z],
            forall|i: int| 0 <= i < 1024 ==> -1 <= #[trigger] heights[i] <= c.max_height,
            vertices@ == mesh_vertices(surface_quads_to(c, n, k as int)),
            indices@ == mesh_indices(surface_quads_to(c, n, k as int)),
            surface_quads_to(c, n, k as int).len() <= 1024 + k * 0x4_0000,
        decreases 4 - k,
    {
        let dir = wall_at(k);
        let swap = dir == FaceDir::PosX || dir == FaceDir::NegX;
        let ghost done = surface_quads_to(c, n, k as int);
        let mut d: usize = 0;
        assert(done + dir_walls_to(c, n, dir, 0) =~= done);
        while d < 32
            invariant
                c == chunk@,
                n == *neighbors,
                c.wf(),
                k < 4,
                d <= 32,
                dir == wall_dir(k as int),
                swap == along_x(dir),
                origin == c.origin,
                row == c.max_height + 1,
                heights.len() == 1024,
                forall|x: int, z: int|
                    0 <= x < 32 && 0 <= z < 32 ==> #[trigger] surface_level(c, x, z)
                        == heights[x * 32 + z],
                forall|i: int| 0 <= i < 1024 ==> -1 <= #[trigger] heights[i] <= c.max_height,
                done == surface_quads_to(c, n, k as int),
                done.len() <= 1024 + k * 0x4_0000,
                vertices@ == mesh_vertices(done + dir_walls_to(c, n, dir, d as int)),
                indices@ == mesh_indices(done + dir_walls_to(c, n, dir, d as int)),
                dir_walls_to(c, n, dir, d as int).len() <= d * 8192,
            decreases 32 - d,
        {
            let ghost before = done + dir_walls_to(c, n, dir, d as int);
            let mask = scan_wall(chunk, neighbors, &heights, dir, d);
            push_mask(
                &mut vertices,
                &mut indices,
                dir,
                swap,
                origin,
                &mask,
                32,
                row,
                Ghost(before),
            );
            assert(before + wall_quads(c, n, dir, d as int) =~= done + dir_walls_to(
                c,
                n,
                dir,
                d + 1,
            ));
            d = d + 1;
        }
        k = k + 1;
    }
    (vertices, indices)
}

fn find_sea(chunk: &Chunk) -> (r: bool)
    requires
        chunk@.wf(),
    ensures
        r == has_sea(chunk@),
{
    let mut i: usize = 0;
    while i < 1024
        invariant
            chunk@.wf(),
            i <= 1024,
            forall|x: int, z: int|
                0 <= x < 32 && 0 <= z < 32 && x * 32 + z < i ==> (#[trigger] chunk@.at(
                    x,
                    SEA_LEVEL as int,
                    z,
                )).0 != WATER,
        decreases 1024 - i,
    {
        let x: usize = i / 32;
        let z: usize = i % 32;
        if chunk.get(x, SEA_LEVEL, z).0 == WATER {
            assert(chunk@.at(x as int, SEA_LEVEL as int, z as int).0 == WATER);
            return true;
        }
        i = i + 1;
    }
    false
}

/// The mask of the water.
fn scan_water(chunk: &Chunk, neighbors: &NeighborMasks) -> (mask: Vec<Option<MaskCell>>)
    requires
        chunk@.wf(),
    ensures
        mask@ == water_mask(chunk@, *neighbors),
        levels_ok(mask@),
{
    let ghost c = chunk@;
    let ghost n = *neighbors;
    let mut mask: Vec<Option<MaskCell>> = Vec::new();
    let mut i: usize = 0;
    while i < 1024
        invariant
            c == chunk@,
            n == *neighbors,
            chunk@.wf(),
            i <= 1024,
            mask.len() == i,
            levels_ok(mask@),
            forall|j: int|
                0 <= j < i ==> #[trigger] mask[j] == water_cell(c, n, j / 32, j % 32),
        decreases 1024 - i,
    {
        proof {
            reveal(water_cell);
        }
        let x: usize = i / 32;
        let z: usize = i % 32;
        let h = find_water(chunk, x, z);
        let shown = h >= 0 && is_exposed(chunk, neighbors, x, h as usize, z, FaceDir::PosY);
        let cell: Option<MaskCell> = if shown {
            Some(MaskCell { block: BlockId(WATER), level: h as usize, ao: [3, 3, 3, 3] })
        } else {
            None
        };
        mask.push(cell);
        i = i + 1;
    }
    assert(mask@ =~= water_mask(c, n));
    mask
}

/// Meshes the water of a chunk. Its surface lies one unit below the top of its blocks.
pub fn mesh_chunk_water(chunk: &Chunk, neighbors: &NeighborMasks) -> (r: (Vec<Vertex>, Vec<u32>))
    requires
        chunk@.wf(),
    ensures
        r.0@ == mesh_vertices(water_quads(chunk@, *neighbors)).map_values(|v: Vertex| lowered(v)),
        r.1@ == mesh_indices(water_quads(chunk@, *neighbors)),
        water_quads(chunk@, *neighbors).len() <= 1024,
{
    let ghost c = chunk@;
    let ghost n = *neighbors;
    let ghost quads = water_quads(c, n);
    let mut vertices: Vec<Vertex> = Vec::new();
    let mut indices: Vec<u32> = Vec::new();
    assert(vertices@ =~= mesh_vertices(Seq::empty()));
    assert(indices@ =~= mesh_indices(Seq::empty()));
    if !find_sea(chunk) {
        assert(vertices@ =~= mesh_vertices(quads).map_values(|v: Vertex| lowered(v)));
        return (vertices, indices);
    }
    let mask = scan_water(chunk, neighbors);
    push_mask(
        &mut vertices,
        &mut indices,
        FaceDir::PosY,
        false,
        chunk.origin(),
        &mask,
        32,
        32,
        Ghost(Seq::empty()),
    );
    assert(Seq::<FaceQuad>::empty() + quads =~= quads);
    let mut out: Vec<Vertex> = Vec::new();
    let mut i: usize = 0;
    while i < vertices.len()
        invariant
            i <= vertices.len(),
            out.len() == i,
            vertices@ == mesh_vertices(quads),
            mask.len() == 1024,
            levels_ok(mask@),
            quads == mask_quads(FaceDir::PosY, false, c.origin, mask@, 32, 32),
            forall|j: int| 0 <= j < i ==> #[trigger] out[j] == lowered(vertices@[j]),
        decreases vertices.len() - i,
    {
        let v = vertices[i];
        proof {
            lemma_top_quad_height(c.origin, mask@, i as int);
        }
        out.push(
            Vertex {
                pos: [v.pos[0], v.pos[1] - 1, v.pos[2]],
                normal: v.normal,
                uv: v.uv,
                ao: v.ao,
            },
        );
        i = i + 1;
    }
    assert(out@ =~= mesh_vertices(quads).map_values(|v: Vertex| lowered(v)));
    (out, indices)
}

/// Vertices of quads on top of blocks can be lowered.
proof fn lemma_top_quad_height(origin: BlockPos, mask: Seq<Option<MaskCell>>, i: int)
    requires
        mask.len() == 1024,
        levels_ok(mask),
        0 <= i < mesh_vertices(mask_quads(FaceDir::PosY, false, origin, mask, 32, 32)).len(),
    ensures
        mesh_vertices(mask_quads(FaceDir::PosY, false, origin, mask, 32, 32))[i].pos[1]
            > i64::MIN,
{
    let quads = mask_quads(FaceDir::PosY, false, origin, mask, 32, 32);
    let q = merged(mask, 32, 32)[i / 4];
    lemma_rect_level(mask, 32, 32, i / 4);
    assert(quads[i / 4] == rect_quad(FaceDir::PosY, false, origin, q));
    let k = i % 4;
    assert(k == 0 || k == 1 || k == 2 || k == 3);
}

} // verus!
