use yave::meshing::exposure::{ao_offsets, dir_dims, face_ao, is_exposed, to_xyz};
use yave::meshing::greedy::mesh_chunk;
use yave::meshing::lods::{mesh_model, LodMeshes};
use yave::meshing::merge::{merge_cells, MaskCell};
use yave::meshing::surface::{mesh_chunk_surface, mesh_chunk_water};
use yave::models::builtin::{cube, slab};
use yave::models::face::FaceDir;
use yave::render::mesh::Vertex;
use yave::world::block::{BlockId, BRICK_SLAB, DIRT, STONE, WATER};
use yave::world::chunk::Chunk;
use yave::world::coords::BlockPos;
use yave::world::neighbor::{ChunkFaceData, NeighborMasks, FACE_BYTES};

fn empty_chunk() -> Chunk {
    Chunk::new(BlockPos { x: 0, y: 0, z: 0 })
}

fn alone() -> NeighborMasks {
    NeighborMasks { pos_x: None, neg_x: None, pos_z: None, neg_z: None }
}

fn open() -> NeighborMasks {
    let none = Some([0u8; FACE_BYTES]);
    NeighborMasks { pos_x: none, neg_x: none, pos_z: none, neg_z: none }
}

fn among(c: &Chunk) -> NeighborMasks {
    let f = ChunkFaceData::extract(c);
    NeighborMasks {
        pos_x: Some(f.neg_x),
        neg_x: Some(f.pos_x),
        pos_z: Some(f.neg_z),
        neg_z: Some(f.pos_z),
    }
}

fn floor_of(id: u16) -> Chunk {
    let mut c = empty_chunk();
    for x in 0..32 {
        for z in 0..32 {
            c.set(x, 0, z, BlockId(id));
        }
    }
    c
}

fn with_normal(v: &Vec<Vertex>, n: [i32; 3]) -> usize {
    v.iter().filter(|v| v.normal == n).count()
}

#[test]
fn nothing_to_mesh() {
    let c = empty_chunk();
    assert_eq!(mesh_chunk(&c, &alone()).0.len(), 0);
    assert_eq!(mesh_chunk_surface(&c, &alone()).1.len(), 0);
    assert_eq!(mesh_chunk_water(&c, &alone()).0.len(), 0);
}

#[test]
fn a_single_block_has_five_faces() {
    let mut c = Chunk::new(BlockPos { x: 32, y: 0, z: -32 });
    c.set(1, 2, 3, BlockId(STONE));
    let (v, i) = mesh_chunk(&c, &alone());
    assert_eq!(v.len(), 20);
    assert_eq!(i.len(), 30);
    assert_eq!(with_normal(&v, [0, -1, 0]), 0);
    assert_eq!(with_normal(&v, [0, 1, 0]), 4);
    assert_eq!(v[0].pos, [340, 20, -280]);
    assert_eq!(v[0].normal, [1, 0, 0]);
    assert_eq!(v[0].uv, [10, 0]);
    assert_eq!(v[0].ao, 3);
    assert_eq!(v[1].pos, [340, 20, -290]);
    assert_eq!(v[2].pos, [340, 30, -290]);
    assert_eq!(v[3].pos, [340, 30, -280]);
    assert_eq!(&i[0..6], &[0, 1, 2, 0, 2, 3]);
    assert_eq!(&i[6..12], &[4, 5, 6, 4, 6, 7]);
    assert!(i.iter().all(|k| (*k as usize) < v.len()));
}

#[test]
fn equal_faces_are_merged() {
    let c = floor_of(DIRT);
    let (v, i) = mesh_chunk(&c, &among(&c));
    assert_eq!(v.len(), 4);
    assert_eq!(i.len(), 6);
    assert_eq!(v[0].pos, [320, 10, 0]);
    assert_eq!(v[2].pos, [0, 10, 320]);
    assert_eq!(v[0].uv, [320, 2 * 2560]);
}

#[test]
fn sides_towards_unknown_chunks_are_drawn() {
    let c = floor_of(STONE);
    let (v, _) = mesh_chunk(&c, &alone());
    // The lower corners of the sides are dark, so each of them stays a quad of its own.
    assert_eq!(v.len(), 4 * (1 + 4 * 32));
    assert_eq!(mesh_chunk(&c, &open()).0.len(), v.len());
    assert_eq!(with_normal(&v, [1, 0, 0]), 4 * 32);
    assert!(v.iter().filter(|v| v.normal == [1, 0, 0]).any(|v| v.ao == 2));
}

#[test]
fn uneven_light_splits_quads_the_other_way() {
    let mut c = empty_chunk();
    for x in 5..8 {
        for z in 5..8 {
            c.set(x, 3, z, BlockId(STONE));
        }
    }
    c.set(7, 4, 5, BlockId(STONE));
    let light = face_ao(&c, &alone(), 6, 3, 6, FaceDir::PosY);
    assert_eq!(light, [2, 3, 3, 3]);
    let (v, i) = mesh_chunk(&c, &alone());
    let flipped = i.chunks(6).filter(|q| q[2] == q[0] + 3).count();
    assert!(flipped > 0);
    assert!(v.iter().all(|v| v.ao == 2 || v.ao == 3));
}

#[test]
fn slabs_are_drawn_as_they_are() {
    let mut c = empty_chunk();
    c.set(0, 5, 0, BlockId(BRICK_SLAB));
    let (v, _) = mesh_chunk(&c, &alone());
    let top: Vec<&Vertex> = v.iter().filter(|v| v.normal == [0, 1, 0]).collect();
    assert_eq!(top.len(), 4);
    assert!(top.iter().all(|v| v.pos[1] == 55));
}

#[test]
fn water_is_not_in_the_full_mesh() {
    let mut c = empty_chunk();
    c.set(0, 120, 0, BlockId(WATER));
    c.set(0, 120, 1, BlockId(WATER));
    assert_eq!(mesh_chunk(&c, &alone()).0.len(), 0);
    let (v, i) = mesh_chunk_water(&c, &alone());
    assert_eq!(v.len(), 4);
    assert_eq!(i.len(), 6);
    assert!(v.iter().all(|v| v.pos[1] == 1209));
    assert_eq!(v[0].pos, [10, 1209, 0]);
    assert_eq!(v[2].pos, [0, 1209, 20]);
}

#[test]
fn only_water_at_sea_level_counts() {
    let mut c = empty_chunk();
    c.set(0, 60, 0, BlockId(WATER));
    assert_eq!(mesh_chunk_water(&c, &alone()).0.len(), 0);
    c.set(9, 120, 9, BlockId(WATER));
    assert_eq!(mesh_chunk_water(&c, &alone()).0.len(), 8);
    c.set(9, 121, 9, BlockId(STONE));
    assert_eq!(mesh_chunk_water(&c, &alone()).0.len(), 4);
}

#[test]
fn the_surface_has_walls_where_heights_differ() {
    let c = floor_of(STONE);
    assert_eq!(mesh_chunk_surface(&c, &alone()).0.len(), 4);
    assert_eq!(mesh_chunk_surface(&c, &open()).0.len(), 4 * 5);
    let mut d = floor_of(STONE);
    d.set(10, 1, 10, BlockId(STONE));
    d.set(10, 2, 10, BlockId(STONE));
    let (v, _) = mesh_chunk_surface(&d, &alone());
    assert_eq!(with_normal(&v, [1, 0, 0]), 4);
    assert_eq!(with_normal(&v, [-1, 0, 0]), 4);
    assert_eq!(with_normal(&v, [0, 0, 1]), 4);
    assert_eq!(with_normal(&v, [0, 0, -1]), 4);
    let east: Vec<&Vertex> = v.iter().filter(|v| v.normal == [1, 0, 0]).collect();
    assert!(east.iter().all(|v| v.pos[0] == 110));
    assert_eq!(east.iter().map(|v| v.pos[1]).min(), Some(10));
    assert_eq!(east.iter().map(|v| v.pos[1]).max(), Some(30));
}

#[test]
fn all_levels_of_detail() {
    let c = floor_of(STONE);
    let m = LodMeshes::build(&c, &alone());
    assert_eq!(m.level(0).vertices.len(), mesh_chunk(&c, &alone()).0.len());
    assert_eq!(m.level(1).vertices.len(), 4);
    assert_eq!(m.level(2).indices.len(), 0);
}

#[test]
fn models_on_their_own() {
    let m = mesh_model(&cube());
    assert_eq!(m.vertices.len(), 24);
    assert_eq!(m.indices.len(), 36);
    assert_eq!(&m.indices[30..36], &[20, 21, 22, 20, 22, 23]);
    let s = mesh_model(&slab());
    assert_eq!(s.vertices.len(), 24);
    assert_eq!(s.vertices.iter().map(|v| v.pos[1]).max(), Some(5));
}

#[test]
fn slices_of_a_chunk() {
    assert_eq!(dir_dims(FaceDir::PosX, 7), (32, 7, 32));
    assert_eq!(dir_dims(FaceDir::NegY, 7), (7, 32, 32));
    assert_eq!(dir_dims(FaceDir::PosZ, 7), (32, 32, 7));
    assert_eq!(to_xyz(FaceDir::PosX, 1, 2, 3), (1, 2, 3));
    assert_eq!(to_xyz(FaceDir::PosY, 1, 2, 3), (2, 1, 3));
    assert_eq!(to_xyz(FaceDir::NegZ, 1, 2, 3), (2, 3, 1));
}

#[test]
fn corners_look_at_three_blocks() {
    let up = ao_offsets(FaceDir::PosY);
    assert_eq!(up[0], ((1, 1, 0), (0, 1, -1), (1, 1, -1)));
    assert_eq!(up[2], ((-1, 1, 0), (0, 1, 1), (-1, 1, 1)));
    let east = ao_offsets(FaceDir::PosX);
    assert_eq!(east[0], ((1, 1, 0), (1, 0, -1), (1, 1, -1)));
}

#[test]
fn exposure_at_the_borders() {
    let mut c = empty_chunk();
    c.set(31, 4, 2, BlockId(STONE));
    let f = ChunkFaceData::extract(&c);
    let d = empty_chunk();
    let mut n = alone();
    assert!(is_exposed(&d, &n, 0, 4, 2, FaceDir::NegX));
    n.neg_x = Some(f.pos_x);
    assert!(!is_exposed(&d, &n, 0, 4, 2, FaceDir::NegX));
    assert!(is_exposed(&d, &n, 0, 5, 2, FaceDir::NegX));
    assert!(is_exposed(&d, &n, 0, 0, 0, FaceDir::NegY));
    assert!(is_exposed(&d, &n, 0, 255, 0, FaceDir::PosY));
}

#[test]
fn masks_are_merged_row_by_row() {
    let cell = |b: u16| {
        Some(MaskCell { block: BlockId(b), level: 0, ao: [3, 3, 3, 3] })
    };
    let odd = Some(MaskCell { block: BlockId(1), level: 0, ao: [3, 2, 3, 3] });
    let mask = vec![cell(1), cell(1), None, cell(1), cell(1), cell(2), odd, odd, cell(2)];
    let r = merge_cells(&mask, 3, 3);
    let shape: Vec<(usize, usize, usize, usize)> =
        r.iter().map(|q| (q.a, q.b, q.da, q.db)).collect();
    assert_eq!(shape, vec![(0, 0, 2, 2), (1, 2, 2, 1), (2, 0, 1, 1), (2, 1, 1, 1)]);
}

fn outward(v: &Vec<Vertex>, i: &Vec<u32>) -> bool {
    i.chunks(3).all(|t| {
        let [a, b, c] = [v[t[0] as usize], v[t[1] as usize], v[t[2] as usize]];
        let e: Vec<i64> = (0..3).map(|k| b.pos[k] - a.pos[k]).collect();
        let f: Vec<i64> = (0..3).map(|k| c.pos[k] - a.pos[k]).collect();
        let cross =
            [e[1] * f[2] - e[2] * f[1], e[2] * f[0] - e[0] * f[2], e[0] * f[1] - e[1] * f[0]];
        (0..3).map(|k| cross[k] * a.normal[k] as i64).sum::<i64>() > 0
    })
}

#[test]
fn all_triangles_turn_outward() {
    let mut c = floor_of(DIRT);
    c.set(9, 1, 9, BlockId(STONE));
    c.set(20, 1, 20, BlockId(BRICK_SLAB));
    let (v, i) = mesh_chunk(&c, &open());
    assert!(outward(&v, &i));
    let (v, i) = mesh_chunk_surface(&c, &open());
    assert!(outward(&v, &i));
    let m = mesh_model(&slab());
    assert!(outward(&m.vertices, &m.indices));
}

#[test]
fn light_goes_to_its_corner() {
    let mut c = empty_chunk();
    c.set(6, 3, 6, BlockId(STONE));
    c.set(7, 4, 5, BlockId(STONE));
    let (v, _) = mesh_chunk(&c, &alone());
    let top: Vec<&Vertex> =
        v.iter().filter(|v| v.normal == [0, 1, 0] && v.pos[1] == 40).collect();
    assert_eq!(top.len(), 4);
    for corner in top {
        let dark = corner.pos == [70, 40, 60];
        assert_eq!(corner.ao, if dark { 2 } else { 3 });
    }
}
