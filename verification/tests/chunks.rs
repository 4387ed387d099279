use yave::models::builtin::{cube, slab, water};
use yave::models::face::FaceDir;
use yave::world::block::{
    face_tex, get_model, is_opaque, BlockId, AIR, BRICK_SLAB, DIRT, STONE, TEX_DIRT,
    TEX_GRASS_SIDE, TEX_GRASS_TOP, TEX_STONE, WATER,
};
use yave::world::cells::{cell_hash, cell_neighbourhood, CELL_SIZE};
use yave::world::chunk::Chunk;
use yave::world::coords::{floor_div, floor_mod, BlockPos};
use yave::world::neighbor::{mask_solid, ChunkFaceData};
use yave::world::terrain::{
    fill_chunk, generate, grid_cell, grid_position, HeightField, SEA_LEVEL,
};

fn at(x: i32, y: i32, z: i32) -> BlockPos {
    BlockPos { x, y, z }
}

#[test]
fn directions_have_opposites() {
    for i in 0..6 {
        let d = FaceDir::at(i);
        assert_eq!(d.index(), i);
        assert_eq!(d.opposite().opposite(), d);
        let (n, m) = (d.normal(), d.opposite().normal());
        for k in 0..3 {
            assert_eq!(n[k], -m[k]);
        }
    }
    assert_eq!(FaceDir::PosX.opposite(), FaceDir::NegX);
    assert_eq!(FaceDir::PosY.normal(), [0, 1, 0]);
}

#[test]
fn textures_depend_on_the_face() {
    assert_eq!(face_tex(BlockId(DIRT), FaceDir::PosY), TEX_GRASS_TOP);
    assert_eq!(face_tex(BlockId(DIRT), FaceDir::NegY), TEX_DIRT);
    assert_eq!(face_tex(BlockId(DIRT), FaceDir::PosX), TEX_GRASS_SIDE);
    assert_eq!(face_tex(BlockId(STONE), FaceDir::PosY), TEX_STONE);
    assert_eq!(face_tex(BlockId(99), FaceDir::PosY), TEX_STONE);
}

#[test]
fn air_has_no_model() {
    assert!(get_model(BlockId(AIR)).is_none());
    assert!(get_model(BlockId(77)).is_none());
    assert!(get_model(BlockId(DIRT)).is_some());
    assert!(get_model(BlockId(WATER)).is_some());
    assert!(get_model(BlockId(BRICK_SLAB)).is_some());
    assert!(is_opaque(BlockId(STONE)));
    assert!(!is_opaque(BlockId(AIR)));
    assert!(!is_opaque(BlockId(WATER)));
    assert_eq!(BlockId::default(), BlockId(AIR));
}

#[test]
fn models_of_blocks() {
    let c = cube();
    for i in 0..6 {
        let g = c.face(FaceDir::at(i)).unwrap();
        assert!(g.is_full);
        for v in g.verts {
            for k in 0..3 {
                assert!(v[k] == 0 || v[k] == 10);
            }
        }
    }
    let s = slab();
    let top = s.face(FaceDir::PosY).unwrap();
    assert!(!top.is_full);
    assert!(top.verts.iter().all(|v| v[1] == 5));
    let w = water();
    assert!(w.face(FaceDir::PosY).is_some());
}

#[test]
fn blocks_are_read_back() {
    let mut c = Chunk::new(at(0, 0, 0));
    assert_eq!(c.get(3, 4, 5), BlockId(AIR));
    assert_eq!(c.max_height(), 0);
    c.set(3, 4, 5, BlockId(STONE));
    assert_eq!(c.get(3, 4, 5), BlockId(STONE));
    assert_eq!(c.get(5, 4, 3), BlockId(AIR));
    assert_eq!(c.max_height(), 4);
    c.set(1, 2, 1, BlockId(WATER));
    c.set(3, 4, 5, BlockId(AIR));
    assert_eq!(c.max_height(), 2);
    c.set(3, 200, 5, BlockId(AIR));
    assert_eq!(c.max_height(), 2);
    c.set(1, 2, 1, BlockId(AIR));
    assert_eq!(c.max_height(), 0);
    assert!(c.dirty());
    let d = c.clone();
    c.set(0, 9, 0, BlockId(DIRT));
    assert_eq!(d.get(0, 9, 0), BlockId(AIR));
    assert_eq!(c.max_height(), 9);
}

#[test]
fn face_data_is_that_of_the_sides() {
    let mut c = Chunk::new(at(0, 0, 0));
    c.set(0, 7, 3, BlockId(STONE));
    c.set(31, 200, 31, BlockId(DIRT));
    c.set(4, 9, 0, BlockId(WATER));
    let f = ChunkFaceData::extract(&c);
    assert!(mask_solid(&f.neg_x, 7, 3));
    assert!(!mask_solid(&f.neg_x, 7, 4));
    assert!(!mask_solid(&f.pos_x, 7, 3));
    assert!(mask_solid(&f.pos_x, 200, 31));
    assert!(mask_solid(&f.pos_z, 200, 31));
    assert!(!mask_solid(&f.neg_z, 9, 4));
    let mut set = 0;
    for y in 0..256 {
        for l in 0..32 {
            for m in [&f.neg_x, &f.pos_x, &f.neg_z, &f.pos_z] {
                if mask_solid(m, y, l) {
                    set += 1;
                }
            }
        }
    }
    assert_eq!(set, 3);
}

#[test]
fn division_rounds_down() {
    assert_eq!(floor_div(-1, 32), -1);
    assert_eq!(floor_mod(-1, 32), 31);
    assert_eq!(floor_div(-32, 32), -1);
    assert_eq!(floor_mod(-32, 32), 0);
    assert_eq!(floor_div(63, 32), 1);
    assert_eq!(floor_div(i32::MIN, 32), i32::MIN / 32);
    for x in -100..100 {
        assert_eq!(floor_div(x, 7), x.div_euclid(7));
        assert_eq!(floor_mod(x, 7), x.rem_euclid(7));
    }
}

fn field(level: usize, ocean: bool) -> HeightField {
    HeightField::new(&vec![level; 1024], &vec![ocean; 1024])
}

#[test]
fn dry_land_has_grass_on_stone() {
    let c = fill_chunk(at(32, 0, -64), &field(10, false));
    assert_eq!(c.origin(), at(32, 0, -64));
    assert_eq!(c.get(0, 0, 0), BlockId(STONE));
    assert_eq!(c.get(31, 9, 31), BlockId(STONE));
    assert_eq!(c.get(7, 10, 8), BlockId(DIRT));
    assert_eq!(c.get(7, 11, 8), BlockId(AIR));
    assert_eq!(c.max_height(), 10);
}

#[test]
fn the_sea_lies_over_stone() {
    let c = fill_chunk(at(0, 0, 0), &field(100, true));
    assert_eq!(c.get(4, 100, 4), BlockId(STONE));
    assert_eq!(c.get(4, 101, 4), BlockId(WATER));
    assert_eq!(c.get(4, SEA_LEVEL, 4), BlockId(WATER));
    assert_eq!(c.get(4, SEA_LEVEL + 1, 4), BlockId(AIR));
    assert_eq!(c.max_height(), SEA_LEVEL);
}

#[test]
fn heights_stay_inside_the_world() {
    let low = field(0, false);
    assert_eq!(low.surface(5), 1);
    let high = field(1000, false);
    assert_eq!(high.surface(5), 255);
    assert_eq!(high.max_level(), 255);
    assert_eq!(low.max_level(), SEA_LEVEL);
    assert_eq!(field(200, true).max_level(), SEA_LEVEL);
    assert!(field(3, true).is_ocean(0));
}

#[test]
fn generating_twice_gives_the_same() {
    let terrain = |x: i32, z: i32| {
        let levels: Vec<usize> =
            (0..1024).map(|i| (100 + (x + z + i) % 40) as usize).collect();
        let ocean: Vec<bool> = levels.iter().map(|l| *l < 120).collect();
        HeightField::new(&levels, &ocean)
    };
    let a = generate(&terrain, at(64, 0, 32));
    let b = generate(&terrain, at(64, 0, 32));
    for (x, y, z) in [(0, 5, 0), (3, 118, 4), (31, 139, 31), (9, 120, 1)] {
        assert_eq!(a.get(x, y, z), b.get(x, y, z));
    }
    assert_eq!(a.get(0, 116, 0), BlockId(STONE));
    assert_eq!(a.get(0, 117, 0), BlockId(WATER));
}

#[test]
fn grid_cells_surround_their_columns() {
    assert_eq!(grid_cell(0), (0, 1, 0));
    assert_eq!(grid_cell(7), (1, 2, 3));
    assert_eq!(grid_cell(31), (7, 8, 3));
    assert_eq!(grid_position(-64, 8), -32);
}

#[test]
fn cells_around_a_place() {
    let n = cell_neighbourhood(-1, 4000, CELL_SIZE);
    assert_eq!(n.len(), 9);
    assert_eq!(n[0], (-2, 0));
    assert_eq!(n[4], (-1, 1));
    assert_eq!(n[8], (0, 2));
    for x in 0..32 {
        assert_eq!(cell_neighbourhood(3968 + x, 0, CELL_SIZE), cell_neighbourhood(3968, 0, CELL_SIZE));
    }
}

#[test]
fn hashes_of_cells() {
    assert_eq!(cell_hash(0, 0, 0), 0);
    let mut h: u64 = 1u64.wrapping_mul(0x9e3779b97f4a7c15)
        ^ ((-2i32) as u64).wrapping_mul(0x6c62272e07bb0142)
        ^ 3u64.wrapping_mul(0xbf58476d1ce4e5b9);
    h ^= h >> 30;
    h = h.wrapping_mul(0xbf58476d1ce4e5b9);
    h ^= h >> 27;
    h = h.wrapping_mul(0x94d049bb133111eb);
    h ^= h >> 31;
    assert_eq!(cell_hash(1, -2, 3), h >> 11);
    assert!(cell_hash(-5, 9, 7) < (1 << 53));
}
