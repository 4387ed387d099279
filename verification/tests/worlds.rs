use std::collections::VecDeque;
use yave::render::mesh::DrawCommand;
use yave::world::block::{BlockId, AIR, DIRT, STONE};
use yave::world::coords::{BlockPos, ChunkCoord};
use yave::world::grid::{CoordMap, CoordSet};
use yave::world::sort::sort_by_key;
use yave::world::terrain::HeightField;
use yave::world::world::draw::indirect_growth;
use yave::world::world::frame::{Arrival, Meshed};
use yave::world::world::interact::Axis;
use yave::world::world::scan::Moved;
use yave::world::world::stream::{
    build_neighbor_masks, can_mesh, generate_chunk, world_to_chunk, MeshTask,
};
use yave::world::world::upload::{UploadAction, UploadPlan, Verdict};
use yave::world::world::{AllocStage, World};

fn at(x: i32, z: i32) -> ChunkCoord {
    ChunkCoord { x, z }
}

fn pos(x: i32, y: i32, z: i32) -> BlockPos {
    BlockPos { x, y, z }
}

fn flat(_x: i32, _z: i32) -> HeightField {
    HeightField::new(&vec![10; 1024], &vec![false; 1024])
}

fn sea(_x: i32, _z: i32) -> HeightField {
    HeightField::new(&vec![117; 1024], &vec![true; 1024])
}

fn generate_all(w: &mut World, cam: ChunkCoord, coords: Vec<ChunkCoord>) -> Vec<MeshTask> {
    let mut tasks = Vec::new();
    for c in coords {
        let (faces, chunk) = generate_chunk(&flat, c);
        tasks.extend(w.on_generated(&flat, cam, c, faces, chunk));
    }
    tasks
}

fn mesh_all(w: &mut World, cam: ChunkCoord, tasks: Vec<MeshTask>) {
    for t in tasks {
        let lods = t.run();
        w.on_meshed(cam, t.coord, lods);
    }
}

fn drive(w: &mut World, plan: &mut UploadPlan, cam: ChunkCoord) -> Vec<UploadAction> {
    let mut log = Vec::new();
    let mut stage = AllocStage::First;
    loop {
        let action = w.upload_step(plan, cam, stage);
        log.push(action);
        stage = match action {
            UploadAction::Close => return log,
            UploadAction::Stall => AllocStage::Stalled,
            UploadAction::GrowVertices(n) | UploadAction::GrowIndices(n) => AllocStage::Grown(n),
            _ => AllocStage::First,
        };
    }
}

fn loaded_world(rd: i32, lod1: i32, cam: ChunkCoord) -> World {
    let mut w = World::new(rd, lod1, 0);
    let moved: Moved = w.camera_moved(&flat, cam).unwrap();
    assert!(moved.gone.is_empty());
    let spawns = w.take_spawns(64);
    assert_eq!(spawns.len(), moved.missing.len());
    let tasks = generate_all(&mut w, cam, spawns);
    mesh_all(&mut w, cam, tasks);
    w.init_arenas(1 << 20, 1 << 18);
    w
}

fn upload(w: &mut World, cam: ChunkCoord) {
    while w.can_upload() {
        let mut plan = w.begin_upload();
        drive(w, &mut plan, cam);
        match w.close_upload(&plan, true) {
            Verdict::Ready => {
                w.submitted(&plan);
                w.commit_batch();
            }
            other => panic!("{:?}", other),
        }
    }
}

#[test]
fn maps_and_sets_of_chunks() {
    let mut m: CoordMap<u32> = CoordMap::new();
    m.insert(at(-1, 5), 7);
    m.insert(at(5, -1), 8);
    m.insert(at(-1, 5), 9);
    assert_eq!(m.len(), 2);
    assert_eq!(m.get(at(-1, 5)), Some(&9));
    assert_eq!(m.get(at(0, 0)), None);
    let mut keys = m.keys();
    keys.sort_by_key(|c| c.x);
    assert_eq!(keys, vec![at(-1, 5), at(5, -1)]);
    m.keep_near(at(4, 0), 1);
    assert_eq!(m.keys(), vec![at(5, -1)]);
    assert_eq!(m.remove(at(5, -1)), Some(8));
    let mut s = CoordSet::new();
    s.insert(at(i32::MIN, i32::MAX));
    assert!(s.contains(at(i32::MIN, i32::MAX)));
    assert!(!s.contains(at(i32::MAX, i32::MIN)));
    assert_eq!(s.items(), vec![at(i32::MIN, i32::MAX)]);
    s.remove(at(i32::MIN, i32::MAX));
    assert_eq!(s.len(), 0);
}

#[test]
fn sorting() {
    let v: Vec<(i64, u8)> = vec![(5, 0), (-2, 1), (9, 2), (5, 3), (0, 4)];
    let r = sort_by_key(&v);
    let keys: Vec<i64> = r.iter().map(|p| p.0).collect();
    assert_eq!(keys, vec![-2, 0, 5, 5, 9]);
    assert!(r.contains(&(5, 0)) && r.contains(&(5, 3)));
}

#[test]
fn the_camera_chunk_is_rounded_towards_zero() {
    assert_eq!(world_to_chunk(31, 32), at(0, 1));
    assert_eq!(world_to_chunk(-1, -31), at(0, 0));
    assert_eq!(world_to_chunk(-32, -63), at(-1, -1));
    assert_eq!(world_to_chunk(i32::MIN, i32::MAX), at(-67108864, 67108863));
}

fn in_order_from(list: &[ChunkCoord], cam: ChunkCoord) -> bool {
    let d2: Vec<i32> =
        list.iter().map(|c| (c.x - cam.x).pow(2) + (c.z - cam.z).pow(2)).collect();
    d2.windows(2).all(|p| p[0] <= p[1])
}

#[test]
fn missing_chunks_are_queued_nearest_first() {
    let cam = at(10, -3);
    let mut w = World::new(2, 1, 0);
    let m = w.camera_moved(&flat, cam).unwrap();
    assert_eq!(m.missing.len(), 25);
    assert!(w.camera_moved(&flat, cam).is_none());
    let spawns = w.take_spawns(64);
    assert_eq!(spawns.len(), 25);
    assert_eq!(spawns[0], cam);
    assert!(in_order_from(&spawns, cam));
}

#[test]
fn the_queue_follows_the_camera() {
    let mut w = World::new(2, 1, 0);
    w.camera_moved(&flat, at(0, 0)).unwrap();
    let m = w.camera_moved(&flat, at(2, 0)).unwrap();
    assert_eq!(m.missing.len(), 10);
    let spawns = w.take_spawns(64);
    // What is within two chunks of sight still waits.
    assert_eq!(spawns.len(), 35);
    assert_eq!(spawns[0], at(2, 0));
    assert!(in_order_from(&spawns, at(2, 0)));
    assert!(spawns.contains(&at(-2, 1)) && spawns.contains(&at(4, -2)));
}

#[test]
fn spawning_is_throttled() {
    let mut w = World::new(4, 1, 0);
    w.camera_moved(&flat, at(0, 0)).unwrap();
    assert_eq!(w.take_spawns(1).len(), 16);
    assert_eq!(w.take_spawns(1).len(), 0);
    assert_eq!(w.take_spawns(5).len(), 4);
    assert_eq!(w.take_spawns(100).len(), 61);
    assert_eq!(w.take_spawns(100).len(), 0);
}

#[test]
fn chunks_wait_for_their_neighbours() {
    let mut w = World::new(1, 1, 0);
    let cam = at(0, 0);
    w.camera_moved(&flat, cam).unwrap();
    let mut spawns = w.take_spawns(8);
    assert_eq!(spawns.len(), 9);
    let last = spawns.pop().unwrap();
    let tasks = generate_all(&mut w, cam, spawns);
    // The two chunks beside the last one wait for it.
    assert_eq!(tasks.len(), 6);
    assert!(w.unblock(&flat).is_empty());
    assert!(w.flush_stuck(&flat).is_empty());
    let more = generate_all(&mut w, cam, vec![last]);
    assert_eq!(more.len(), 3);
    assert_eq!(more[0].coord, last);
}

#[test]
fn neighbours_see_each_other() {
    let mut faces = CoordMap::new();
    let (f, _) = generate_chunk(&flat, at(1, 0));
    faces.insert(at(1, 0), f);
    let n = build_neighbor_masks(at(0, 0), &faces);
    assert!(n.pos_x.is_some());
    assert!(n.neg_x.is_none() && n.pos_z.is_none() && n.neg_z.is_none());
    assert!(n.pos_x.unwrap() == f.neg_x);
    let mut busy = CoordSet::new();
    busy.insert(at(0, 1));
    assert!(!can_mesh(at(0, 0), &busy));
    assert!(!can_mesh(at(0, 2), &busy));
    assert!(can_mesh(at(0, 1), &busy));
    assert!(can_mesh(at(1, 0), &busy));
}

#[test]
fn stuck_chunks_are_meshed_in_the_end() {
    let mut w = World::new(1, 1, 0);
    let cam = at(0, 0);
    w.camera_moved(&flat, cam).unwrap();
    let spawns = w.take_spawns(8);
    assert_eq!(spawns[0], cam);
    // The chunk in the middle waits for those beside it.
    assert!(generate_all(&mut w, cam, vec![cam]).is_empty());
    assert!(w.flush_stuck(&flat).is_empty());
    // They come in when they are out of sight, so that nobody is told of them.
    assert!(generate_all(&mut w, at(50, 0), spawns[1..].to_vec()).is_empty());
    let stuck = w.flush_stuck(&flat);
    assert_eq!(stuck.len(), 1);
    assert_eq!(stuck[0].coord, cam);
    assert!(stuck[0].neighbors.pos_x.is_none());
    assert!(w.flush_stuck(&flat).is_empty());
    mesh_all(&mut w, cam, stuck);
    assert_eq!(w.meshed_chunks(), vec![cam]);
}

#[test]
fn stuck_chunks_are_given_out_with_a_frame() {
    let mut w = World::new(1, 1, 0);
    let cam = at(0, 0);
    w.camera_moved(&flat, cam).unwrap();
    let spawns = w.take_spawns(8);
    assert!(generate_all(&mut w, cam, vec![cam]).is_empty());
    let mut late = VecDeque::new();
    for coord in spawns[1..].iter() {
        let (faces, chunk) = generate_chunk(&flat, *coord);
        late.push_back(Arrival { coord: *coord, faces, chunk });
    }
    let u = w.update(&flat, at(50, 0), 1, false, late, VecDeque::new());
    assert!(u.arrived.is_empty() && u.unblocked.is_empty());
    assert_eq!(u.stuck.len(), 1);
    assert_eq!(u.stuck[0].coord, cam);
}

#[test]
fn chunks_out_of_sight_do_not_wait() {
    let mut w = World::new(1, 1, 0);
    let cam = at(0, 0);
    w.camera_moved(&flat, cam).unwrap();
    w.take_spawns(8);
    assert!(generate_all(&mut w, cam, vec![cam]).is_empty());
    w.camera_moved(&flat, at(50, 0)).unwrap();
    assert!(w.flush_stuck(&flat).is_empty());
    assert!(w.unblock(&flat).is_empty());
}

#[test]
fn chunks_that_are_meshed_again_are_queued_again() {
    let cam = at(0, 0);
    let mut w = loaded_world(1, 1, cam);
    let again = generate_all(&mut w, cam, vec![at(1, 0), at(0, 0)]);
    assert_eq!(again.len(), 2);
    mesh_all(&mut w, cam, again);
    let plan = w.begin_upload();
    assert_eq!(plan.coords.len(), 11);
    assert_eq!(plan.coords[9..], [at(1, 0), at(0, 0)]);
    // A batch without meshes is queued again as it was.
    assert_eq!(w.close_upload(&plan, true), Verdict::Empty);
    assert_eq!(w.begin_upload().coords, plan.coords);
}

#[test]
fn a_chunk_twice_in_a_batch_gives_up_its_slots_once() {
    let cam = at(0, 0);
    let mut w = World::new(0, 1, 0);
    w.camera_moved(&flat, cam).unwrap();
    let spawns = w.take_spawns(1);
    let tasks = generate_all(&mut w, cam, spawns);
    mesh_all(&mut w, cam, tasks);
    w.init_arenas(1 << 20, 1 << 18);
    upload(&mut w, cam);
    for _ in 0..2 {
        let tasks = generate_all(&mut w, cam, vec![cam]);
        mesh_all(&mut w, cam, tasks);
    }
    let mut plan = w.begin_upload();
    assert_eq!(plan.coords, vec![cam, cam]);
    drive(&mut w, &mut plan, cam);
    assert_eq!(plan.entries.len(), 4);
    let old = plan.entries[0].old_slot.unwrap();
    assert_eq!(plan.entries[2].old_slot.unwrap().vb_offset, old.vb_offset);
    assert_eq!(w.close_upload(&plan, true), Verdict::Ready);
    w.submitted(&plan);
    w.commit_batch();
    // The later of the two meshes is drawn.
    let drawn = w.cull_draws(&vec![cam], cam).0[0];
    assert_eq!(drawn, DrawCommand::of(plan.entries[2].slot));
    for _ in 0..3 {
        w.release_frees();
    }
    // The old slots are free, once: the next two meshes for them lie apart.
    for _ in 0..2 {
        let tasks = generate_all(&mut w, cam, vec![cam]);
        mesh_all(&mut w, cam, tasks);
    }
    let mut next = w.begin_upload();
    drive(&mut w, &mut next, cam);
    assert_eq!(next.entries.len(), 4);
    let mut slots: Vec<(usize, usize)> =
        next.entries.iter().map(|e| (e.slot.vb_offset, e.slot.vb_size)).collect();
    slots.sort();
    assert_eq!(slots[0].0, old.vb_offset);
    assert!(slots.windows(2).all(|p| p[0].0 + p[0].1 <= p[1].0));
}

#[test]
fn a_mesh_on_its_way_is_replaced_once() {
    let cam = at(0, 0);
    let mut w = World::new(0, 1, 0);
    w.camera_moved(&flat, cam).unwrap();
    let spawns = w.take_spawns(1);
    let tasks = generate_all(&mut w, cam, spawns);
    mesh_all(&mut w, cam, tasks);
    w.init_arenas(1 << 20, 1 << 18);
    upload(&mut w, cam);
    // An edit is on its way to the GPU when the chunk goes out of sight.
    w.set_block(&flat, pos(4, 11, 4), BlockId(STONE));
    let mut plan = w.begin_upload();
    drive(&mut w, &mut plan, cam);
    assert_eq!(w.close_upload(&plan, true), Verdict::Ready);
    w.submitted(&plan);
    assert!(plan.entries.iter().all(|e| e.old_slot.is_some()));
    let away = at(9, 0);
    assert_eq!(w.camera_moved(&flat, away).unwrap().gone, vec![cam]);
    w.commit_batch();
    for _ in 0..3 {
        w.release_frees();
    }
    // Two more meshes come where the old ones were, and lie apart from each other and from those
    // of the batch.
    let mut slots: Vec<(usize, usize)> =
        plan.entries.iter().map(|e| (e.slot.vb_offset, e.slot.vb_size)).collect();
    let spawns = w.take_spawns(1);
    let tasks = generate_all(&mut w, away, spawns);
    mesh_all(&mut w, away, tasks);
    for y in 11..13 {
        let mut next = w.begin_upload();
        drive(&mut w, &mut next, away);
        assert_eq!(next.entries.len(), 2);
        slots.extend(next.entries.iter().map(|e| (e.slot.vb_offset, e.slot.vb_size)));
        assert_eq!(w.close_upload(&next, true), Verdict::Ready);
        w.submitted(&next);
        w.commit_batch();
        w.set_block(&flat, pos(300, y, 4), BlockId(STONE));
    }
    slots.sort();
    assert_eq!(slots.len(), 6);
    assert_eq!(slots[0].0, 0);
    assert!(slots.windows(2).all(|p| p[0].0 + p[0].1 <= p[1].0));
}

#[test]
fn uploads_make_chunks_visible() {
    let cam = at(0, 0);
    let mut w = loaded_world(1, 1, cam);
    let meshed = w.meshed_chunks();
    assert_eq!(meshed.len(), 9);
    assert_eq!(w.cull_draws(&meshed, cam).0.len(), 0);
    let mut plan = w.begin_upload();
    assert_eq!(plan.coords.len(), 9);
    let log = drive(&mut w, &mut plan, cam);
    assert!(log.iter().all(|a| *a == UploadAction::Continue || *a == UploadAction::Close));
    // The full mesh is uploaded for the middle chunk only, the surface for all, and no water.
    assert_eq!(plan.entries.len(), 10);
    assert_eq!(plan.entries[0].vb_stage, 0);
    for k in 1..10 {
        let (p, e) = (&plan.entries[k - 1], &plan.entries[k]);
        assert_eq!(e.vb_stage, p.vb_stage + p.slot.vb_size as u64);
        assert_eq!(e.slot.vb_offset % 36, 0);
        assert!(e.slot.vb_offset >= p.slot.vb_offset + p.slot.vb_size);
    }
    assert_eq!(w.close_upload(&plan, true), Verdict::Ready);
    w.submitted(&plan);
    assert!(w.has_batch());
    assert_eq!(w.cull_draws(&meshed, cam).0.len(), 0);
    w.commit_batch();
    assert!(!w.has_batch());
    let (ground, water): (Vec<DrawCommand>, Vec<DrawCommand>) = w.cull_draws(&meshed, cam);
    assert_eq!(ground.len(), 9);
    assert_eq!(water.len(), 0);
    let middle = w.cull_draws(&vec![cam], cam).0[0];
    let full = plan.entries.iter().find(|e| e.coord == cam && e.lod == 0).unwrap();
    assert_eq!(middle, DrawCommand::of(full.slot));
    let surface = plan.entries.iter().find(|e| e.coord == cam && e.lod == 1).unwrap();
    assert_eq!(w.cull_draws(&vec![cam], at(5, 0)).0[0], DrawCommand::of(surface.slot));
}

#[test]
fn water_is_drawn_apart() {
    let cam = at(0, 0);
    let mut w = World::new(0, 1, 0);
    w.camera_moved(&sea, cam).unwrap();
    let c = w.take_spawns(1)[0];
    let (faces, chunk) = generate_chunk(&sea, c);
    let tasks = w.on_generated(&sea, cam, c, faces, chunk);
    mesh_all(&mut w, cam, tasks);
    w.init_arenas(1 << 22, 1 << 20);
    upload(&mut w, cam);
    let (ground, water) = w.cull_draws(&w.meshed_chunks(), cam);
    assert_eq!(ground.len(), 1);
    assert_eq!(water.len(), 1);
    assert_eq!(water[0].index_count, 6);
}

#[test]
fn arenas_grow_when_they_are_full() {
    let cam = at(0, 0);
    let mut w = World::new(0, 1, 0);
    w.camera_moved(&flat, cam).unwrap();
    let spawns = w.take_spawns(1);
    let tasks = generate_all(&mut w, cam, spawns);
    mesh_all(&mut w, cam, tasks);
    w.init_arenas(100, 100_000);
    let mut plan = w.begin_upload();
    let log = drive(&mut w, &mut plan, cam);
    assert!(log.contains(&UploadAction::Stall));
    assert!(log.iter().any(|a| matches!(a, UploadAction::GrowVertices(_))));
    assert_eq!(plan.entries.len(), 2);
    assert_eq!(w.close_upload(&plan, false), Verdict::NoStaging);
    assert_eq!(w.close_upload(&plan, true), Verdict::Ready);
}

#[test]
fn a_mesh_without_room_is_skipped() {
    let cam = at(0, 0);
    let mut w = World::new(0, 1, 0);
    w.camera_moved(&flat, cam).unwrap();
    let spawns = w.take_spawns(1);
    let tasks = generate_all(&mut w, cam, spawns);
    mesh_all(&mut w, cam, tasks);
    w.init_arenas(100, 100);
    let mut plan = w.begin_upload();
    let mut stage = AllocStage::First;
    let mut skipped = 0;
    loop {
        stage = match w.upload_step(&mut plan, cam, stage) {
            UploadAction::Close => break,
            UploadAction::Stall => AllocStage::Stalled,
            UploadAction::GrowVertices(_) | UploadAction::GrowIndices(_) => AllocStage::GrowFailed,
            UploadAction::Skipped => {
                skipped += 1;
                AllocStage::First
            }
            UploadAction::Continue => AllocStage::First,
        };
    }
    assert_eq!(skipped, 2);
    assert_eq!(w.close_upload(&plan, true), Verdict::Empty);
    assert!(w.can_upload());
}

#[test]
fn arena_sizes_follow_the_render_distance() {
    assert_eq!(World::new(1, 1, 0).arena_caps(), (512 << 20, 128 << 20));
    assert_eq!(World::new(80, 1, 0).arena_caps(), (2048 << 20, 256 << 20));
    assert_eq!(World::new(50, 1, 0).arena_caps(), (1024 << 20, 128 << 20));
    assert_eq!(World::new(80, 1, 0).draw_capacity(), 161 * 161);
    let mut w = World::new(1, 1, 0);
    assert!(!w.has_arenas());
    w.init_arenas(64, 64);
    assert!(w.has_arenas());
}

#[test]
fn slots_are_free_three_frames_later() {
    let cam = at(0, 0);
    let mut w = World::new(0, 0, 0);
    w.camera_moved(&flat, cam).unwrap();
    let spawns = w.take_spawns(1);
    let tasks = generate_all(&mut w, cam, spawns);
    mesh_all(&mut w, cam, tasks);
    // Room for one surface mesh only: four vertices and six indices.
    w.init_arenas(144, 24);
    upload(&mut w, cam);
    w.set_block(&flat, pos(4, 10, 4), BlockId(DIRT));
    // Another surface mesh is to be uploaded, but there is no room.
    let mut plan = w.begin_upload();
    assert_eq!(plan.coords, vec![cam]);
    assert_eq!(w.upload_step(&mut plan, cam, AllocStage::First), UploadAction::Continue);
    assert_eq!(w.upload_step(&mut plan, cam, AllocStage::First), UploadAction::Stall);
    // The camera goes away, and the old slot is given up.
    w.camera_moved(&flat, at(9, 9)).unwrap();
    assert_eq!(w.upload_step(&mut plan, cam, AllocStage::First), UploadAction::Stall);
    w.release_frees();
    w.release_frees();
    assert_eq!(w.upload_step(&mut plan, cam, AllocStage::First), UploadAction::Stall);
    w.release_frees();
    assert_eq!(w.upload_step(&mut plan, cam, AllocStage::First), UploadAction::Continue);
}

#[test]
fn edits_are_read_back() {
    let mut w = World::new(1, 1, 0);
    let p = pos(-1, 20, 40);
    assert!(!w.is_solid(p));
    w.set_block(&flat, p, BlockId(STONE));
    assert!(w.is_solid(p));
    assert!(!w.is_solid(pos(-2, 20, 40)));
    assert!(w.is_solid(pos(-2, 10, 40)));
    w.set_block(&flat, p, BlockId(AIR));
    assert!(!w.is_solid(p));
    assert!(w.is_solid(pos(0, -1, 0)));
    assert!(!w.is_solid(pos(0, 256, 0)));
    w.set_block(&flat, pos(0, 256, 0), BlockId(STONE));
    assert!(!w.is_solid(pos(0, 256, 0)));
}

#[test]
fn edits_survive_when_the_camera_moves() {
    let cam = at(0, 0);
    let mut w = loaded_world(1, 1, cam);
    let p = pos(3, 30, 3);
    w.set_block(&flat, p, BlockId(STONE));
    w.camera_moved(&flat, at(40, 40)).unwrap();
    assert!(w.is_solid(p));
    // A chunk without edits is forgotten.
    assert!(!w.is_solid(pos(40, 5, 3)));
    let (faces, chunk) = generate_chunk(&flat, cam);
    w.on_generated(&flat, cam, cam, faces, chunk);
    assert!(w.is_solid(p));
}

#[test]
fn edits_are_uploaded_first() {
    let cam = at(0, 0);
    let mut w = loaded_world(1, 1, cam);
    w.set_block(&flat, pos(32, 10, 5), BlockId(AIR));
    let plan = w.begin_upload();
    // The block is at the border, so the neighbour is meshed again as well.
    assert_eq!(plan.coords[0], at(0, 0));
    assert_eq!(plan.coords[1], at(1, 0));
    assert_eq!(plan.coords.len(), 9);
}

#[test]
fn edits_wait_for_a_mesh_in_the_making() {
    let cam = at(0, 0);
    let mut w = World::new(0, 1, 0);
    w.camera_moved(&flat, cam).unwrap();
    let spawns = w.take_spawns(1);
    let tasks = generate_all(&mut w, cam, spawns);
    assert_eq!(tasks.len(), 1);
    w.set_block(&flat, pos(5, 11, 5), BlockId(STONE));
    assert!(w.run_pending_remesh(&flat).is_empty());
    assert!(w.meshed_chunks().is_empty());
    mesh_all(&mut w, cam, tasks);
    let before = w.lods(cam).unwrap().level(0).vertices.len();
    assert_eq!(w.run_pending_remesh(&flat), vec![cam]);
    assert!(w.lods(cam).unwrap().level(0).vertices.len() > before);
    assert!(w.run_pending_remesh(&flat).is_empty());
}

#[test]
fn collisions_are_prepared() {
    let cam = at(0, 0);
    let mut w = loaded_world(5, 1, cam);
    let p = pos(150, 5, 10);
    assert!(!w.is_solid(p));
    w.prep_player_collision(&flat, &vec![(150, 10), (151, 10)]);
    assert!(w.is_solid(p));
    assert!(!w.is_solid(pos(150, 11, 10)));
    // Chunks that are not loaded stay open.
    w.prep_player_collision(&flat, &vec![(3000, 10)]);
    assert!(!w.is_solid(pos(3000, 5, 10)));
}

#[test]
fn rays_hit_the_first_opaque_block() {
    let w = World::new(1, 1, 0);
    let down = pos(1, -1, 1);
    let path = vec![Axis::Y; 10];
    let hit = w.raycast(&flat, pos(3, 15, 3), down, &path);
    assert_eq!(hit, Some((pos(3, 10, 3), pos(0, 1, 0))));
    assert_eq!(w.raycast(&flat, pos(3, 30, 3), down, &path), None);
    assert_eq!(
        w.raycast(&flat, pos(3, 9, 3), down, &path),
        Some((pos(3, 9, 3), pos(0, 0, 0)))
    );
    let mut e = World::new(1, 1, 0);
    e.set_block(&flat, pos(6, 15, 3), BlockId(STONE));
    let east = vec![Axis::X, Axis::X, Axis::Z, Axis::X];
    assert_eq!(
        e.raycast(&flat, pos(3, 15, 2), pos(1, 1, 1), &east),
        Some((pos(6, 15, 3), pos(-1, 0, 0)))
    );
    assert_eq!(e.raycast(&flat, pos(3, 300, 2), pos(1, 1, 1), &east), None);
}

#[test]
fn draw_buffers_alternate() {
    let mut w = World::new(1, 1, 0);
    assert_eq!(w.flush_indirect(7), 1);
    assert_eq!(w.flush_indirect_water(2), 1);
    assert_eq!(w.indirect_draw(), (1, 7));
    assert_eq!(w.indirect_draw_water(), (1, 2));
    assert_eq!(w.flush_indirect(3), 0);
    assert_eq!(w.indirect_draw(), (0, 3));
    assert_eq!(indirect_growth(9, 9), None);
    assert_eq!(indirect_growth(9, 10), Some(16));
    assert_eq!(indirect_growth(0, 0), Some(1));
}

#[test]
fn near_chunks_get_their_full_mesh() {
    let far = at(1, 0);
    let mut w = loaded_world(1, 1, at(0, 0));
    upload(&mut w, at(0, 0));
    let surface = w.cull_draws(&vec![far], at(0, 0)).0[0];
    let moved = w.camera_moved(&flat, far).unwrap();
    assert!(moved.detail.contains(&far));
    assert!(!moved.detail.contains(&at(0, 0)));
    // The chunks that went out of sight give up their slots.
    assert_eq!(moved.gone.len(), 3);
    upload(&mut w, far);
    let full = w.cull_draws(&vec![far], far).0[0];
    assert!(full.index_count > surface.index_count);
}

#[test]
fn frames_go_on_until_all_is_drawn() {
    let cam = at(3, -2);
    let mut w = World::new(2, 1, 0);
    w.init_arenas(1 << 20, 1 << 18);
    let mut arrivals: VecDeque<Arrival> = VecDeque::new();
    let mut meshed: VecDeque<Meshed> = VecDeque::new();
    let mut batch = false;
    let mut generated = 0;
    let mut meshes = 0;
    for _ in 0..8 {
        let u = w.update(
            &flat,
            cam,
            2,
            batch,
            std::mem::take(&mut arrivals),
            std::mem::take(&mut meshed),
        );
        assert!(u.remeshed.is_empty());
        for coord in u.spawns {
            generated += 1;
            let (faces, chunk) = generate_chunk(&flat, coord);
            arrivals.push_back(Arrival { coord, faces, chunk });
        }
        for tasks in [u.arrived, u.stuck, u.unblocked] {
            for t in tasks {
                meshes += 1;
                meshed.push_back(Meshed { coord: t.coord, lods: t.run() });
            }
        }
        batch = false;
        if w.can_upload() {
            let mut plan = w.begin_upload();
            drive(&mut w, &mut plan, cam);
            if w.close_upload(&plan, true) == Verdict::Ready {
                w.submitted(&plan);
                batch = true;
            }
        }
        if let Some(moved) = w.camera_moved(&flat, cam) {
            assert_eq!(moved.missing.len(), 25);
        }
    }
    assert_eq!(generated, 25);
    assert_eq!(meshes, 25);
    let visible = w.meshed_chunks();
    assert_eq!(visible.len(), 25);
    assert_eq!(w.cull_draws(&visible, cam).0.len(), 25);
}

#[test]
fn meshes_never_share_bytes() {
    let cam = at(0, 0);
    let mut w = loaded_world(1, 2, cam);
    upload(&mut w, cam);
    for round in 0..6 {
        w.release_frees();
        for x in 0..3 {
            let p = pos(5 * round + x, 11, 7 * x);
            w.set_block(&flat, p, BlockId(STONE));
        }
        upload(&mut w, cam);
        let (ground, _) = w.cull_draws(&w.meshed_chunks(), cam);
        assert_eq!(ground.len(), 9);
        let mut vertices: Vec<(u32, u32)> = Vec::new();
        let mut indices: Vec<(u32, u32)> = Vec::new();
        for d in ground {
            let first = d.vertex_offset as u32;
            vertices.push((first, first + d.index_count * 2 / 3));
            indices.push((d.first_index, d.first_index + d.index_count));
        }
        for list in [&mut vertices, &mut indices] {
            list.sort();
            assert!(list.windows(2).all(|p| p[0].1 <= p[1].0));
        }
    }
}
