//! What holds of the world as a whole.

use super::interact::{
    entry_normal, home, in_height, ray_at, ray_fits, ray_hits, Axis,
};
use super::stream::{can_mesh_in, TaskView, INTERACT_RADIUS};
use super::upload::{item_ok, max_ib_size, max_vb_size, PlanView, UploadEntry};
use super::{AllocStage, AllocStep};
use crate::render::mesh::ChunkSlot;
use crate::world::block::{opaque, BlockId};
use crate::world::chunk::{cell_index, ChunkView, CHUNK_VOLUME};
use crate::world::coords::{chunk_of, origin_of, BlockPos, ChunkCoord};
use crate::world::grid::near;
use crate::world::neighbor::ChunkFaceData;
use crate::world::state::{ArenasView, WorldView};
use crate::world::terrain::{generated, HeightField};
use vstd::prelude::*;

verus! {

// ── Blocks ───────────────────────────────────────────────────────────────────

pub proof fn lemma_sides_keep_blocks<F: Fn(i32, i32) -> HeightField>(
    w: WorldView,
    f: F,
    p: BlockPos,
    k: int,
)
    ensures
        w.after_sides(f, p, k).stored_chunks == w.stored_chunks,
        w.after_sides(f, p, k).modified == w.modified,
    decreases k,
{
    if k > 0 {
        lemma_sides_keep_blocks(w, f, p, k - 1);
    }
}

/// A block that was set is read back, and no other block changes. A position is solid when the
/// block set there is opaque.
pub proof fn law_set_block<F: Fn(i32, i32) -> HeightField>(
    w: WorldView,
    f: F,
    p: BlockPos,
    id: BlockId,
    q: BlockPos,
)
    requires
        w.wf(),
        in_height(p.y as int),
        in_height(q.y as int),
    ensures
        w.after_set_block(f, p, id).block(f, q) == (if q == p {
            id
        } else {
            w.block(f, q)
        }),
        w.after_set_block(f, p, id).solid(p) == opaque(id),
{
    let put = w.after_put(f, p, id);
    let mid = put.after_remesh(f, home(p));
    lemma_sides_keep_blocks(mid, f, p, 4);
    let after = w.after_set_block(f, p, id);
    assert(after.stored_chunks == put.stored_chunks);
    let chunk = w.blocks(f, home(p));
    if w.stored_chunks.contains_key(home(p)) {
        assert(w.stored_chunks[home(p)].wf());
    }
    assert(chunk.cells.len() == CHUNK_VOLUME);
    let ip = cell_index(p.x as int % 32, p.y as int, p.z as int % 32);
    let iq = cell_index(q.x as int % 32, q.y as int, q.z as int % 32);
    assert(0 <= ip < CHUNK_VOLUME);
    assert(0 <= iq < CHUNK_VOLUME);
    if home(q) == home(p) {
        assert(after.blocks(f, home(q)).cells == chunk.cells.update(ip, id));
        if ip == iq {
            assert(p.x as int % 32 == q.x as int % 32);
            assert(p.y == q.y);
            assert(p.z as int % 32 == q.z as int % 32);
            assert(p.x as int / 32 == q.x as int / 32);
            assert(p.z as int / 32 == q.z as int / 32);
            assert(p == q);
        }
    } else {
        assert(p != q);
        assert(after.blocks(f, home(q)) == w.blocks(f, home(q)));
    }
    assert(after.blocks(f, home(p)).cells == chunk.cells.update(ip, id));
}

/// Nothing can be set outside the world's height.
pub proof fn law_set_block_outside<F: Fn(i32, i32) -> HeightField>(
    w: WorldView,
    f: F,
    p: BlockPos,
    id: BlockId,
)
    requires
        !in_height(p.y as int),
    ensures
        w.after_set_block(f, p, id) == w,
{
}

/// The blocks that are kept are the terrain's, but for chunks with edits.
pub open spec fn true_to_terrain<F: Fn(i32, i32) -> HeightField>(w: WorldView, f: F) -> bool {
    forall|c: ChunkCoord| #[trigger]
        w.stored_chunks.contains_key(c) && !w.modified.contains(c) ==> w.stored_chunks[c]
            == generated(f, origin_of(c))
}

/// `b` has the same blocks everywhere as `a`, the same chunks with edits, and it keeps no others
/// than the terrain has.
pub open spec fn same_blocks<F: Fn(i32, i32) -> HeightField>(a: WorldView, b: WorldView, f: F)
    -> bool {
    &&& forall|c: ChunkCoord| #[trigger] b.blocks(f, c) == a.blocks(f, c)
    &&& b.modified == a.modified
    &&& true_to_terrain(b, f)
}

/// Forgetting chunks and generating them again changes no block: when the camera moves, blocks
/// stay what they are, and chunks with edits are kept.
pub proof fn law_move_keeps_blocks<F: Fn(i32, i32) -> HeightField>(
    w: WorldView,
    f: F,
    cam: ChunkCoord,
    gone: Seq<ChunkCoord>,
    missing: Seq<ChunkCoord>,
    queue: Seq<ChunkCoord>,
    detail: Seq<ChunkCoord>,
)
    requires
        w.wf(),
        true_to_terrain(w, f),
    ensures
        same_blocks(w, w.after_move(cam, gone, missing, queue, detail), f),
        forall|c: ChunkCoord| #[trigger]
            w.modified.contains(c) ==> w.after_move(
                cam,
                gone,
                missing,
                queue,
                detail,
            ).stored_chunks.contains_key(c),
{
    let after = w.after_move(cam, gone, missing, queue, detail);
    assert(after.stored_chunks == w.stored_chunks.restrict(
        near(cam, INTERACT_RADIUS as int).union(w.modified),
    ));
}

/// A chunk that arrives as the terrain has it changes no block, and never replaces edits.
pub proof fn law_arrival_keeps_blocks<F: Fn(i32, i32) -> HeightField>(
    w: WorldView,
    f: F,
    cam: ChunkCoord,
    c: ChunkCoord,
    faces: ChunkFaceData,
)
    requires
        true_to_terrain(w, f),
    ensures
        same_blocks(
            w,
            w.after_generated(f, cam, c, faces, generated(f, origin_of(c))).0,
            f,
        ),
{
    let chunk = generated(f, origin_of(c));
    let w1 = w.after_arrival(cam, c, faces, chunk);
    let w2 = w1.after_own_mesh(f, c).0;
    lemma_neighbours_keep(w2, f, c, 4);
}

pub proof fn lemma_neighbours_keep<F: Fn(i32, i32) -> HeightField>(
    w: WorldView,
    f: F,
    c: ChunkCoord,
    k: int,
)
    ensures
        w.after_neighbours(f, c, k).0.stored_chunks == w.stored_chunks,
        w.after_neighbours(f, c, k).0.modified == w.modified,
        w.after_neighbours(f, c, k).0.gen_in_flight == w.gen_in_flight,
    decreases k,
{
    if k > 0 {
        lemma_neighbours_keep(w, f, c, k - 1);
    }
}

pub proof fn lemma_prep<F: Fn(i32, i32) -> HeightField>(
    w: WorldView,
    f: F,
    columns: Seq<(i32, i32)>,
    k: int,
)
    requires
        true_to_terrain(w, f),
        0 <= k <= columns.len(),
    ensures
        same_blocks(w, w.after_prep(f, columns, k), f),
        w.after_prep(f, columns, k).loaded == w.loaded,
        forall|i: int|
            0 <= i < k && w.loaded.contains(column_chunk(#[trigger] columns[i])) ==> w.after_prep(
                f,
                columns,
                k,
            ).stored_chunks.contains_key(column_chunk(columns[i])),
    decreases k,
{
    if k > 0 {
        lemma_prep(w, f, columns, k - 1);
        let before = w.after_prep(f, columns, k - 1);
        let after = w.after_prep(f, columns, k);
        let c = column_chunk(columns[k - 1]);
        assert forall|d: ChunkCoord| #[trigger] after.blocks(f, d) == w.blocks(f, d) by {
            assert(before.blocks(f, d) == w.blocks(f, d));
        }
    }
}

/// The chunk that holds a column of blocks.
pub open spec fn column_chunk(column: (i32, i32)) -> ChunkCoord {
    chunk_of(column.0 as int, column.1 as int)
}

/// After the player's surroundings were prepared, collisions there are with the blocks as they
/// are: a position in a loaded chunk under one of the columns is solid if and only if its block
/// is opaque. No block changes.
pub proof fn law_prepared_collisions<F: Fn(i32, i32) -> HeightField>(
    w: WorldView,
    f: F,
    columns: Seq<(i32, i32)>,
    i: int,
    p: BlockPos,
)
    requires
        w.wf(),
        true_to_terrain(w, f),
        0 <= i < columns.len(),
        home(p) == column_chunk(columns[i]),
        w.loaded.contains(home(p)),
        in_height(p.y as int),
    ensures
        w.after_prep(f, columns, columns.len() as int).solid(p) == opaque(w.block(f, p)),
        same_blocks(w, w.after_prep(f, columns, columns.len() as int), f),
{
    lemma_prep(w, f, columns, columns.len() as int);
    let after = w.after_prep(f, columns, columns.len() as int);
    assert(after.stored_chunks.contains_key(column_chunk(columns[i])));
    assert(after.blocks(f, home(p)) == w.blocks(f, home(p)));
}

// ── Rays ─────────────────────────────────────────────────────────────────────

/// A ray goes from block to block: the next one lies beside the last, along the axis that the path
/// names and the way that `step` says.
pub proof fn law_ray_steps(start: BlockPos, step: BlockPos, path: Seq<Axis>, k: int)
    requires
        ray_fits(start, step, path.len() as int),
        0 <= k <= path.len(),
    ensures
        ({
            let now = ray_at(start, step, path, k);
            &&& k == 0 ==> now == start
            &&& k > 0 ==> {
                let last = ray_at(start, step, path, k - 1);
                &&& now.x - last.x == if path[k - 1] == Axis::X {
                    step.x as int
                } else {
                    0
                }
                &&& now.y - last.y == if path[k - 1] == Axis::Y {
                    step.y as int
                } else {
                    0
                }
                &&& now.z - last.z == if path[k - 1] == Axis::Z {
                    step.z as int
                } else {
                    0
                }
            }
        }),
        start.x - k <= ray_at(start, step, path, k).x <= start.x + k,
        start.y - k <= ray_at(start, step, path, k).y <= start.y + k,
        start.z - k <= ray_at(start, step, path, k).z <= start.z + k,
    decreases k,
{
    if k > 0 {
        law_ray_steps(start, step, path, k - 1);
    }
}

/// The face through which a ray enters a block looks back to where the ray came from: the block
/// that was entered and the normal of the face lead to the block before. At the start there is no
/// such face.
pub proof fn law_ray_face(start: BlockPos, step: BlockPos, path: Seq<Axis>, k: int)
    requires
        ray_fits(start, step, path.len() as int),
        0 <= k <= path.len(),
    ensures
        ({
            let p = ray_at(start, step, path, k);
            let n = entry_normal(step, path, k);
            &&& k == 0 ==> n.x == 0 && n.y == 0 && n.z == 0
            &&& k > 0 ==> {
                let last = ray_at(start, step, path, k - 1);
                p.x + n.x == last.x && p.y + n.y == last.y && p.z + n.z == last.z
            }
        }),
{
    law_ray_steps(start, step, path, k);
}

/// A ray is stopped by any block but air and water, and by nothing above or below the world.
pub proof fn law_ray_stops<F: Fn(i32, i32) -> HeightField>(
    w: WorldView,
    f: F,
    start: BlockPos,
    step: BlockPos,
    path: Seq<Axis>,
    k: int,
)
    ensures
        ({
            let p = ray_at(start, step, path, k);
            ray_hits(w, f, start, step, path, k) <==> 0 <= p.y < 256 && w.block(f, p).0 != 0
                && w.block(f, p).0 != 4
        }),
{
}

/// A block of a chunk that nothing is kept of is the terrain's: that of its place in the chunk that
/// holds it, which starts at a multiple of 32 along both axes.
pub proof fn law_block_of_terrain<F: Fn(i32, i32) -> HeightField>(
    w: WorldView,
    f: F,
    p: BlockPos,
    cx: i32,
    cz: i32,
    x: int,
    z: int,
)
    requires
        p.x == 32 * cx + x,
        p.z == 32 * cz + z,
        0 <= x < 32,
        0 <= z < 32,
        -0x400_0000 <= cx < 0x400_0000,
        -0x400_0000 <= cz < 0x400_0000,
    ensures
        ({
            let c = ChunkCoord { x: cx, z: cz };
            let origin = BlockPos { x: (32 * cx) as i32, y: 0, z: (32 * cz) as i32 };
            w.block(f, p) == (if w.stored_chunks.contains_key(c) {
                w.stored_chunks[c].at(x, p.y as int, z)
            } else {
                generated(f, origin).at(x, p.y as int, z)
            })
        }),
{
    assert(p.x as int / 32 == cx && p.x as int % 32 == x);
    assert(p.z as int / 32 == cz && p.z as int % 32 == z);
}

/// A position is solid below the world and open above it. In between it is solid where the blocks
/// of its chunk are kept and the one there is neither air nor water.
pub proof fn law_solid(w: WorldView, p: BlockPos, cx: i32, cz: i32, x: int, z: int)
    requires
        p.x == 32 * cx + x,
        p.z == 32 * cz + z,
        0 <= x < 32,
        0 <= z < 32,
    ensures
        ({
            let c = ChunkCoord { x: cx, z: cz };
            let id = w.stored_chunks[c].at(x, p.y as int, z);
            w.solid(p) <==> p.y < 0 || (p.y < 256 && w.stored_chunks.contains_key(c) && id.0 != 0
                && id.0 != 4)
        }),
{
    assert(p.x as int / 32 == cx && p.x as int % 32 == x);
    assert(p.z as int / 32 == cz && p.z as int % 32 == z);
}

// ── Meshing ──────────────────────────────────────────────────────────────────

/// What a generated chunk sets free can be meshed: no chunk is given out while one of its
/// neighbours is being generated.
pub proof fn law_given_out_complete<F: Fn(i32, i32) -> HeightField>(
    w: WorldView,
    f: F,
    cam: ChunkCoord,
    c: ChunkCoord,
    faces: ChunkFaceData,
    chunk: ChunkView,
    i: int,
)
    requires
        0 <= i < w.after_generated(f, cam, c, faces, chunk).1.len(),
    ensures
        can_mesh_in(
            w.after_generated(f, cam, c, faces, chunk).1[i].coord,
            w.after_generated(f, cam, c, faces, chunk).0.gen_in_flight,
        ),
{
    let w1 = w.after_arrival(cam, c, faces, chunk);
    let (w2, own) = w1.after_own_mesh(f, c);
    lemma_neighbours_keep(w2, f, c, 4);
    lemma_neighbour_tasks(w2, f, c, 4);
    let others = w2.after_neighbours(f, c, 4).1;
    let all = own + others;
    if i >= own.len() {
        assert(all[i] == others[i - own.len()]);
    }
}

proof fn lemma_neighbour_tasks<F: Fn(i32, i32) -> HeightField>(
    w: WorldView,
    f: F,
    c: ChunkCoord,
    k: int,
)
    ensures
        forall|i: int|
            0 <= i < w.after_neighbours(f, c, k).1.len() ==> w.ready(
                (#[trigger] w.after_neighbours(f, c, k).1[i]).coord,
            ),
    decreases k,
{
    if k > 0 {
        lemma_neighbour_tasks(w, f, c, k - 1);
        let before = w.after_neighbours(f, c, k - 1).1;
        let after = w.after_neighbours(f, c, k).1;
        assert forall|i: int| 0 <= i < after.len() implies w.ready((#[trigger] after[i]).coord) by {
            if i < before.len() {
                assert(after[i] == before[i]);
            }
        }
    }
}

/// The same holds of chunks that waited: those that are given out have all neighbours they need.
pub proof fn law_unblocked_complete<F: Fn(i32, i32) -> HeightField>(
    w: WorldView,
    f: F,
    tasks: Seq<TaskView>,
    i: int,
)
    requires
        w.gives_out(f, w.unblocked().difference(w.mesh_in_flight), tasks),
        0 <= i < tasks.len(),
    ensures
        can_mesh_in(tasks[i].coord, w.gen_in_flight),
        !w.mesh_in_flight.contains(tasks[i].coord),
{
}

/// Taking chunks from the queue never puts more of them on their way than four for each thread,
/// or 16, unless there were more already.
pub proof fn law_spawns_throttled(w: WorldView, threads: int)
    ensures
        ({
            let queued = w.spawn_queue.len() as int;
            let before = if w.gen_in_flight.len() > queued {
                w.gen_in_flight.len() - queued
            } else {
                0
            };
            let target = if threads * 4 > 16 {
                threads * 4
            } else {
                16
            };
            0 <= w.spawn_count(threads) <= queued && before + w.spawn_count(threads) <= if before
                > target {
                before
            } else {
                target
            }
        }),
{
}

// ── Slots ────────────────────────────────────────────────────────────────────

/// While a batch is made and is on its way, the slots that are drawn do not change: the old mesh
/// of a chunk stays visible until the new one is there.
pub proof fn law_old_mesh_stays(w: WorldView, plan: PlanView, cam: ChunkCoord, stage: AllocStage)
    requires
        w.arenas is Some,
    ensures
        w.upload_step(plan, cam, stage).0.chunk_allocs == w.chunk_allocs,
        w.upload_step(plan, cam, stage).0.cpu_meshes == w.cpu_meshes,
{
}

proof fn lemma_commit_slot(
    w: WorldView,
    slots: Seq<(ChunkCoord, usize, ChunkSlot)>,
    i: int,
    k: int,
)
    requires
        0 <= i < k <= slots.len(),
        forall|j: int| 0 <= j < slots.len() ==> (#[trigger] slots[j]).1 < 3,
        forall|j: int|
            i < j < k ==> (#[trigger] slots[j]).0 != slots[i].0 || slots[j].1 != slots[i].1,
    ensures
        w.after_commit(slots, k).slot_of(slots[i].0, slots[i].1 as int) == Some(slots[i].2),
    decreases k,
{
    let last = slots[k - 1];
    assert(last.1 < 3);
    assert(slots[i].1 < 3);
    if i < k - 1 {
        lemma_commit_slot(w, slots, i, k - 1);
        assert(slots[k - 1].0 != slots[i].0 || slots[k - 1].1 != slots[i].1);
    }
}

/// When a batch is done, its meshes are those that are drawn: each slot of the batch is the
/// current one, unless the batch has a later one for the same mesh.
pub proof fn law_batch_current(w: WorldView, i: int)
    requires
        w.batch matches Some(b) && 0 <= i < b.slots.len() && (forall|j: int|
            0 <= j < b.slots.len() ==> (#[trigger] b.slots[j]).1 < 3) && (forall|j: int|
            i < j < b.slots.len() ==> (#[trigger] b.slots[j]).0 != b.slots[i].0 || b.slots[j].1
                != b.slots[i].1),
    ensures
        ({
            let (c, lod, s) = w.batch->0.slots[i];
            w.after_batch().slot_of(c, lod as int) == Some(s)
        }),
        w.after_batch().batch is None,
{
    let slots = w.batch->0.slots;
    let base = WorldView { batch: None, ..w };
    lemma_commit_slot(base, slots, i, slots.len() as int);
    lemma_commit_batch(base, slots, slots.len() as int);
}

pub proof fn lemma_commit_batch(
    w: WorldView,
    slots: Seq<(ChunkCoord, usize, ChunkSlot)>,
    k: int,
)
    ensures
        w.after_commit(slots, k).stored_chunks == w.stored_chunks,
        w.after_commit(slots, k).modified == w.modified,
        w.after_commit(slots, k).batch == w.batch,
        w.after_commit(slots, k).freed_third == w.freed_third,
    decreases k,
{
    if k > 0 {
        lemma_commit_batch(w, slots, k - 1);
    }
}

/// The entries of a batch lie in the staging buffers one behind the other.
pub open spec fn packed(plan: PlanView) -> bool {
    &&& forall|i: int|
        0 <= i < plan.entries.len() ==> (#[trigger] plan.entries[i]).vb_stage
            + plan.entries[i].slot.vb_size == (if i + 1 < plan.entries.len() {
            plan.entries[i + 1].vb_stage as int
        } else {
            plan.vb_total
        })
    &&& forall|i: int|
        0 <= i < plan.entries.len() ==> (#[trigger] plan.entries[i]).ib_stage
            + plan.entries[i].slot.ib_size == (if i + 1 < plan.entries.len() {
            plan.entries[i + 1].ib_stage as int
        } else {
            plan.ib_total
        })
    &&& plan.entries.len() > 0 ==> plan.entries[0].vb_stage == 0 && plan.entries[0].ib_stage == 0
    &&& plan.entries.len() == 0 ==> plan.vb_total == 0 && plan.ib_total == 0
}

proof fn lemma_packed_push(p: PlanView, q: PlanView, e: UploadEntry)
    requires
        packed(p),
        q.entries == p.entries.push(e),
        e.vb_stage == p.vb_total,
        e.ib_stage == p.ib_total,
        q.vb_total == p.vb_total + e.slot.vb_size,
        q.ib_total == p.ib_total + e.slot.ib_size,
    ensures
        packed(q),
{
    let n = p.entries.len() as int;
    assert forall|i: int| 0 <= i < q.entries.len() implies (#[trigger] q.entries[i]).vb_stage
        + q.entries[i].slot.vb_size == (if i + 1 < q.entries.len() {
        q.entries[i + 1].vb_stage as int
    } else {
        q.vb_total
    }) && q.entries[i].ib_stage + q.entries[i].slot.ib_size == (if i + 1 < q.entries.len() {
        q.entries[i + 1].ib_stage as int
    } else {
        q.ib_total
    }) by {
        if i < n {
            assert(q.entries[i] == p.entries[i]);
            if i + 1 < n {
                assert(q.entries[i + 1] == p.entries[i + 1]);
            }
        }
    }
    if n > 0 {
        assert(q.entries[0] == p.entries[0]);
    }
}

proof fn lemma_totals(plan: PlanView, a: ArenasView)
    requires
        plan.wf(a),
    ensures
        0 <= plan.vb_total <= u64::MAX,
        0 <= plan.ib_total <= u64::MAX,
{
    let n = plan.entries.len();
    assert(n <= 192);
    assert(plan.vb_total <= 192 * max_vb_size()) by (nonlinear_arith)
        requires
            plan.vb_total <= n * max_vb_size(),
            0 <= n <= 192,
            max_vb_size() >= 0,
    ;
    assert(plan.ib_total <= 192 * max_ib_size()) by (nonlinear_arith)
        requires
            plan.ib_total <= n * max_ib_size(),
            0 <= n <= 192,
            max_ib_size() >= 0,
    ;
}

/// Making a batch keeps its entries packed in the staging buffers.
pub proof fn law_staging_packed(
    w: WorldView,
    plan: PlanView,
    cam: ChunkCoord,
    stage: AllocStage,
)
    requires
        w.arenas is Some,
        plan.wf(w.arenas->0),
        packed(plan),
    ensures
        packed(w.upload_step(plan, cam, stage).1),
{
    let after = w.upload_step(plan, cam, stage).1;
    if plan.item is Some && plan.vb is Some {
        let item = plan.item->0;
        assert(item_ok(item));
        lemma_totals(plan, w.arenas->0);
        if let AllocStep::Placed(ib_off) = w.alloc_step(false, item.ib_size as int, stage).0 {
            let mid = w.alloc_step(false, item.ib_size as int, stage).1;
            let e = mid.placed(plan, item, plan.vb->0, ib_off).entries.last();
            lemma_packed_push(plan, after, e);
        }
    }
}

} // verus!
