//! What the operations on the world are for.

use super::frame::{Arrival, Meshed};
use super::interact::{all_but, home, side_order, without};
use super::scan::{lists, opt_seq, slots_in, slots_to};
use super::stream::{can_mesh_in, camera_chunk, masks_at, neighbour_of};
use super::upload::{
    batch_of, first_for, old_slots_to, with_slot, PlanView, UploadAction, UploadEntry,
    UploadItem, Verdict,
};
use super::{arena_cap, arena_of, AllocStage, AllocStep};
use crate::meshing::lods::{lods_of, LodView};
use crate::render::arena::lemma_doubled_to;
use crate::render::mesh::{draw_of, ChunkSlot};
use crate::world::block::{opaque, BlockId};
use crate::world::chunk::ChunkView;
use crate::world::coords::{in_world, law_distance2, BlockPos, ChunkCoord};
use crate::world::grid::{lemma_filter_from, lemma_filter_has, lemma_push_contains, near};
use crate::world::neighbor::{face_data_of, faces_of, solid_in, ChunkFaceData};
use crate::world::state::{nearest_first, WorldView};
use crate::world::terrain::{generated, HeightField};
use vstd::prelude::*;

verus! {

/// Two chunks are no more than `r` apart along both axes.
pub open spec fn within(a: ChunkCoord, b: ChunkCoord, r: int) -> bool {
    -r <= a.x - b.x <= r && -r <= a.z - b.z <= r
}

// ── Drawing ──────────────────────────────────────────────────────────────────

/// The slot that the ground of a chunk is drawn from: near the camera that of the full mesh, farther
/// away that of the surface, and the other one where that is missing. A chunk without a mesh or
/// without slots is not drawn.
pub open spec fn ground_from(w: WorldView, cam: ChunkCoord, c: ChunkCoord, s: ChunkSlot) -> bool {
    let a = w.chunk_allocs[c];
    let near = within(c, cam, w.lod1_dist - 1);
    &&& w.cpu_meshes.contains_key(c)
    &&& w.chunk_allocs.contains_key(c)
    &&& near && a[0] is Some ==> a[0] == Some(s)
    &&& near && a[0] is None ==> a[1] == Some(s)
    &&& !near && a[1] is Some ==> a[1] == Some(s)
    &&& !near && a[1] is None ==> a[0] == Some(s)
}

/// The slot that the water of a chunk is drawn from.
pub open spec fn water_from(w: WorldView, c: ChunkCoord, s: ChunkSlot) -> bool {
    &&& w.cpu_meshes.contains_key(c)
    &&& w.chunk_allocs.contains_key(c)
    &&& w.chunk_allocs[c][2] == Some(s)
}

/// Each visible chunk that has a slot for its ground is drawn from it.
pub proof fn law_ground_drawn(w: WorldView, cam: ChunkCoord, list: Seq<ChunkCoord>, k: int, i: int, s: ChunkSlot)
    requires
        0 <= i < k <= list.len(),
        ground_from(w, cam, list[i], s),
    ensures
        w.ground_draws(cam, list, k).contains(draw_of(s)),
    decreases k,
{
    let before = w.ground_draws(cam, list, k - 1);
    let now = w.ground_draws(cam, list, k);
    if i < k - 1 {
        law_ground_drawn(w, cam, list, k - 1, i, s);
        let j = choose|j: int| 0 <= j < before.len() && before[j] == draw_of(s);
        assert(now[j] == draw_of(s));
    } else {
        assert(now[before.len() as int] == draw_of(s));
    }
}

/// Nothing else is drawn as ground, and no chunk more than once.
pub proof fn law_ground_only(w: WorldView, cam: ChunkCoord, list: Seq<ChunkCoord>, k: int, j: int)
    requires
        0 <= k <= list.len(),
        0 <= j < w.ground_draws(cam, list, k).len(),
    ensures
        w.ground_draws(cam, list, k).len() <= k,
        exists|i: int, s: ChunkSlot|
            0 <= i < k && #[trigger] ground_from(w, cam, list[i], s) && w.ground_draws(cam, list, k)[j]
                == draw_of(s),
    decreases k,
{
    let before = w.ground_draws(cam, list, k - 1);
    if j < before.len() {
        law_ground_only(w, cam, list, k - 1, j);
        let (i, s) = choose|i: int, s: ChunkSlot|
            0 <= i < k - 1 && #[trigger] ground_from(w, cam, list[i], s) && before[j] == draw_of(s);
        assert(ground_from(w, cam, list[i], s));
    } else {
        let c = list[k - 1];
        let a = w.chunk_allocs[c];
        let near = within(c, cam, w.lod1_dist - 1);
        let s = if near {
            if a[0] is Some {
                a[0]->0
            } else {
                a[1]->0
            }
        } else if a[1] is Some {
            a[1]->0
        } else {
            a[0]->0
        };
        assert(ground_from(w, cam, list[k - 1], s));
        if k > 1 && before.len() > 0 {
            law_ground_only(w, cam, list, k - 1, 0);
        }
    }
}

/// Each visible chunk that has a slot for its water is drawn from it.
pub proof fn law_water_drawn(w: WorldView, list: Seq<ChunkCoord>, k: int, i: int, s: ChunkSlot)
    requires
        0 <= i < k <= list.len(),
        water_from(w, list[i], s),
    ensures
        w.water_draws(list, k).contains(draw_of(s)),
    decreases k,
{
    let before = w.water_draws(list, k - 1);
    let now = w.water_draws(list, k);
    if i < k - 1 {
        law_water_drawn(w, list, k - 1, i, s);
        let j = choose|j: int| 0 <= j < before.len() && before[j] == draw_of(s);
        assert(now[j] == draw_of(s));
    } else {
        assert(now[before.len() as int] == draw_of(s));
    }
}

/// Nothing else is drawn as water, and no chunk more than once.
pub proof fn law_water_only(w: WorldView, list: Seq<ChunkCoord>, k: int, j: int)
    requires
        0 <= k <= list.len(),
        0 <= j < w.water_draws(list, k).len(),
    ensures
        w.water_draws(list, k).len() <= k,
        exists|i: int, s: ChunkSlot|
            0 <= i < k && #[trigger] water_from(w, list[i], s) && w.water_draws(list, k)[j]
                == draw_of(s),
    decreases k,
{
    let before = w.water_draws(list, k - 1);
    if j < before.len() {
        law_water_only(w, list, k - 1, j);
        let (i, s) = choose|i: int, s: ChunkSlot|
            0 <= i < k - 1 && #[trigger] water_from(w, list[i], s) && before[j] == draw_of(s);
        assert(water_from(w, list[i], s));
    } else {
        let s = w.chunk_allocs[list[k - 1]][2]->0;
        assert(water_from(w, list[k - 1], s));
        if k > 1 && before.len() > 0 {
            law_water_only(w, list, k - 1, 0);
        }
    }
}

// ── Uploading ────────────────────────────────────────────────────────────────

/// A mesh of a chunk is uploaded if it has vertices, but for the full mesh of a chunk that is not
/// near the camera. It takes 36 bytes for a vertex and 4 bytes for an index.
pub proof fn law_wanted(w: WorldView, coords: Seq<ChunkCoord>, cam: ChunkCoord, i: int, lod: int)
    requires
        0 <= i < coords.len(),
        0 <= lod < 3,
        w.cpu_meshes.contains_key(coords[i]) ==> w.cpu_meshes[coords[i]].wf(),
    ensures
        ({
            let c = coords[i];
            let m = w.cpu_meshes[c];
            let mesh = if lod == 0 {
                m.full
            } else if lod == 1 {
                m.surface
            } else {
                m.water
            };
            let wanted = w.wanted(coords, cam, 3 * i + lod);
            &&& wanted is Some <==> w.cpu_meshes.contains_key(c) && mesh.vertices.len() > 0 && (lod
                == 0 ==> within(c, cam, w.lod1_dist - 1))
            &&& wanted matches Some(item) ==> item.coord == c && item.lod == lod && item.vb_size == 36
                * mesh.vertices.len() && item.ib_size == 4 * mesh.indices.len() && item.index_count
                == mesh.indices.len()
        }),
{
    assert((3 * i + lod) / 3 == i && (3 * i + lod) % 3 == lod);
}

/// No mesh is passed over that is to be uploaded.
pub proof fn law_next_wanted(w: WorldView, coords: Seq<ChunkCoord>, cam: ChunkCoord, p: int, q: int)
    requires
        0 <= p <= 3 * coords.len(),
    ensures
        ({
            let r = w.next_wanted(coords, cam, p);
            &&& p <= r <= 3 * coords.len()
            &&& r < 3 * coords.len() ==> w.wanted(coords, cam, r) is Some
            &&& p <= q < r ==> w.wanted(coords, cam, q) is None
        }),
    decreases 3 * coords.len() - p,
{
    if p < 3 * coords.len() && w.wanted(coords, cam, p) is None {
        law_next_wanted(w, coords, cam, p + 1, q);
    }
}

/// A batch takes the first chunks of the queue, up to 64, and leaves the others in their order.
pub proof fn law_begin_upload(w: WorldView)
    ensures
        ({
            let (after, plan) = w.after_begin_upload();
            &&& plan.coords + after.upload_queue == w.upload_queue
            &&& plan.coords.len() <= 64
            &&& plan.coords.len() == 64 || after.upload_queue.len() == 0
            &&& plan.entries.len() == 0 && plan.next == 0 && plan.item is None && plan.vb is None
            &&& plan.vb_total == 0 && plan.ib_total == 0
            &&& after == (WorldView { upload_queue: after.upload_queue, ..w })
        }),
{
    let (after, plan) = w.after_begin_upload();
    assert(plan.coords + after.upload_queue =~= w.upload_queue);
}

/// A mesh for which there is room is the last of its batch. Its slot is where the room is, it knows
/// the slot that the chunk is drawn from now, and it is staged behind the others.
pub proof fn law_placed(w: WorldView, plan: PlanView, item: UploadItem, vb_off: usize, ib_off: usize)
    requires
        item.lod < 3,
        item.index_count <= u32::MAX,
        4 * item.index_count <= usize::MAX,
        0 <= plan.vb_total <= u64::MAX,
        0 <= plan.ib_total <= u64::MAX,
    ensures
        ({
            let after = w.placed(plan, item, vb_off, ib_off);
            let e = after.entries.last();
            &&& after.entries.drop_last() == plan.entries
            &&& e.coord == item.coord && e.lod == item.lod
            &&& e.slot.vb_offset == vb_off && e.slot.vb_size == item.vb_size
            &&& e.slot.ib_offset == ib_off && e.slot.ib_size == 4 * item.index_count
            &&& e.slot.index_count == item.index_count
            &&& e.old_slot == (if w.chunk_allocs.contains_key(item.coord) {
                w.chunk_allocs[item.coord][item.lod as int]
            } else {
                None
            })
            &&& e.vb_stage == plan.vb_total && e.ib_stage == plan.ib_total
            &&& after.vb_total == plan.vb_total + item.vb_size
            &&& after.ib_total == plan.ib_total + item.ib_size
            &&& after.item is None && after.vb is None
        }),
{
    let after = w.placed(plan, item, vb_off, ib_off);
    assert(after.entries.drop_last() =~= plan.entries);
}

/// A batch without meshes is given up, and so is one without staging buffers, with more than 128 MiB
/// of vertices or with more than 32 MiB of indices.
pub proof fn law_verdict(plan: PlanView, staging: bool)
    ensures
        plan.verdict(staging) == Verdict::Empty <==> plan.entries.len() == 0,
        plan.verdict(staging) == Verdict::NoStaging <==> plan.entries.len() > 0 && !staging,
        plan.verdict(staging) == Verdict::TooLarge <==> plan.entries.len() > 0 && staging && (
        plan.vb_total > 128 * 1024 * 1024 || plan.ib_total > 32 * 1024 * 1024),
        plan.verdict(staging) == Verdict::Ready <==> plan.entries.len() > 0 && staging
            && plan.vb_total <= 128 * 1024 * 1024 && plan.ib_total <= 32 * 1024 * 1024,
{
}

/// The chunks of a batch that was given up come before those that wait, unless their mesh is gone.
pub proof fn law_requeued(w: WorldView, coords: Seq<ChunkCoord>, c: ChunkCoord)
    ensures
        ({
            let after = w.after_requeue(coords);
            let n = after.upload_queue.len() - w.upload_queue.len();
            &&& 0 <= n <= coords.len()
            &&& after.upload_queue.skip(n) == w.upload_queue
            &&& after.upload_queue.take(n).contains(c) <==> coords.contains(c)
                && w.cpu_meshes.contains_key(c)
            &&& after == (WorldView { upload_queue: after.upload_queue, ..w })
        }),
{
    let keep = |d: ChunkCoord| w.cpu_meshes.contains_key(d);
    let front = coords.filter(keep);
    let after = w.after_requeue(coords);
    coords.lemma_filter_len(keep);
    assert(after.upload_queue.skip(front.len() as int) =~= w.upload_queue);
    assert(after.upload_queue.take(front.len() as int) =~= front);
    if coords.contains(c) && keep(c) {
        let i = choose|i: int| 0 <= i < coords.len() && coords[i] == c;
        lemma_filter_has(coords, keep, i);
    }
    if front.contains(c) {
        let i = choose|i: int| 0 <= i < front.len() && front[i] == c;
        lemma_filter_from(coords, keep, i);
    }
}

/// When a slot becomes current, it replaces that of its level of detail and no other.
pub proof fn law_with_slot(allocs: [Option<ChunkSlot>; 3], lod: int, slot: ChunkSlot, i: int)
    requires
        0 <= lod < 3,
        0 <= i < 3,
    ensures
        with_slot(allocs, lod, slot)[i] == if i == lod {
            Some(slot)
        } else {
            allocs[i]
        },
{
}

// ── Room ─────────────────────────────────────────────────────────────────────

/// Room is looked for as things are first; only if there is none, the GPU is waited for. Then all
/// that was given up is free; only if there is still none, the buffer grows, by what is needed at
/// least. If that is not enough, the search fails.
pub proof fn law_alloc_order(w: WorldView, vertices: bool, size: int)
    requires
        w.arenas is Some,
        0 < size,
        arena_of(w.arenas->0, vertices).cap >= 0,
        arena_of(w.after_flush().arenas->0, vertices).cap + size <= usize::MAX / 2,
        arena_of(w.after_flush().arenas->0, vertices).cap >= 0,
    ensures
        ({
            let arena = arena_of(w.arenas->0, vertices);
            let (step, after) = w.alloc_step(vertices, size, AllocStage::First);
            &&& step is Placed <==> arena.after_alloc(size).0 is Some
            &&& step is Stall <==> arena.after_alloc(size).0 is None
            &&& step is Stall ==> after == w
        }),
        ({
            let flushed = w.after_flush();
            let arena = arena_of(flushed.arenas->0, vertices);
            let (step, after) = w.alloc_step(vertices, size, AllocStage::Stalled);
            &&& after.freed_first.len() == 0 && after.freed_second.len() == 0
                && after.freed_third.len() == 0
            &&& step is Placed <==> arena.after_alloc(size).0 is Some
            &&& step matches AllocStep::Grow(n) ==> n >= arena.cap + size && n >= 2 * arena.cap
            &&& step is Placed || step is Grow
        }),
        w.alloc_step(vertices, size, AllocStage::GrowFailed) == (AllocStep::Failed, w),
{
    let cap = arena_of(w.after_flush().arenas->0, vertices).cap;
    lemma_doubled_to(1, cap + size);
}

/// Room that was found is taken from the arena it was looked for in, and from no other. It is looked
/// for in the arena as it is, in what is free when the GPU is idle, or in what a larger buffer has.
pub proof fn law_alloc_found(w: WorldView, vertices: bool, size: int, stage: AllocStage)
    requires
        w.arenas is Some,
    ensures
        ({
            let (step, after) = w.alloc_step(vertices, size, stage);
            let from = match stage {
                AllocStage::Stalled => w.after_flush().arenas->0,
                _ => w.arenas->0,
            };
            let own = if vertices {
                from.vb
            } else {
                from.ib
            };
            let arena = match stage {
                AllocStage::Grown(cap) => own.after_growth(cap as int),
                _ => own,
            };
            let (off, taken) = arena.after_alloc(size);
            &&& after.arenas is Some
            &&& vertices ==> after.arenas->0.ib == from.ib
            &&& !vertices ==> after.arenas->0.vb == from.vb
            &&& step matches AllocStep::Placed(at) ==> off == Some(at) && (if vertices {
                after.arenas->0.vb
            } else {
                after.arenas->0.ib
            }) == taken
            &&& step is Placed <==> !(stage is GrowFailed) && off is Some
            &&& stage is Grown && off is None ==> step is Failed
            &&& after.chunk_allocs == w.chunk_allocs && after.upload_queue == w.upload_queue
                && after.cpu_meshes == w.cpu_meshes
        }),
{
}

/// A batch is made mesh by mesh: the next one that is to be uploaded is picked, room is found for its
/// vertices, then for its indices, and then it is in the batch. One for which there is no room is
/// left out, and what was found for it is free again. When there is none left, the batch is closed.
pub proof fn law_upload_step(w: WorldView, plan: PlanView, cam: ChunkCoord, stage: AllocStage)
    requires
        w.arenas is Some,
        0 <= plan.next <= 3 * plan.coords.len(),
        plan.vb is Some ==> plan.item is Some,
    ensures
        ({
            let (after, next, action) = w.upload_step(plan, cam, stage);
            let size = if plan.vb is None {
                plan.item->0.vb_size as int
            } else {
                plan.item->0.ib_size as int
            };
            let (step, found) = w.alloc_step(plan.vb is None, size, stage);
            &&& next.coords == plan.coords
            &&& plan.item is None ==> after == w && next.entries == plan.entries && next.vb is None
            &&& plan.item is None && action == UploadAction::Close ==> next.item is None
                && forall|p: int|
                plan.next <= p < 3 * plan.coords.len() ==> #[trigger] w.wanted(plan.coords, cam, p)
                    is None
            &&& plan.item is None && action != UploadAction::Close ==> action
                == UploadAction::Continue && plan.next < next.next <= 3 * plan.coords.len()
                && next.item is Some && next.item == w.wanted(plan.coords, cam, next.next - 1)
                && forall|p: int|
                plan.next <= p < next.next - 1 ==> #[trigger] w.wanted(plan.coords, cam, p) is None
            &&& plan.item is Some ==> next.next == plan.next
            &&& plan.item is Some && step is Stall ==> action == UploadAction::Stall && next == plan
            &&& plan.item is Some && step is Grow ==> next == plan && action == if plan.vb is None {
                UploadAction::GrowVertices(step->Grow_0)
            } else {
                UploadAction::GrowIndices(step->Grow_0)
            }
            &&& plan.item is Some && step is Failed ==> action == UploadAction::Skipped
                && next.item is None && next.vb is None && next.entries == plan.entries
                && next.vb_total == plan.vb_total && next.ib_total == plan.ib_total
            &&& plan.vb is Some && step is Failed ==> after.arenas->0.vb
                == found.arenas->0.vb.after_free(
                plan.vb->0 as int,
                plan.item->0.vb_size as int,
            ) && after.arenas->0.ib == found.arenas->0.ib
            &&& plan.item is Some && plan.vb is None && step is Placed ==> action
                == UploadAction::Continue && next.vb == Some(step->Placed_0) && next.item
                == plan.item && next.entries == plan.entries
            &&& plan.vb is Some && step is Placed ==> action == UploadAction::Continue
                && next.entries.len() == plan.entries.len() + 1 && next.item is None && next.vb is None
                && next.entries.last().slot.vb_offset == plan.vb->0
                && next.entries.last().slot.ib_offset == step->Placed_0
        }),
{
    if plan.item is None {
        let p = w.next_wanted(plan.coords, cam, plan.next);
        assert forall|q: int| plan.next <= q < p implies #[trigger] w.wanted(plan.coords, cam, q)
            is None by {
            law_next_wanted(w, plan.coords, cam, plan.next, q);
        }
        law_next_wanted(w, plan.coords, cam, plan.next, plan.next);
    }
}

/// An arena is the smallest power of two that holds all chunks in sight, unless that is out of
/// bounds.
pub proof fn law_arena_cap(rd: int, per_chunk: int, lo: int, hi: int)
    requires
        1 <= lo <= hi,
    ensures
        ({
            let need = (2 * rd + 1) * (2 * rd + 1) * per_chunk;
            let r = arena_cap(rd, per_chunk, lo, hi);
            &&& lo <= r <= hi
            &&& r == hi || r >= need
            &&& r == lo || r == 1 || r < 2 * need
        }),
{
    let side = 2 * rd + 1;
    lemma_doubled_to(1, side * side * per_chunk);
}

// ── Streaming ────────────────────────────────────────────────────────────────

/// The camera's chunk is counted from zero: 32 blocks to a chunk, and those on either side of zero
/// belong to chunk zero.
pub proof fn law_camera_chunk(x: i32, z: i32)
    ensures
        ({
            let c = camera_chunk(x as int, z as int);
            &&& x >= 0 ==> 32 * c.x <= x < 32 * c.x + 32
            &&& x < 0 ==> 32 * c.x - 32 < x <= 32 * c.x
            &&& z >= 0 ==> 32 * c.z <= z < 32 * c.z + 32
            &&& z < 0 ==> 32 * c.z - 32 < z <= 32 * c.z
        }),
{
}

/// The neighbours of a chunk are those beside it: towards +X, -X, +Z and -Z.
pub proof fn law_neighbours(c: ChunkCoord)
    requires
        i32::MIN < c.x < i32::MAX,
        i32::MIN < c.z < i32::MAX,
    ensures
        neighbour_of(c, 0).x == c.x + 1 && neighbour_of(c, 0).z == c.z,
        neighbour_of(c, 1).x == c.x - 1 && neighbour_of(c, 1).z == c.z,
        neighbour_of(c, 2).x == c.x && neighbour_of(c, 2).z == c.z + 1,
        neighbour_of(c, 3).x == c.x && neighbour_of(c, 3).z == c.z - 1,
{
}

/// A chunk waits to be meshed exactly as long as one of the four chunks beside it is being
/// generated.
pub proof fn law_can_mesh(c: ChunkCoord, in_flight: Set<ChunkCoord>)
    requires
        i32::MIN < c.x < i32::MAX,
        i32::MIN < c.z < i32::MAX,
    ensures
        can_mesh_in(c, in_flight) <==> {
            &&& !in_flight.contains(ChunkCoord { x: (c.x + 1) as i32, z: c.z })
            &&& !in_flight.contains(ChunkCoord { x: (c.x - 1) as i32, z: c.z })
            &&& !in_flight.contains(ChunkCoord { x: c.x, z: (c.z + 1) as i32 })
            &&& !in_flight.contains(ChunkCoord { x: c.x, z: (c.z - 1) as i32 })
        },
{
    if can_mesh_in(c, in_flight) {
        assert(!in_flight.contains(neighbour_of(c, 0)));
        assert(!in_flight.contains(neighbour_of(c, 1)));
        assert(!in_flight.contains(neighbour_of(c, 2)));
        assert(!in_flight.contains(neighbour_of(c, 3)));
    }
}

/// What a chunk is told of its neighbours is what lies right behind its border: a mask that there
/// is has the opacity of the neighbour's blocks that touch it.
pub proof fn law_masks(
    faces: Map<ChunkCoord, ChunkFaceData>,
    c: ChunkCoord,
    d: ChunkCoord,
    blocks: ChunkView,
    y: int,
    l: int,
)
    requires
        i32::MIN < c.x < i32::MAX,
        i32::MIN < c.z < i32::MAX,
        0 <= y < 256,
        0 <= l < 32,
        faces.contains_key(d) ==> face_data_of(faces[d], blocks),
    ensures
        ({
            let m = masks_at(faces, c);
            &&& d.x == c.x + 1 && d.z == c.z ==> m.pos_x is Some == faces.contains_key(d) && (
            m.pos_x matches Some(k) ==> solid_in(k, y, l) == opaque(blocks.at(0, y, l)))
            &&& d.x == c.x - 1 && d.z == c.z ==> m.neg_x is Some == faces.contains_key(d) && (
            m.neg_x matches Some(k) ==> solid_in(k, y, l) == opaque(blocks.at(31, y, l)))
            &&& d.x == c.x && d.z == c.z + 1 ==> m.pos_z is Some == faces.contains_key(d) && (
            m.pos_z matches Some(k) ==> solid_in(k, y, l) == opaque(blocks.at(l, y, 0)))
            &&& d.x == c.x && d.z == c.z - 1 ==> m.neg_z is Some == faces.contains_key(d) && (
            m.neg_z matches Some(k) ==> solid_in(k, y, l) == opaque(blocks.at(l, y, 31)))
        }),
{
    law_neighbours(c);
    if faces.contains_key(d) {
        let f = faces[d];
        assert(solid_in(f.neg_x, y, l) == opaque(blocks.at(0, y, l)));
        assert(solid_in(f.pos_x, y, l) == opaque(blocks.at(31, y, l)));
        assert(solid_in(f.neg_z, y, l) == opaque(blocks.at(l, y, 0)));
        assert(solid_in(f.pos_z, y, l) == opaque(blocks.at(l, y, 31)));
    }
}

/// As many chunks are taken to be generated as there are, but so that no more than four for each
/// thread, or 16, are on their way.
pub proof fn law_spawns(w: WorldView, threads: int)
    requires
        threads >= 0,
    ensures
        ({
            let queued = w.spawn_queue.len() as int;
            let flying = w.gen_in_flight.len() - queued;
            let target = if 4 * threads > 16 {
                4 * threads
            } else {
                16
            };
            let n = w.spawn_count(threads);
            &&& 0 <= n <= queued
            &&& n == queued || n + flying >= target || flying < 0 && n >= target
            &&& n == 0 || flying < 0 || n + flying <= target
            &&& w.spawn_queue.take(n) + w.after_take(threads).spawn_queue == w.spawn_queue
            &&& w.after_take(threads).gen_in_flight == w.gen_in_flight
        }),
{
    let n = w.spawn_count(threads);
    assert(w.spawn_queue.take(n) + w.spawn_queue.skip(n) =~= w.spawn_queue);
}

/// A chunk is meshed from the blocks that are kept of it, which may have edits; else from those that
/// were generated; else from the terrain.
pub proof fn law_source<F: Fn(i32, i32) -> HeightField>(w: WorldView, f: F, c: ChunkCoord)
    requires
        -0x400_0000 <= c.x < 0x400_0000,
        -0x400_0000 <= c.z < 0x400_0000,
    ensures
        ({
            let t = w.task(f, c);
            &&& t.coord == c
            &&& t.neighbors == masks_at(w.face_data, c)
            &&& w.stored_chunks.contains_key(c) ==> t.chunk == w.stored_chunks[c]
            &&& !w.stored_chunks.contains_key(c) && w.pending_chunks.contains_key(c) ==> t.chunk
                == w.pending_chunks[c]
            &&& !w.stored_chunks.contains_key(c) && !w.pending_chunks.contains_key(c) ==> t.chunk
                == generated(f, BlockPos { x: (32 * c.x) as i32, y: 0, z: (32 * c.z) as i32 })
        }),
{
}

/// A chunk that was generated out of sight is dropped. One in sight is known to its neighbours from
/// then on, and its blocks are kept if it is within three chunks of the camera and none are kept of
/// it. It is meshed at once, unless a chunk beside it is being generated.
pub proof fn law_arrival<F: Fn(i32, i32) -> HeightField>(
    w: WorldView,
    f: F,
    cam: ChunkCoord,
    c: ChunkCoord,
    faces: ChunkFaceData,
    chunk: ChunkView,
)
    requires
        i32::MIN < c.x < i32::MAX,
        i32::MIN < c.z < i32::MAX,
    ensures
        ({
            let (after, tasks) = w.after_generated(f, cam, c, faces, chunk);
            let kept = w.stored_chunks.contains_key(c);
            let free = can_mesh_in(c, w.gen_in_flight.remove(c));
            &&& after.gen_in_flight == w.gen_in_flight.remove(c)
            &&& !within(c, cam, w.render_distance) ==> tasks.len() == 0 && after == (WorldView {
                gen_in_flight: after.gen_in_flight,
                ..w
            })
            &&& within(c, cam, w.render_distance) ==> {
                &&& after.face_data == w.face_data.insert(c, faces)
                &&& after.stored_chunks == if within(c, cam, 3) && !kept {
                    w.stored_chunks.insert(c, chunk)
                } else {
                    w.stored_chunks
                }
                &&& free ==> tasks.len() > 0 && tasks[0].coord == c && after.mesh_in_flight.contains(c)
                    && tasks[0].chunk == if kept {
                    w.stored_chunks[c]
                } else {
                    chunk
                }
                &&& !free ==> after.pending_mesh.contains(c) && after.pending_chunks.contains_key(c)
                    && after.pending_chunks[c] == chunk
            }
        }),
{
    if within(c, cam, w.render_distance) {
        let w1 = w.after_arrival(cam, c, faces, chunk);
        let (w2, own) = w1.after_own_mesh(f, c);
        lemma_beside(w2, f, c, 4);
    }
}

proof fn lemma_beside<F: Fn(i32, i32) -> HeightField>(w: WorldView, f: F, c: ChunkCoord, k: int)
    requires
        i32::MIN < c.x < i32::MAX,
        i32::MIN < c.z < i32::MAX,
        0 <= k <= 4,
    ensures
        ({
            let after = w.after_neighbours(f, c, k).0;
            &&& after.render_distance == w.render_distance
            &&& after.gen_in_flight == w.gen_in_flight
            &&& after.face_data == w.face_data
            &&& after.stored_chunks == w.stored_chunks
            &&& w.mesh_in_flight.contains(c) ==> after.mesh_in_flight.contains(c)
            &&& w.pending_mesh.contains(c) ==> after.pending_mesh.contains(c)
            &&& w.pending_chunks.contains_key(c) ==> after.pending_chunks.contains_key(c)
                && after.pending_chunks[c] == w.pending_chunks[c]
        }),
    decreases k,
{
    if k > 0 {
        lemma_beside(w, f, c, k - 1);
        law_neighbours(c);
    }
}

/// A mesh that was made of a chunk in sight is kept and queued to be uploaded behind the others. A
/// chunk that shows nothing counts as loaded as well. Out of sight a mesh is dropped.
pub proof fn law_meshed(w: WorldView, cam: ChunkCoord, c: ChunkCoord, lods: LodView)
    ensures
        ({
            let after = w.after_meshed(cam, c, lods);
            let seen = within(c, cam, w.render_distance);
            let shows = lods.full.vertices.len() > 0;
            &&& after.mesh_in_flight == w.mesh_in_flight.remove(c)
            &&& after.loaded == if seen {
                w.loaded.insert(c)
            } else {
                w.loaded
            }
            &&& after.cpu_meshes == if seen && shows {
                w.cpu_meshes.insert(c, lods)
            } else {
                w.cpu_meshes
            }
            &&& after.upload_queue == if seen && shows {
                w.upload_queue.push(c)
            } else {
                w.upload_queue
            }
            &&& after.chunk_allocs == w.chunk_allocs
        }),
{
}

/// When nothing is being generated, all chunks that wait are given out, but for those that are being
/// meshed or have a mesh. Those that wait for nothing are given out at any time.
pub proof fn law_waiting(w: WorldView, c: ChunkCoord)
    requires
        i32::MIN < c.x < i32::MAX,
        i32::MIN < c.z < i32::MAX,
    ensures
        w.stuck_given().contains(c) <==> w.gen_in_flight.len() == 0 && w.pending_mesh.contains(c)
            && !w.mesh_in_flight.contains(c) && !w.loaded.contains(c),
        w.unblocked_given().contains(c) <==> w.pending_mesh.contains(c) && can_mesh_in(
            c,
            w.gen_in_flight,
        ) && !w.mesh_in_flight.contains(c),
        w.stuck().contains(c) <==> w.gen_in_flight.len() == 0 && w.pending_mesh.contains(c),
        w.unblocked().contains(c) <==> w.pending_mesh.contains(c) && can_mesh_in(
            c,
            w.gen_in_flight,
        ),
{
}

/// Chunks that are given out wait no longer, and are being meshed.
pub proof fn law_given_out(w: WorldView, freed: Set<ChunkCoord>, given: Set<ChunkCoord>, c: ChunkCoord)
    ensures
        ({
            let after = w.after_spawns(freed, given);
            &&& after.pending_mesh.contains(c) <==> w.pending_mesh.contains(c) && !freed.contains(c)
            &&& after.mesh_in_flight.contains(c) <==> w.mesh_in_flight.contains(c) || given.contains(c)
            &&& after.loaded == w.loaded
        }),
{
}

// ── Moving ───────────────────────────────────────────────────────────────────

/// When the camera has entered another chunk, what is loaded is what was loaded and is in sight, and
/// something is being done for every other chunk in sight.
pub proof fn law_sight(
    w: WorldView,
    cam: ChunkCoord,
    gone: Seq<ChunkCoord>,
    missing: Seq<ChunkCoord>,
    queue: Seq<ChunkCoord>,
    detail: Seq<ChunkCoord>,
    c: ChunkCoord,
)
    requires
        lists(missing, w.before_queueing(cam, gone).missing(cam)),
    ensures
        ({
            let after = w.after_move(cam, gone, missing, queue, detail);
            &&& after.last_cam == cam
            &&& after.loaded.contains(c) <==> w.loaded.contains(c) && within(
                c,
                cam,
                w.render_distance,
            )
            &&& within(c, cam, w.render_distance) ==> after.loaded.contains(c)
                || after.gen_in_flight.contains(c) || after.pending_mesh.contains(c)
                || after.mesh_in_flight.contains(c)
        }),
{
    let mid = w.before_queueing(cam, gone);
    let after = w.after_move(cam, gone, missing, queue, detail);
    assert(mid.loaded =~= w.still_loaded(cam));
    if within(c, cam, w.render_distance) && mid.untouched(c) {
        assert(mid.missing(cam).contains(c));
        assert(missing.to_set().contains(c));
    }
}

/// New chunks are queued only if nothing was being done for them, and all of them are.
pub proof fn law_queued(
    w: WorldView,
    cam: ChunkCoord,
    gone: Seq<ChunkCoord>,
    missing: Seq<ChunkCoord>,
    c: ChunkCoord,
)
    requires
        lists(missing, w.before_queueing(cam, gone).missing(cam)),
    ensures
        ({
            let mid = w.before_queueing(cam, gone);
            missing.contains(c) <==> within(c, cam, w.render_distance) && !mid.loaded.contains(c)
                && !mid.gen_in_flight.contains(c) && !mid.pending_mesh.contains(c)
                && !mid.mesh_in_flight.contains(c)
        }),
{
    let mid = w.before_queueing(cam, gone);
    assert(missing.to_set().contains(c) <==> missing.contains(c));
    assert(mid.missing(cam).contains(c) <==> missing.contains(c));
}

/// What is far away is forgotten: two chunks past the border of sight, or at once where it is only
/// of use in sight. Blocks are kept within three chunks of the camera, and those with edits always.
pub proof fn law_forgotten(w: WorldView, cam: ChunkCoord, c: ChunkCoord)
    ensures
        ({
            let after = w.after_forget(cam);
            let rd = w.render_distance;
            &&& after.face_data.contains_key(c) <==> w.face_data.contains_key(c) && within(
                c,
                cam,
                rd + 2,
            )
            &&& after.pending_mesh.contains(c) <==> w.pending_mesh.contains(c) && within(c, cam, rd)
            &&& after.pending_chunks.contains_key(c) <==> w.pending_chunks.contains_key(c)
                && w.pending_mesh.contains(c) && within(c, cam, rd)
            &&& after.gen_in_flight.contains(c) <==> w.gen_in_flight.contains(c) && within(
                c,
                cam,
                rd + 2,
            )
            &&& after.mesh_in_flight.contains(c) <==> w.mesh_in_flight.contains(c) && within(
                c,
                cam,
                rd + 2,
            )
            &&& after.stored_chunks.contains_key(c) <==> w.stored_chunks.contains_key(c) && (within(
                c,
                cam,
                3,
            ) || w.modified.contains(c))
            &&& after.modified == w.modified
            &&& after.stored_chunks.contains_key(c) ==> after.stored_chunks[c] == w.stored_chunks[c]
            &&& after.face_data.contains_key(c) ==> after.face_data[c] == w.face_data[c]
        }),
{
}

/// What is left of the queue is what is near, in the same order.
pub proof fn law_queue_left(w: WorldView, cam: ChunkCoord, c: ChunkCoord)
    ensures
        w.after_forget(cam).spawn_queue.contains(c) <==> w.spawn_queue.contains(c) && within(
            c,
            cam,
            w.render_distance + 2,
        ),
{
    let keep = |d: ChunkCoord| near(cam, w.render_distance + 2).contains(d);
    let q = w.spawn_queue.filter(keep);
    assert(w.after_forget(cam).spawn_queue == q);
    if w.spawn_queue.contains(c) && keep(c) {
        let i = choose|i: int| 0 <= i < w.spawn_queue.len() && w.spawn_queue[i] == c;
        lemma_filter_has(w.spawn_queue, keep, i);
    }
    if q.contains(c) {
        let i = choose|i: int| 0 <= i < q.len() && q[i] == c;
        lemma_filter_from(w.spawn_queue, keep, i);
    }
}

/// The meshes and slots of chunks that are not loaded any longer are given up when a chunk goes out
/// of sight; if none does, nothing is. A slot that a mesh on its way replaces waits for that.
pub proof fn law_unloaded(w: WorldView, cam: ChunkCoord, gone: Seq<ChunkCoord>, c: ChunkCoord, lod: int)
    requires
        lists(gone, w.unloaded(cam)),
        0 <= lod < 3,
    ensures
        ({
            let after = w.after_unload(cam, gone);
            let all_stay = forall|d: ChunkCoord| #[trigger]
                w.loaded.contains(d) ==> within(d, cam, w.render_distance);
            let stays = w.loaded.contains(c) && within(c, cam, w.render_distance);
            &&& all_stay ==> after == w
            &&& !all_stay ==> {
                &&& after.cpu_meshes.contains_key(c) <==> w.cpu_meshes.contains_key(c) && stays
                &&& after.chunk_allocs.contains_key(c) <==> w.chunk_allocs.contains_key(c) && stays
                &&& stays && w.chunk_allocs.contains_key(c) ==> after.chunk_allocs[c]
                    == w.chunk_allocs[c]
                &&& after.upload_queue.contains(c) <==> w.upload_queue.contains(c) && stays
                &&& !stays && w.chunk_allocs.contains_key(c) && w.chunk_allocs[c][lod] is Some
                    && !w.on_its_way(c, lod) ==> after.freed_third.contains(
                    w.chunk_allocs[c][lod]->0,
                )
            }
        }),
{
    let kept = w.still_loaded(cam);
    let after = w.after_unload(cam, gone);
    let all_stay = forall|d: ChunkCoord| #[trigger]
        w.loaded.contains(d) ==> within(d, cam, w.render_distance);
    if all_stay {
        assert(kept =~= w.loaded);
    } else {
        let d = choose|d: ChunkCoord| #[trigger]
            w.loaded.contains(d) && !within(d, cam, w.render_distance);
        assert(!kept.contains(d));
        let keep = |d: ChunkCoord| kept.contains(d);
        let q = w.upload_queue.filter(keep);
        if w.upload_queue.contains(c) && keep(c) {
            let i = choose|i: int| 0 <= i < w.upload_queue.len() && w.upload_queue[i] == c;
            lemma_filter_has(w.upload_queue, keep, i);
        }
        if q.contains(c) {
            let i = choose|i: int| 0 <= i < q.len() && q[i] == c;
            lemma_filter_from(w.upload_queue, keep, i);
        }
        if !kept.contains(c) && w.chunk_allocs.contains_key(c) && w.chunk_allocs[c][lod] is Some
            && !w.on_its_way(c, lod) {
            assert(w.unloaded(cam).contains(c));
            assert(gone.to_set().contains(c));
            let i = choose|i: int| 0 <= i < gone.len() && gone[i] == c;
            let s = w.chunk_allocs[c][lod]->0;
            lemma_slots_has(w.leaving_allocs(), gone, gone.len() as int, i, lod);
            let slots = slots_to(w.leaving_allocs(), gone, gone.len() as int);
            assert(w.leaving_allocs()[c] == w.leaving(c));
            assert(lod == 0 || lod == 1 || lod == 2);
            assert(w.leaving(c)[lod] == Some(s));
            let k = choose|k: int| 0 <= k < slots.len() && slots[k] == s;
            assert(after.freed_third[w.freed_third.len() + k] == s);
        }
    }
}

proof fn lemma_slots_has(
    allocs: Map<ChunkCoord, [Option<ChunkSlot>; 3]>,
    list: Seq<ChunkCoord>,
    k: int,
    i: int,
    lod: int,
)
    requires
        0 <= i < k <= list.len(),
        0 <= lod < 3,
        allocs[list[i]][lod] is Some,
    ensures
        slots_to(allocs, list, k).contains(allocs[list[i]][lod]->0),
    decreases k,
{
    let before = slots_to(allocs, list, k - 1);
    let own = slots_in(allocs[list[k - 1]]);
    let s = allocs[list[i]][lod]->0;
    if i < k - 1 {
        lemma_slots_has(allocs, list, k - 1, i, lod);
        let j = choose|j: int| 0 <= j < before.len() && before[j] == s;
        assert((before + own)[j] == s);
    } else {
        let a = allocs[list[i]];
        let j: int = if lod == 0 {
            0
        } else if lod == 1 {
            opt_seq(a[0]).len() as int
        } else {
            (opt_seq(a[0]) + opt_seq(a[1])).len() as int
        };
        assert(lod == 0 || lod == 1 || lod == 2);
        assert(own[j] == s);
        assert((before + own)[before.len() + j] == s);
    }
}

/// Near chunks that have a mesh and slots but not their full mesh on the GPU are queued for it.
pub proof fn law_details(w: WorldView, cam: ChunkCoord, c: ChunkCoord)
    ensures
        w.undetailed(cam).contains(c) <==> within(c, cam, w.lod1_dist - 1)
            && w.chunk_allocs.contains_key(c) && w.chunk_allocs[c][0] is None
            && w.cpu_meshes.contains_key(c),
{
}

// ── Editing ──────────────────────────────────────────────────────────────────

/// A column of blocks belongs to a chunk.
pub open spec fn holds(c: ChunkCoord, x: int, z: int) -> bool {
    32 * c.x <= x < 32 * c.x + 32 && 32 * c.z <= z < 32 * c.z + 32
}

/// A chunk holds a block that is right beside a position of another chunk.
pub open spec fn touches(p: BlockPos, c: ChunkCoord) -> bool {
    &&& !holds(c, p.x as int, p.z as int)
    &&& holds(c, p.x + 1, p.z as int) || holds(c, p.x - 1, p.z as int) || holds(
        c,
        p.x as int,
        p.z + 1,
    ) || holds(c, p.x as int, p.z - 1)
}

/// A chunk was meshed anew from its blocks, or will be when the mesh that is being made of it is
/// done. A new mesh waits to be uploaded.
pub open spec fn renewed(before: WorldView, after: WorldView, blocks: ChunkView, c: ChunkCoord) -> bool {
    let lods = lods_of(blocks, masks_at(after.face_data, c));
    if before.mesh_in_flight.contains(c) {
        after.pending_remesh.contains(c)
    } else {
        &&& after.loaded.contains(c)
        &&& after.upload_queue.contains(c) <==> lods.full.vertices.len() > 0
        &&& lods.full.vertices.len() > 0 ==> after.cpu_meshes.contains_key(c)
            && after.cpu_meshes[c] == lods
    }
}

/// Nothing was done for a chunk.
pub open spec fn unmoved(before: WorldView, after: WorldView, c: ChunkCoord) -> bool {
    &&& after.loaded.contains(c) == before.loaded.contains(c)
    &&& after.pending_remesh.contains(c) == before.pending_remesh.contains(c)
    &&& after.upload_queue.contains(c) == before.upload_queue.contains(c)
    &&& after.cpu_meshes.contains_key(c) == before.cpu_meshes.contains_key(c)
    &&& after.cpu_meshes[c] == before.cpu_meshes[c]
    &&& after.pending_chunks.contains_key(c) == before.pending_chunks.contains_key(c)
    &&& after.pending_chunks[c] == before.pending_chunks[c]
}

/// What meshing leaves alone.
pub open spec fn same_blocks(before: WorldView, after: WorldView) -> bool {
    &&& after.stored_chunks == before.stored_chunks
    &&& after.modified == before.modified
    &&& after.face_data == before.face_data
    &&& after.mesh_in_flight == before.mesh_in_flight
    &&& after.gen_in_flight == before.gen_in_flight
    &&& after.chunk_allocs == before.chunk_allocs
    &&& after.batch == before.batch
}

/// When a block is set, the chunk that holds it is meshed anew, and so is each chunk behind its
/// border that the block touches, if it is known. Nothing else is. What neighbours are told of the
/// chunk is what it is now.
pub proof fn law_edit_renews<F: Fn(i32, i32) -> HeightField>(
    w: WorldView,
    f: F,
    p: BlockPos,
    id: BlockId,
    c: ChunkCoord,
)
    requires
        0 <= p.y < 256,
    ensures
        ({
            let after = w.after_set_block(f, p, id);
            let own = holds(c, p.x as int, p.z as int);
            &&& own ==> after.stored_chunks.contains_key(c) && after.modified.contains(c)
                && after.face_data.contains_key(c)
                && after.face_data[c] == faces_of(after.stored_chunks[c])
                && renewed(w, after, after.stored_chunks[c], c)
            &&& touches(p, c) && w.face_data.contains_key(c) ==> renewed(
                w,
                after,
                w.source(f, c),
                c,
            )
            &&& !own && !(touches(p, c) && w.face_data.contains_key(c)) ==> unmoved(w, after, c)
            &&& !own ==> after.stored_chunks.contains_key(c) == w.stored_chunks.contains_key(c)
                && after.face_data.contains_key(c) == w.face_data.contains_key(c)
                && after.modified.contains(c) == w.modified.contains(c)
            &&& after.mesh_in_flight == w.mesh_in_flight
            &&& after.chunk_allocs == w.chunk_allocs
            &&& after.batch == w.batch
        }),
{
    let h = home(p);
    let w0 = w.after_put(f, p, id);
    let w1 = w0.after_remesh(f, h);
    lemma_remeshed(w0, f, h, c);
    assert(holds(h, p.x as int, p.z as int));
    lemma_sides(w1, f, p, 4, c);
    assert(renewed(w0, w1, w0.stored_chunks[h], h)) by {
        lemma_remeshed(w0, f, h, h);
    }
    if holds(c, p.x as int, p.z as int) {
        assert(c == h);
    }
    assert(touches(p, c) <==> touches_to(p, 4, c)) by {
        lemma_touches(p, c);
    }
}

/// A chunk is one of the first `k` neighbours that a block touches.
spec fn touches_to(p: BlockPos, k: int, c: ChunkCoord) -> bool {
    let h = home(p);
    ||| k > 0 && p.x as int % 32 == 0 && c.x == h.x - 1 && c.z == h.z
    ||| k > 1 && p.x as int % 32 == 31 && c.x == h.x + 1 && c.z == h.z
    ||| k > 2 && p.z as int % 32 == 0 && c.x == h.x && c.z == h.z - 1
    ||| k > 3 && p.z as int % 32 == 31 && c.x == h.x && c.z == h.z + 1
}

proof fn lemma_touches(p: BlockPos, c: ChunkCoord)
    ensures
        touches(p, c) <==> touches_to(p, 4, c),
{
    let h = home(p);
    assert(32 * h.x + p.x as int % 32 == p.x);
    assert(32 * h.z + p.z as int % 32 == p.z);
}

proof fn lemma_remeshed<F: Fn(i32, i32) -> HeightField>(
    w: WorldView,
    f: F,
    d: ChunkCoord,
    c: ChunkCoord,
)
    ensures
        ({
            let after = w.after_remesh(f, d);
            &&& same_blocks(w, after)
            &&& renewed(w, after, w.source(f, d), d)
            &&& c != d ==> unmoved(w, after, c)
        }),
{
    let q = without(w.upload_queue, d);
    lemma_without_has(w.upload_queue, d, c);
    lemma_without_has(w.upload_queue, d, d);
    lemma_without_has(q, d, c);
    lemma_without_has(q, d, d);
    let front = seq![d] + without(q, d);
    assert(front[0] == d);
    if without(q, d).contains(c) {
        let i = choose|i: int| 0 <= i < without(q, d).len() && without(q, d)[i] == c;
        assert(front[i + 1] == c);
    }
    if front.contains(c) && c != d {
        let i = choose|i: int| 0 <= i < front.len() && front[i] == c;
        assert(without(q, d)[i - 1] == c);
    }
}

proof fn lemma_without_has(list: Seq<ChunkCoord>, d: ChunkCoord, c: ChunkCoord)
    ensures
        without(list, d).contains(c) <==> list.contains(c) && c != d,
{
    let r = without(list, d);
    if list.contains(c) && c != d {
        let i = choose|i: int| 0 <= i < list.len() && list[i] == c;
        lemma_filter_has(list, all_but(d), i);
    }
    if r.contains(c) {
        let i = choose|i: int| 0 <= i < r.len() && r[i] == c;
        lemma_filter_from(list, all_but(d), i);
    }
}

proof fn lemma_sides<F: Fn(i32, i32) -> HeightField>(
    w: WorldView,
    f: F,
    p: BlockPos,
    k: int,
    c: ChunkCoord,
)
    requires
        0 <= k <= 4,
    ensures
        ({
            let after = w.after_sides(f, p, k);
            &&& same_blocks(w, after)
            &&& touches_to(p, k, c) && w.face_data.contains_key(c) ==> renewed(
                w,
                after,
                w.source(f, c),
                c,
            )
            &&& !(touches_to(p, k, c) && w.face_data.contains_key(c)) ==> unmoved(w, after, c)
        }),
    decreases k,
{
    if k > 0 {
        lemma_sides(w, f, p, k - 1, c);
        let before = w.after_sides(f, p, k - 1);
        let d = neighbour_of(home(p), side_order(k - 1));
        law_neighbours(home(p));
        lemma_remeshed(before, f, d, c);
        lemma_remeshed(before, f, d, d);
        assert(k == 1 || k == 2 || k == 3 || k == 4);
    }
}

proof fn lemma_meshed_now<F: Fn(i32, i32) -> HeightField>(
    w: WorldView,
    f: F,
    d: ChunkCoord,
    c: ChunkCoord,
)
    requires
        !w.mesh_in_flight.contains(d),
    ensures
        ({
            let after = w.after_mesh_now(f, d);
            &&& same_blocks(w, after)
            &&& after.pending_remesh == w.pending_remesh
            &&& renewed(w, after, w.source(f, d), d)
            &&& c != d ==> unmoved(w, after, c)
        }),
{
    let q = without(w.upload_queue, d);
    lemma_without_has(w.upload_queue, d, c);
    lemma_without_has(w.upload_queue, d, d);
    let front = seq![d] + q;
    assert(front[0] == d);
    if q.contains(c) {
        let i = choose|i: int| 0 <= i < q.len() && q[i] == c;
        assert(front[i + 1] == c);
    }
    if front.contains(c) && c != d {
        let i = choose|i: int| 0 <= i < front.len() && front[i] == c;
        assert(q[i - 1] == c);
    }
}

/// Chunks whose old mesh is done are meshed anew, and no others. They need not be again.
pub proof fn law_renewed<F: Fn(i32, i32) -> HeightField>(
    w: WorldView,
    f: F,
    list: Seq<ChunkCoord>,
    k: int,
    c: ChunkCoord,
)
    requires
        0 <= k <= list.len(),
        list.no_duplicates(),
        list.to_set() == w.remeshable(),
    ensures
        ({
            let after = w.after_remeshes(f, list, k);
            let done = exists|i: int| 0 <= i < k && list[i] == c;
            &&& same_blocks(w, after)
            &&& done ==> w.pending_remesh.contains(c) && !w.mesh_in_flight.contains(c) && renewed(
                w,
                after,
                w.source(f, c),
                c,
            ) && !after.pending_remesh.contains(c)
            &&& !done ==> unmoved(w, after, c)
            &&& k == list.len() && !w.mesh_in_flight.contains(c) ==> !after.pending_remesh.contains(
                c,
            )
        }),
    decreases k,
{
    if k > 0 {
        law_renewed(w, f, list, k - 1, c);
        let before = w.after_remeshes(f, list, k - 1);
        let d = list[k - 1];
        assert(list.to_set().contains(d));
        let mid = WorldView { pending_remesh: before.pending_remesh.remove(d), ..before };
        lemma_meshed_now(mid, f, d, c);
        if c == d {
            assert(forall|i: int| 0 <= i < k - 1 ==> list[i] != c);
            assert(unmoved(w, before, c));
        }
        if exists|i: int| 0 <= i < k && list[i] == c {
            let i = choose|i: int| 0 <= i < k && list[i] == c;
            if i < k - 1 {
                assert(list[i] == c);
            }
        }
    }
    if k == list.len() && !w.mesh_in_flight.contains(c) && w.pending_remesh.contains(c) {
        assert(w.remeshable().contains(c));
        assert(list.to_set().contains(c));
        let i = choose|i: int| 0 <= i < list.len() && list[i] == c;
        assert(0 <= i < k && list[i] == c);
    }
}

// ── Batches ──────────────────────────────────────────────────────────────────

/// What a batch replaces is given up when it is done. The other meshes of all chunks stay where
/// they are.
pub proof fn law_batch_done(w: WorldView, c: ChunkCoord, lod: int)
    requires
        0 <= lod < 3,
        w.batch is Some,
        forall|j: int| 0 <= j < w.batch->0.slots.len() ==> (#[trigger] w.batch->0.slots[j]).1 < 3,
        forall|j: int|
            0 <= j < w.batch->0.slots.len() ==> (#[trigger] w.batch->0.slots[j]).0 != c
                || w.batch->0.slots[j].1 != lod,
    ensures
        w.after_batch().slot_of(c, lod) == w.slot_of(c, lod),
        w.after_batch().freed_third == w.freed_third + w.batch->0.old_slots,
        w.after_batch().batch is None,
        w.after_batch().loaded == w.loaded,
        w.after_batch().cpu_meshes == w.cpu_meshes,
        w.after_batch().arenas == w.arenas,
        w.after_batch().freed_first == w.freed_first,
        w.after_batch().freed_second == w.freed_second,
{
    let slots = w.batch->0.slots;
    lemma_not_in_batch(WorldView { batch: None, ..w }, slots, slots.len() as int, c, lod);
}

proof fn lemma_not_in_batch(
    w: WorldView,
    slots: Seq<(ChunkCoord, usize, ChunkSlot)>,
    k: int,
    c: ChunkCoord,
    lod: int,
)
    requires
        0 <= lod < 3,
        0 <= k <= slots.len(),
        forall|j: int| 0 <= j < slots.len() ==> (#[trigger] slots[j]).1 < 3,
        forall|j: int|
            0 <= j < slots.len() ==> (#[trigger] slots[j]).0 != c || slots[j].1 != lod,
    ensures
        ({
            let after = w.after_commit(slots, k);
            &&& after.slot_of(c, lod) == w.slot_of(c, lod)
            &&& after.batch == w.batch
            &&& after.loaded == w.loaded
            &&& after.cpu_meshes == w.cpu_meshes
            &&& after.arenas == w.arenas
            &&& after.freed_first == w.freed_first
            &&& after.freed_second == w.freed_second
            &&& after.freed_third == w.freed_third
        }),
    decreases k,
{
    if k > 0 {
        lemma_not_in_batch(w, slots, k - 1, c, lod);
        let (d, l, s) = slots[k - 1];
        assert(slots[k - 1].1 < 3);
        assert(slots[k - 1].0 != c || slots[k - 1].1 != lod);
    }
}

/// A batch holds the slots of its entries in their order, and gives up just those slots that an
/// entry replaces.
pub proof fn law_batch_of(entries: Seq<UploadEntry>, i: int)
    requires
        0 <= i < entries.len(),
        forall|a: int, b: int|
            0 <= a < entries.len() && 0 <= b < entries.len() && (#[trigger] entries[a]).coord == (
            #[trigger] entries[b]).coord && entries[a].lod == entries[b].lod ==> entries[a].old_slot
                == entries[b].old_slot,
    ensures
        batch_of(entries).slots.len() == entries.len(),
        batch_of(entries).slots[i] == (entries[i].coord, entries[i].lod, entries[i].slot),
        entries[i].old_slot matches Some(s) ==> batch_of(entries).old_slots.contains(s),
        forall|j: int|
            0 <= j < batch_of(entries).old_slots.len() ==> exists|k: int|
                0 <= k < entries.len() && (#[trigger] entries[k]).old_slot == Some(
                    #[trigger] batch_of(entries).old_slots[j],
                ),
{
    let n = entries.len() as int;
    lemma_old_from(entries, n);
    let f = lemma_first(entries, i);
    if entries[i].old_slot is Some {
        assert(entries[f].old_slot == entries[i].old_slot);
        lemma_old_has(entries, f, n);
    }
}

proof fn lemma_first(entries: Seq<UploadEntry>, i: int) -> (f: int)
    requires
        0 <= i < entries.len(),
    ensures
        0 <= f <= i,
        first_for(entries, f),
        entries[f].coord == entries[i].coord,
        entries[f].lod == entries[i].lod,
    decreases i,
{
    if first_for(entries, i) {
        i
    } else {
        let j = choose|j: int|
            0 <= j < i && (#[trigger] entries[j]).coord == entries[i].coord && entries[j].lod
                == entries[i].lod;
        lemma_first(entries, j)
    }
}

proof fn lemma_old_has(entries: Seq<UploadEntry>, f: int, k: int)
    requires
        0 <= f < k <= entries.len(),
        first_for(entries, f),
        entries[f].old_slot is Some,
    ensures
        old_slots_to(entries, k).contains(entries[f].old_slot->0),
    decreases k,
{
    let s = entries[f].old_slot->0;
    let before = old_slots_to(entries, k - 1);
    if f < k - 1 {
        lemma_old_has(entries, f, k - 1);
        let j = choose|j: int| 0 <= j < before.len() && before[j] == s;
        assert(old_slots_to(entries, k)[j] == s);
    } else {
        assert(before.push(s)[before.len() as int] == s);
    }
}

proof fn lemma_old_from(entries: Seq<UploadEntry>, k: int)
    requires
        0 <= k <= entries.len(),
    ensures
        forall|j: int|
            0 <= j < old_slots_to(entries, k).len() ==> exists|e: int|
                0 <= e < k && (#[trigger] entries[e]).old_slot == Some(
                    #[trigger] old_slots_to(entries, k)[j],
                ),
    decreases k,
{
    if k > 0 {
        lemma_old_from(entries, k - 1);
        let before = old_slots_to(entries, k - 1);
        let after = old_slots_to(entries, k);
        assert forall|j: int| 0 <= j < after.len() implies exists|e: int|
            0 <= e < k && (#[trigger] entries[e]).old_slot == Some(#[trigger] after[j]) by {
            if j < before.len() {
                let e = choose|e: int|
                    0 <= e < k - 1 && (#[trigger] entries[e]).old_slot == Some(before[j]);
                assert(entries[e].old_slot == Some(after[j]));
            } else {
                assert(entries[k - 1].old_slot == Some(after[j]));
            }
        }
    }
}

/// Only a batch that is too large gives back the room of its meshes. It and an empty one leave their
/// chunks to be tried again.
pub proof fn law_closed(w: WorldView, plan: PlanView)
    ensures
        w.after_close(plan, Verdict::Ready) == w,
        w.after_close(plan, Verdict::NoStaging) == w,
        w.after_close(plan, Verdict::Empty) == w.after_requeue(plan.coords),
        w.after_close(plan, Verdict::TooLarge).upload_queue == w.after_requeue(
            plan.coords,
        ).upload_queue,
        w.after_close(plan, Verdict::TooLarge).chunk_allocs == w.chunk_allocs,
{
}

/// A chunk beside one that was generated is given out if it waited and no other chunk beside it is
/// being generated. Nothing happens to the others.
pub proof fn law_arrival_frees<F: Fn(i32, i32) -> HeightField>(
    w: WorldView,
    f: F,
    cam: ChunkCoord,
    c: ChunkCoord,
    faces: ChunkFaceData,
    chunk: ChunkView,
    d: ChunkCoord,
)
    requires
        i32::MIN < c.x < i32::MAX,
        i32::MIN < c.z < i32::MAX,
        c != d,
        within(c, cam, w.render_distance),
    ensures
        ({
            let (after, tasks) = w.after_generated(f, cam, c, faces, chunk);
            let beside = d.x - c.x == 1 && d.z == c.z || d.x - c.x == -1 && d.z == c.z || d.x == c.x
                && d.z - c.z == 1 || d.x == c.x && d.z - c.z == -1;
            let freed = beside && w.pending_mesh.contains(d) && can_mesh_in(
                d,
                w.gen_in_flight.remove(c),
            );
            &&& after.pending_mesh.contains(d) <==> w.pending_mesh.contains(d) && !freed
            &&& after.mesh_in_flight.contains(d) <==> w.mesh_in_flight.contains(d) || freed
            &&& freed <==> exists|i: int| 0 <= i < tasks.len() && (#[trigger] tasks[i]).coord == d
        }),
{
    let w1 = w.after_arrival(cam, c, faces, chunk);
    let (w2, own) = w1.after_own_mesh(f, c);
    let (after, others) = w2.after_neighbours(f, c, 4);
    let tasks = own + others;
    law_neighbours(c);
    lemma_freed_beside(w2, f, c, d, 4);
    if exists|i: int| 0 <= i < others.len() && (#[trigger] others[i]).coord == d {
        let i = choose|i: int| 0 <= i < others.len() && (#[trigger] others[i]).coord == d;
        assert(tasks[own.len() + i].coord == d);
    }
    if exists|i: int| 0 <= i < tasks.len() && (#[trigger] tasks[i]).coord == d {
        let i = choose|i: int| 0 <= i < tasks.len() && (#[trigger] tasks[i]).coord == d;
        assert(i >= own.len());
        assert(others[i - own.len()].coord == d);
    }
}

proof fn lemma_freed_beside<F: Fn(i32, i32) -> HeightField>(
    w: WorldView,
    f: F,
    c: ChunkCoord,
    d: ChunkCoord,
    k: int,
)
    requires
        i32::MIN < c.x < i32::MAX,
        i32::MIN < c.z < i32::MAX,
        0 <= k <= 4,
    ensures
        ({
            let (after, tasks) = w.after_neighbours(f, c, k);
            let freed = w.ready(d) && (k > 0 && neighbour_of(c, 0) == d || k > 1 && neighbour_of(c, 1)
                == d || k > 2 && neighbour_of(c, 2) == d || k > 3 && neighbour_of(c, 3) == d);
            &&& after.pending_mesh.contains(d) <==> w.pending_mesh.contains(d) && !freed
            &&& after.mesh_in_flight.contains(d) <==> w.mesh_in_flight.contains(d) || freed
            &&& freed <==> exists|i: int| 0 <= i < tasks.len() && (#[trigger] tasks[i]).coord == d
        }),
    decreases k,
{
    if k > 0 {
        lemma_freed_beside(w, f, c, d, k - 1);
        law_neighbours(c);
        assert(k == 1 || k == 2 || k == 3 || k == 4);
        let (before, tasks) = w.after_neighbours(f, c, k - 1);
        let (after, more) = w.after_neighbours(f, c, k);
        let n = neighbour_of(c, k - 1);
        if exists|i: int| 0 <= i < tasks.len() && (#[trigger] tasks[i]).coord == d {
            let i = choose|i: int| 0 <= i < tasks.len() && (#[trigger] tasks[i]).coord == d;
            assert(more[i].coord == d);
        }
        if w.ready(n) && n == d {
            assert(more[tasks.len() as int].coord == d);
        }
        if exists|i: int| 0 <= i < more.len() && (#[trigger] more[i]).coord == d {
            let i = choose|i: int| 0 <= i < more.len() && (#[trigger] more[i]).coord == d;
            if i < tasks.len() {
                assert(tasks[i].coord == d);
            }
        }
    }
}

/// Of two chunks in a queue the one that is nearer to the camera, as the crow flies, comes first.
pub proof fn law_nearest(list: Seq<ChunkCoord>, cam: ChunkCoord, i: int, j: int)
    requires
        nearest_first(list, cam),
        0 <= i < list.len(),
        0 <= j < list.len(),
    ensures
        ({
            let (a, b) = (list[i], list[j]);
            (a.x - cam.x) * (a.x - cam.x) + (a.z - cam.z) * (a.z - cam.z) < (b.x - cam.x) * (b.x
                - cam.x) + (b.z - cam.z) * (b.z - cam.z) ==> i < j
        }),
{
    law_distance2(list[i], cam, list[i].x - cam.x, list[i].z - cam.z);
    law_distance2(list[j], cam, list[j].x - cam.x, list[j].z - cam.z);
}

/// Near chunks that lack their full mesh are queued to be uploaded, behind what is queued already.
pub proof fn law_detail_queued(
    w: WorldView,
    cam: ChunkCoord,
    gone: Seq<ChunkCoord>,
    missing: Seq<ChunkCoord>,
    queue: Seq<ChunkCoord>,
    detail: Seq<ChunkCoord>,
    c: ChunkCoord,
)
    requires
        lists(
            detail,
            w.before_queueing(cam, gone).after_queueing(cam, missing, queue).undetailed(cam),
        ),
    ensures
        ({
            let after = w.after_move(cam, gone, missing, queue, detail);
            let before = w.after_unload(cam, gone).upload_queue;
            let wants = within(c, cam, w.lod1_dist - 1) && after.chunk_allocs.contains_key(c)
                && after.chunk_allocs[c][0] is None && after.cpu_meshes.contains_key(c);
            &&& after.upload_queue.contains(c) <==> before.contains(c) || wants
            &&& after.upload_queue.take(before.len() as int) == before
            &&& after.spawn_queue == queue
        }),
{
    let after = w.after_move(cam, gone, missing, queue, detail);
    let before = w.after_unload(cam, gone).upload_queue;
    assert(after.upload_queue == before + detail);
    assert((before + detail).take(before.len() as int) =~= before);
    let mid = w.before_queueing(cam, gone).after_queueing(cam, missing, queue);
    assert(detail.to_set().contains(c) <==> detail.contains(c));
    assert(mid.undetailed(cam).contains(c) <==> detail.contains(c));
    if before.contains(c) {
        let i = choose|i: int| 0 <= i < before.len() && before[i] == c;
        assert((before + detail)[i] == c);
    }
    if detail.contains(c) {
        let i = choose|i: int| 0 <= i < detail.len() && detail[i] == c;
        assert((before + detail)[before.len() + i] == c);
    }
    if (before + detail).contains(c) {
        let i = choose|i: int| 0 <= i < (before + detail).len() && (before + detail)[i] == c;
        if i < before.len() {
            assert(before[i] == c);
        } else {
            assert(detail[i - before.len()] == c);
        }
    }
}

// ── Frames ───────────────────────────────────────────────────────────────────

/// All chunks that were generated come in: none of them is being generated any longer, and nothing
/// else changes in that. What is known of the sides of a chunk is what came in last.
pub proof fn law_all_arrive<F: Fn(i32, i32) -> HeightField>(
    w: WorldView,
    f: F,
    cam: ChunkCoord,
    arrivals: Seq<Arrival>,
    k: int,
    c: ChunkCoord,
)
    requires
        0 <= k <= arrivals.len(),
        forall|i: int| 0 <= i < arrivals.len() ==> in_world((#[trigger] arrivals[i]).coord),
    ensures
        ({
            let after = w.after_arrivals(f, cam, arrivals, k).0;
            let came = exists|i: int| 0 <= i < k && (#[trigger] arrivals[i]).coord == c;
            &&& after.gen_in_flight.contains(c) <==> w.gen_in_flight.contains(c) && !came
            &&& after.render_distance == w.render_distance
            &&& !came || !within(c, cam, w.render_distance) ==> (after.face_data.contains_key(c)
                <==> w.face_data.contains_key(c)) && after.face_data[c] == w.face_data[c]
                && (after.stored_chunks.contains_key(c) <==> w.stored_chunks.contains_key(c))
            &&& w.stored_chunks.contains_key(c) ==> after.stored_chunks.contains_key(c)
                && after.stored_chunks[c] == w.stored_chunks[c]
            &&& came && within(c, cam, w.render_distance) ==> after.face_data.contains_key(c)
                && exists|i: int|
                0 <= i < k && (#[trigger] arrivals[i]).coord == c && after.face_data[c]
                    == arrivals[i].faces && forall|j: int|
                    i < j < k ==> (#[trigger] arrivals[j]).coord != c
            &&& came && within(c, cam, w.render_distance) && within(c, cam, 3)
                ==> after.stored_chunks.contains_key(c)
        }),
    decreases k,
{
    if k > 0 {
        law_all_arrive(w, f, cam, arrivals, k - 1, c);
        let before = w.after_arrivals(f, cam, arrivals, k - 1).0;
        let a = arrivals[k - 1];
        assert(in_world(a.coord));
        lemma_one_arrives(before, f, cam, a.coord, a.faces, a.chunk@);
        let after = w.after_arrivals(f, cam, arrivals, k).0;
        if a.coord == c {
            assert(arrivals[k - 1].coord == c);
        } else if exists|i: int| 0 <= i < k && (#[trigger] arrivals[i]).coord == c {
            let i = choose|i: int| 0 <= i < k && (#[trigger] arrivals[i]).coord == c;
            assert(0 <= i < k - 1 && arrivals[i].coord == c);
            if within(c, cam, w.render_distance) {
                let l = choose|l: int|
                    0 <= l < k - 1 && (#[trigger] arrivals[l]).coord == c && before.face_data[c]
                        == arrivals[l].faces && forall|j: int|
                        l < j < k - 1 ==> (#[trigger] arrivals[j]).coord != c;
                assert(arrivals[l].coord == c && after.face_data[c] == arrivals[l].faces);
            }
        }
    }
}

proof fn lemma_one_arrives<F: Fn(i32, i32) -> HeightField>(
    w: WorldView,
    f: F,
    cam: ChunkCoord,
    c: ChunkCoord,
    faces: ChunkFaceData,
    chunk: ChunkView,
)
    requires
        in_world(c),
    ensures
        ({
            let after = w.after_generated(f, cam, c, faces, chunk).0;
            let seen = within(c, cam, w.render_distance);
            &&& after.gen_in_flight == w.gen_in_flight.remove(c)
            &&& after.render_distance == w.render_distance
            &&& after.face_data == if seen {
                w.face_data.insert(c, faces)
            } else {
                w.face_data
            }
            &&& after.stored_chunks == if seen && within(c, cam, 3)
                && !w.stored_chunks.contains_key(c) {
                w.stored_chunks.insert(c, chunk)
            } else {
                w.stored_chunks
            }
        }),
{
    law_arrival(w, f, cam, c, faces, chunk);
    if within(c, cam, w.render_distance) {
        let w1 = w.after_arrival(cam, c, faces, chunk);
        let (w2, own) = w1.after_own_mesh(f, c);
        lemma_beside(w2, f, c, 4);
    }
}

/// All meshes that were made come in: none of their chunks is being meshed any longer, and those in
/// sight are loaded. A chunk has the last mesh with anything in it that came in for it.
pub proof fn law_all_meshed(
    w: WorldView,
    cam: ChunkCoord,
    meshed: Seq<Meshed>,
    k: int,
    c: ChunkCoord,
)
    requires
        0 <= k <= meshed.len(),
    ensures
        ({
            let after = w.after_meshes(cam, meshed, k);
            let came = exists|i: int| 0 <= i < k && (#[trigger] meshed[i]).coord == c;
            let shown = exists|i: int|
                0 <= i < k && (#[trigger] meshed[i]).coord == c
                    && meshed[i].lods@.full.vertices.len() > 0;
            let seen = within(c, cam, w.render_distance);
            &&& after.render_distance == w.render_distance
            &&& after.mesh_in_flight.contains(c) <==> w.mesh_in_flight.contains(c) && !came
            &&& after.loaded.contains(c) <==> w.loaded.contains(c) || came && seen
            &&& after.upload_queue.contains(c) <==> w.upload_queue.contains(c) || shown && seen
            &&& !(shown && seen) ==> after.cpu_meshes.contains_key(c) == w.cpu_meshes.contains_key(
                c,
            ) && after.cpu_meshes[c] == w.cpu_meshes[c]
            &&& shown && seen ==> after.cpu_meshes.contains_key(c) && exists|i: int|
                0 <= i < k && (#[trigger] meshed[i]).coord == c && after.cpu_meshes[c]
                    == meshed[i].lods@ && forall|j: int|
                    i < j < k && (#[trigger] meshed[j]).coord == c
                        ==> meshed[j].lods@.full.vertices.len() == 0
        }),
    decreases k,
{
    if k > 0 {
        law_all_meshed(w, cam, meshed, k - 1, c);
        let before = w.after_meshes(cam, meshed, k - 1);
        let m = meshed[k - 1];
        law_meshed(before, cam, m.coord, m.lods@);
        lemma_push_contains(before.upload_queue, m.coord, c);
        let after = w.after_meshes(cam, meshed, k);
        if m.coord == c {
            assert(meshed[k - 1].coord == c);
        }
        if exists|i: int| 0 <= i < k - 1 && (#[trigger] meshed[i]).coord == c {
            let i = choose|i: int| 0 <= i < k - 1 && (#[trigger] meshed[i]).coord == c;
            assert(0 <= i < k && meshed[i].coord == c);
        }
        if exists|i: int|
            0 <= i < k - 1 && (#[trigger] meshed[i]).coord == c
                && meshed[i].lods@.full.vertices.len() > 0 {
            let i = choose|i: int|
                0 <= i < k - 1 && (#[trigger] meshed[i]).coord == c
                    && meshed[i].lods@.full.vertices.len() > 0;
            assert(0 <= i < k && meshed[i].coord == c);
            if within(c, cam, w.render_distance) && !(m.coord == c && m.lods@.full.vertices.len()
                > 0) {
                let l = choose|l: int|
                    0 <= l < k - 1 && (#[trigger] meshed[l]).coord == c && before.cpu_meshes[c]
                        == meshed[l].lods@ && forall|j: int|
                        l < j < k - 1 && (#[trigger] meshed[j]).coord == c
                            ==> meshed[j].lods@.full.vertices.len() == 0;
                assert(meshed[l].coord == c && after.cpu_meshes[c] == meshed[l].lods@);
            }
        }
    }
}

/// After chunks that wait were given out, only those wait that have to: something beside them is
/// being generated. What waits no longer is being meshed, or was loaded.
pub proof fn law_only_blocked_wait(w: WorldView, c: ChunkCoord)
    requires
        i32::MIN < c.x < i32::MAX,
        i32::MIN < c.z < i32::MAX,
        w.gen_in_flight.finite(),
    ensures
        ({
            let after = w.after_waiting();
            &&& after.pending_mesh.contains(c) <==> w.pending_mesh.contains(c) && !can_mesh_in(
                c,
                w.gen_in_flight,
            )
            &&& after.gen_in_flight == w.gen_in_flight
            &&& after.loaded == w.loaded
            &&& w.mesh_in_flight.contains(c) ==> after.mesh_in_flight.contains(c)
            &&& w.pending_mesh.contains(c) && can_mesh_in(c, w.gen_in_flight) && !w.loaded.contains(c)
                ==> after.mesh_in_flight.contains(c)
            &&& after.mesh_in_flight.contains(c) ==> w.mesh_in_flight.contains(c) || (
            w.pending_mesh.contains(c) && can_mesh_in(c, w.gen_in_flight))
        }),
{
    if w.gen_in_flight.len() == 0 {
        assert(w.gen_in_flight =~= Set::empty());
    }
}

/// A frame begins with what was given up long enough ago being free, and ends the batch that is
/// done: what the batch replaced is given up now, and waits from now on.
pub proof fn law_frame_begins(w: WorldView, threads: int)
    requires
        threads >= 0,
    ensures
        ({
            let done = w.after_begin(threads, true);
            let same = w.after_begin(threads, false);
            &&& done.batch is None
            &&& same.batch == w.batch
            &&& same.freed_first == w.freed_second && same.freed_second == w.freed_third
                && same.freed_third.len() == 0
            &&& done.freed_first == w.freed_second && done.freed_second == w.freed_third
            &&& done.freed_third == (match w.batch {
                Some(b) => b.old_slots,
                None => Seq::empty(),
            })
            &&& done.arenas == same.arenas
            &&& same.chunk_allocs == w.chunk_allocs
            &&& done.spawn_queue == same.spawn_queue
            &&& done.cpu_meshes == w.cpu_meshes
            &&& done.loaded == w.loaded
        }),
{
    let taken = w.after_release().after_take(threads);
    if taken.batch is Some {
        let slots = taken.batch->0.slots;
        lemma_commit_only(WorldView { batch: None, ..taken }, slots, slots.len() as int);
        assert(taken.freed_third + taken.batch->0.old_slots =~= taken.batch->0.old_slots);
    }
}

proof fn lemma_commit_only(w: WorldView, slots: Seq<(ChunkCoord, usize, ChunkSlot)>, k: int)
    ensures
        w.after_commit(slots, k) == (WorldView {
            chunk_allocs: w.after_commit(slots, k).chunk_allocs,
            ..w
        }),
    decreases k,
{
    if k > 0 {
        lemma_commit_only(w, slots, k - 1);
    }
}

/// In a new world nothing is loaded or on its way, and no chunk is the camera's.
pub proof fn law_fresh(rd: int, lod1: int, lod2: int, c: ChunkCoord)
    ensures
        ({
            let w = WorldView::fresh(rd, lod1, lod2);
            &&& w.render_distance == rd && w.lod1_dist == lod1 && w.lod2_dist == lod2
            &&& !w.loaded.contains(c) && !w.gen_in_flight.contains(c) && !w.pending_mesh.contains(c)
            &&& !w.mesh_in_flight.contains(c) && !w.modified.contains(c)
                && !w.pending_remesh.contains(c)
            &&& !w.face_data.contains_key(c) && !w.pending_chunks.contains_key(c)
                && !w.cpu_meshes.contains_key(c)
            &&& !w.chunk_allocs.contains_key(c) && !w.stored_chunks.contains_key(c)
            &&& w.spawn_queue.len() == 0 && w.upload_queue.len() == 0
            &&& w.freed_first.len() == 0 && w.freed_second.len() == 0 && w.freed_third.len() == 0
            &&& w.arenas is None && w.batch is None
            &&& w.last_cam.x == 0x7fff_ffff && w.last_cam.z == 0x7fff_ffff
        }),
{
}

} // verus!
