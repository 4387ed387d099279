//! What can happen to the world, and what holds whatever has happened.

use super::frame::{Arrival, Meshed};
use super::interact::home;
use super::laws::{
    law_arrival_keeps_blocks, law_move_keeps_blocks, law_staging_packed, lemma_commit_batch,
    lemma_prep, lemma_sides_keep_blocks, packed, same_blocks, true_to_terrain,
};
use super::owners::{
    claims, in_order, law_batch_in_order, law_begin_in_order, law_given_up_in_order,
    law_move_in_order, law_new_arenas_in_order, law_release_apart, law_step_in_order,
    law_submitted_in_order, law_too_large_in_order, law_update_in_order, lemma_batch_shape,
    lemma_freed, lemma_neighbours_slots, lemma_remeshes_slots, lemma_same_slots,
    lemma_sides_slots, range_of, same_slots, slots_differ, Owner,
};
use super::scan::lists;
use super::upload::{batch_of, entry_slots, no_plan, PlanView, Verdict};
use super::AllocStage;
use crate::meshing::lods::LodView;
use crate::render::arena::{all_free, ArenaView};
use crate::render::claims::claim_ok;
use crate::render::mesh::ChunkSlot;
use crate::world::block::BlockId;
use crate::world::chunk::ChunkView;
use crate::world::coords::{origin_of, BlockPos, ChunkCoord};
use crate::world::neighbor::ChunkFaceData;
use crate::world::state::{ArenasView, WorldView};
use crate::world::terrain::{generated, HeightField};
use vstd::prelude::*;

verus! {

/// The world and the batch in the making at one moment.
#[verifier::ext_equal]
pub struct Moment {
    pub world: WorldView,
    pub plan: PlanView,
}

/// What can happen: all that changes the world, with what it depends on.
pub enum Event {
    /// The buffers of the arenas were made.
    Buffers { vb_cap: usize, ib_cap: usize },
    /// A frame began.
    Release,
    /// Chunks were taken to be generated.
    Take { threads: int },
    /// The GPU is done with the batch on its way.
    Commit,
    /// A chunk was generated.
    Arrive { cam: ChunkCoord, c: ChunkCoord, faces: ChunkFaceData, chunk: ChunkView },
    /// Chunks stopped waiting, because of what is being generated beside them or at all.
    Spawn { freed: Set<ChunkCoord>, given: Set<ChunkCoord> },
    /// A mesh was made.
    Mesh { cam: ChunkCoord, c: ChunkCoord, lods: LodView },
    /// Chunks were meshed again.
    Remesh { list: Seq<ChunkCoord> },
    /// All that is done in a frame before meshes are uploaded.
    Update {
        cam: ChunkCoord,
        threads: int,
        batch_done: bool,
        arrivals: Seq<Arrival>,
        meshed: Seq<Meshed>,
        remeshed: Seq<ChunkCoord>,
    },
    /// The camera entered another chunk.
    Move {
        cam: ChunkCoord,
        gone: Seq<ChunkCoord>,
        missing: Seq<ChunkCoord>,
        queue: Seq<ChunkCoord>,
        detail: Seq<ChunkCoord>,
    },
    /// A block was set.
    Edit { p: BlockPos, id: BlockId },
    /// Blocks around the player were made ready.
    Prepare { columns: Seq<(i32, i32)> },
    /// A draw list was made.
    Draw { count: usize },
    /// A draw list for water was made.
    DrawWater { count: usize },
    /// A batch was begun.
    Begin,
    /// A step towards a batch was made.
    Step { cam: ChunkCoord, stage: AllocStage },
    /// It was decided what becomes of a batch.
    Close { staging: bool },
    /// A batch was submitted.
    Submit,
    /// A batch was given up.
    GiveUp,
}

impl Event {
    /// The world after an event that has nothing to do with a batch in the making.
    pub open spec fn result<F: Fn(i32, i32) -> HeightField>(self, f: F, w: WorldView) -> WorldView {
        match self {
            Event::Buffers { vb_cap, ib_cap } => if w.arenas is None {
                WorldView {
                    arenas: Some(
                        ArenasView {
                            vb: ArenaView::fresh(vb_cap as int, 36),
                            ib: ArenaView::fresh(ib_cap as int, 4),
                        },
                    ),
                    ..w
                }
            } else {
                w
            },
            Event::Release => w.after_release(),
            Event::Take { threads } => w.after_take(threads),
            Event::Commit => w.after_batch(),
            Event::Arrive { cam, c, faces, chunk } => w.after_generated(f, cam, c, faces, chunk).0,
            Event::Spawn { freed, given } => w.after_spawns(freed, given),
            Event::Mesh { cam, c, lods } => w.after_meshed(cam, c, lods),
            Event::Remesh { list } => w.after_remeshes(f, list, list.len() as int),
            Event::Update { cam, threads, batch_done, arrivals, meshed, remeshed } => w.after_update(
                f,
                cam,
                threads,
                batch_done,
                arrivals,
                meshed,
                remeshed,
            ),
            Event::Move { cam, gone, missing, queue, detail } => w.after_move(
                cam,
                gone,
                missing,
                queue,
                detail,
            ),
            Event::Edit { p, id } => w.after_set_block(f, p, id),
            Event::Prepare { columns } => w.after_prep(f, columns, columns.len() as int),
            Event::Draw { count } => WorldView {
                draw_slot: 1 - w.draw_slot,
                draw_count: count as u32,
                ..w
            },
            Event::DrawWater { count } => WorldView { water_draw_count: count as u32, ..w },
            _ => w,
        }
    }

    /// An event leads from one moment to the next, as the operation for it says. Nothing else
    /// happens while a batch is in the making.
    pub open spec fn leads<F: Fn(i32, i32) -> HeightField>(self, f: F, a: Moment, b: Moment)
        -> bool {
        &&& b.world.wf()
        &&& match self {
            Event::Begin => a.plan == no_plan() && (b.world, b.plan)
                == a.world.after_begin_upload(),
            Event::Step { cam, stage } => {
                let (w, plan, action) = a.world.upload_step(a.plan, cam, stage);
                &&& a.world.arenas is Some
                &&& b.world == w
                &&& b.plan == plan
                &&& b.plan.wf(b.world.arenas->0)
            },
            Event::Close { staging } => {
                let verdict = a.plan.verdict(staging);
                &&& a.world.arenas is Some
                &&& b.world == a.world.after_close(a.plan, verdict)
                &&& b.plan == if verdict == Verdict::Ready {
                    a.plan
                } else {
                    no_plan()
                }
            },
            Event::Submit => {
                &&& a.world.arenas is Some
                &&& a.world.batch is None
                &&& b.world == (WorldView { batch: Some(batch_of(a.plan.entries)), ..a.world })
                &&& b.plan == no_plan()
            },
            Event::GiveUp => b.world == a.world && b.plan == no_plan(),
            _ => {
                &&& a.plan == no_plan()
                &&& b.plan == no_plan()
                &&& b.world == self.result(f, a.world)
                &&& self matches Event::Buffers { vb_cap, ib_cap } ==> 0 < vb_cap && 0 < ib_cap
                &&& self matches Event::Move { cam, gone, .. } ==> lists(
                    gone,
                    a.world.unloaded(cam),
                )
            },
        }
    }

    /// A frame begins with this event.
    pub open spec fn is_frame(self) -> bool {
        self is Release || self is Update
    }

    /// The GPU was waited for, so that everything that was given up is free at once.
    pub open spec fn is_flush(self) -> bool {
        self matches Event::Step { stage, .. } && stage is Stalled
    }
}

/// The events of a list happened one after the other to a new world.
pub open spec fn history<F: Fn(i32, i32) -> HeightField>(
    f: F,
    moments: Seq<Moment>,
    events: Seq<Event>,
) -> bool {
    let w = moments[0].world;
    &&& moments.len() == events.len() + 1
    &&& w == WorldView::fresh(w.render_distance, w.lod1_dist, w.lod2_dist)
    &&& w.wf()
    &&& moments[0].plan == no_plan()
    &&& forall|i: int|
        0 <= i < events.len() ==> (#[trigger] events[i]).leads(f, moments[i], moments[i + 1])
}

/// The world is as it should be, the batch in the making is and lies packed in the staging
/// buffers, and all slots are in order.
pub open spec fn sound(m: Moment) -> bool {
    &&& m.world.wf()
    &&& packed(m.plan)
    &&& in_order(m.world, m.plan)
    &&& m.world.arenas matches Some(a) ==> m.plan.wf(a)
}

// ── Order ────────────────────────────────────────────────────────────────────

proof fn lemma_prep_slots<F: Fn(i32, i32) -> HeightField>(
    w: WorldView,
    f: F,
    columns: Seq<(i32, i32)>,
    k: int,
)
    ensures
        same_slots(w, w.after_prep(f, columns, k)),
    decreases k,
{
    if k > 0 {
        lemma_prep_slots(w, f, columns, k - 1);
    }
}

proof fn lemma_generated_slots<F: Fn(i32, i32) -> HeightField>(
    w: WorldView,
    f: F,
    cam: ChunkCoord,
    c: ChunkCoord,
    faces: ChunkFaceData,
    chunk: ChunkView,
)
    ensures
        same_slots(w, w.after_generated(f, cam, c, faces, chunk).0),
{
    let own = w.after_arrival(cam, c, faces, chunk).after_own_mesh(f, c).0;
    lemma_neighbours_slots(own, f, c, 4);
}

/// An event that has nothing to do with slots.
spec fn spares_slots(e: Event) -> bool {
    match e {
        Event::Take { .. } | Event::Arrive { .. } | Event::Spawn { .. } | Event::Mesh { .. }
        | Event::Remesh { .. } | Event::Edit { .. } | Event::Prepare { .. } | Event::Draw { .. }
        | Event::DrawWater { .. } => true,
        _ => false,
    }
}

proof fn lemma_spared<F: Fn(i32, i32) -> HeightField>(f: F, w: WorldView, e: Event)
    requires
        spares_slots(e),
    ensures
        same_slots(w, e.result(f, w)),
{
    match e {
        Event::Arrive { cam, c, faces, chunk } => {
            lemma_generated_slots(w, f, cam, c, faces, chunk);
        },
        Event::Remesh { list } => {
            lemma_remeshes_slots(w, f, list, list.len() as int);
        },
        Event::Edit { p, id } => {
            let put = w.after_put(f, p, id).after_remesh(f, home(p));
            lemma_sides_slots(put, f, p, 4);
        },
        Event::Prepare { columns } => {
            lemma_prep_slots(w, f, columns, columns.len() as int);
        },
        _ => {},
    }
}

/// Whatever happens, all slots stay in order.
pub proof fn law_event_in_order<F: Fn(i32, i32) -> HeightField>(
    f: F,
    a: Moment,
    b: Moment,
    e: Event,
)
    requires
        sound(a),
        e.leads(f, a, b),
    ensures
        sound(b),
{
    let w = a.world;
    match e {
        Event::Buffers { vb_cap, ib_cap } => {
            if w.arenas is None {
                law_new_arenas_in_order(w, vb_cap as int, ib_cap as int);
            }
        },
        Event::Release => {
            law_release_apart(w, no_plan());
        },
        Event::Commit => {
            law_batch_in_order(w);
        },
        Event::Update { cam, threads, batch_done, arrivals, meshed, remeshed } => {
            law_update_in_order(w, f, cam, threads, batch_done, arrivals, meshed, remeshed);
        },
        Event::Move { cam, gone, missing, queue, detail } => {
            law_move_in_order(w, cam, gone, missing, queue, detail);
        },
        Event::Begin => {
            law_begin_in_order(w);
        },
        Event::Step { cam, stage } => {
            law_step_in_order(w, a.plan, cam, stage);
            law_staging_packed(w, a.plan, cam, stage);
        },
        Event::Close { staging } => {
            match a.plan.verdict(staging) {
                Verdict::TooLarge => {
                    law_too_large_in_order(w, a.plan);
                    let freed = WorldView {
                        arenas: Some(
                            w.arenas->0.after_frees(entry_slots(a.plan.entries)),
                        ),
                        ..w
                    };
                    lemma_same_slots(freed, b.world, no_plan());
                },
                Verdict::Ready => {},
                _ => {
                    law_given_up_in_order(w, a.plan);
                    lemma_same_slots(w, b.world, no_plan());
                },
            }
        },
        Event::Submit => {
            law_submitted_in_order(w, a.plan);
        },
        Event::GiveUp => {
            law_given_up_in_order(w, a.plan);
        },
        _ => {
            lemma_spared(f, w, e);
            lemma_same_slots(w, b.world, no_plan());
        },
    }
}

/// In a world to which anything has happened all slots are in order: no byte of the arenas is used
/// twice, none that is used is free, and a batch knows what it replaces. A batch in the making
/// lies packed in the staging buffers.
pub proof fn law_always_in_order<F: Fn(i32, i32) -> HeightField>(
    f: F,
    moments: Seq<Moment>,
    events: Seq<Event>,
    i: int,
)
    requires
        history(f, moments, events),
        0 <= i < moments.len(),
    ensures
        sound(moments[i]),
    decreases i,
{
    if i > 0 {
        law_always_in_order(f, moments, events, i - 1);
        assert(events[i - 1].leads(f, moments[i - 1], moments[i]));
        law_event_in_order(f, moments[i - 1], moments[i], events[i - 1]);
    }
}

// ── Slots that were given up ─────────────────────────────────────────────────

/// The slots that are given back with the `k`-th frame from now.
pub open spec fn freed_with(w: WorldView, k: int) -> Seq<ChunkSlot> {
    if k == 1 {
        w.freed_first
    } else if k == 2 {
        w.freed_second
    } else {
        w.freed_third
    }
}

/// A slot is the `i`-th of those that are given back with the `k`-th frame from now.
pub open spec fn waits(w: WorldView, k: int, i: int, s: ChunkSlot) -> bool {
    1 <= k <= 3 && 0 <= i < freed_with(w, k).len() && freed_with(w, k)[i] == s
}

/// The bytes of a slot are in use, in both arenas.
pub open spec fn slot_in_use(a: ArenasView, s: ChunkSlot) -> bool {
    claim_ok(a.vb, range_of(s, true)) && claim_ok(a.ib, range_of(s, false))
}

/// The bytes of a slot are free, in both arenas.
pub open spec fn slot_free(a: ArenasView, s: ChunkSlot) -> bool {
    &&& all_free(a.vb, range_of(s, true).0, range_of(s, true).1)
    &&& all_free(a.ib, range_of(s, false).0, range_of(s, false).1)
}

/// Who has a slot that was given up.
spec fn waiting(k: int, i: int) -> Owner {
    if k == 1 {
        Owner::First(i)
    } else if k == 2 {
        Owner::Second(i)
    } else {
        Owner::Third(i)
    }
}

/// A slot that was given up is in use until it is given back, and no other slot that was given up
/// shares a byte with it: it is given back once.
pub proof fn law_waiting_in_use(m: Moment, k: int, i: int, s: ChunkSlot)
    requires
        sound(m),
        waits(m.world, k, i, s),
    ensures
        m.world.arenas is Some,
        slot_in_use(m.world.arenas->0, s),
        forall|n: int, j: int, t: ChunkSlot| #[trigger]
            waits(m.world, n, j, t) && (n != k || j != i) ==> slots_differ(s, t),
{
    let w = m.world;
    let one = claims(w, m.plan, true);
    let two = claims(w, m.plan, false);
    assert(one.contains_key(waiting(k, i)));
    assert(two.contains_key(waiting(k, i)));
    assert forall|n: int, j: int, t: ChunkSlot| #[trigger]
        waits(w, n, j, t) && (n != k || j != i) implies slots_differ(s, t) by {
        assert(one.contains_key(waiting(n, j)));
        assert(two.contains_key(waiting(n, j)));
    }
}

/// A slot that was given up waits while no frame begins, unless the GPU is waited for.
pub proof fn law_waits_on<F: Fn(i32, i32) -> HeightField>(
    f: F,
    a: Moment,
    b: Moment,
    e: Event,
    k: int,
    i: int,
    s: ChunkSlot,
)
    requires
        sound(a),
        e.leads(f, a, b),
        !e.is_frame(),
        !e.is_flush(),
        waits(a.world, k, i, s),
    ensures
        waits(b.world, k, i, s),
{
    let w = a.world;
    if spares_slots(e) {
        lemma_spared(f, w, e);
    } else if e is Commit && w.batch is Some {
        lemma_batch_shape(w);
    }
}

/// With a frame, what was to be given back with the next one is free, and the rest comes closer.
pub proof fn law_frame_frees<F: Fn(i32, i32) -> HeightField>(
    f: F,
    a: Moment,
    b: Moment,
    e: Event,
    k: int,
    i: int,
    s: ChunkSlot,
)
    requires
        sound(a),
        e.leads(f, a, b),
        e.is_frame(),
        waits(a.world, k, i, s),
    ensures
        k > 1 ==> waits(b.world, k - 1, i, s),
        k == 1 ==> b.world.arenas is Some && slot_free(b.world.arenas->0, s),
{
    let w = a.world;
    let released = w.after_release();
    law_release_apart(w, no_plan());
    if let Event::Update { cam, threads, batch_done, arrivals, meshed, remeshed } = e {
        law_update_in_order(w, f, cam, threads, batch_done, arrivals, meshed, remeshed);
        let taken = released.after_take(threads);
        lemma_same_slots(released, taken, no_plan());
        if taken.batch is Some {
            lemma_batch_shape(taken);
        }
    }
    assert(b.world.arenas == released.arenas);
    assert(b.world.freed_first == w.freed_second);
    assert(b.world.freed_second == w.freed_third);
    if k == 1 {
        law_waiting_in_use(a, k, i, s);
        let keys = |j: int| Owner::First(j);
        lemma_freed(w.arenas->0, true, claims(w, a.plan, true), w.freed_first, keys, i);
        lemma_freed(w.arenas->0, false, claims(w, a.plan, false), w.freed_first, keys, i);
    }
}

/// How many frames began with the events from the `t`-th up to the `u`-th.
pub open spec fn frames(events: Seq<Event>, t: int, u: int) -> int
    decreases u - t,
{
    if u <= t {
        0
    } else if events[u - 1].is_frame() {
        frames(events, t, u - 1) + 1
    } else {
        frames(events, t, u - 1)
    }
}

/// A slot that was given up stays in use until the second frame after that is over, and with the
/// third frame it is free, whatever else happens meanwhile. It is given back once: no other slot
/// that is waiting to be given back shares a byte with it. If the GPU is waited for, it is free
/// earlier.
pub proof fn law_free_lag<F: Fn(i32, i32) -> HeightField>(
    f: F,
    moments: Seq<Moment>,
    events: Seq<Event>,
    t: int,
    u: int,
    i: int,
)
    requires
        history(f, moments, events),
        0 <= t <= u <= events.len(),
        0 <= i < moments[t].world.freed_third.len(),
        forall|j: int| t <= j < u ==> !(#[trigger] events[j]).is_flush(),
        frames(events, t, u) <= 2,
    ensures
        ({
            let s = moments[t].world.freed_third[i];
            let k = 3 - frames(events, t, u);
            let now = moments[u].world;
            &&& waits(now, k, i, s)
            &&& now.arenas is Some
            &&& slot_in_use(now.arenas->0, s)
            &&& forall|n: int, j: int, o: ChunkSlot| #[trigger]
                waits(now, n, j, o) && (n != k || j != i) ==> slots_differ(s, o)
            &&& k == 1 && u < events.len() && events[u].is_frame() ==> {
                let next = moments[u + 1].world;
                next.arenas is Some && slot_free(next.arenas->0, s)
            }
        }),
    decreases u - t,
{
    let s = moments[t].world.freed_third[i];
    let k = 3 - frames(events, t, u);
    lemma_frames(events, t, u);
    if t < u {
        law_free_lag(f, moments, events, t, u - 1, i);
        law_always_in_order(f, moments, events, u - 1);
        let before = 3 - frames(events, t, u - 1);
        let e = events[u - 1];
        assert(e.leads(f, moments[u - 1], moments[u]));
        if e.is_frame() {
            law_frame_frees(f, moments[u - 1], moments[u], e, before, i, s);
        } else {
            law_waits_on(f, moments[u - 1], moments[u], e, before, i, s);
        }
    }
    law_always_in_order(f, moments, events, u);
    law_waiting_in_use(moments[u], k, i, s);
    if k == 1 && u < events.len() && events[u].is_frame() {
        assert(events[u].leads(f, moments[u], moments[u + 1]));
        law_frame_frees(f, moments[u], moments[u + 1], events[u], k, i, s);
    }
}

proof fn lemma_frames(events: Seq<Event>, t: int, u: int)
    ensures
        0 <= frames(events, t, u),
    decreases u - t,
{
    if t < u {
        lemma_frames(events, t, u - 1);
    }
}

// ── Blocks ───────────────────────────────────────────────────────────────────

/// Chunks that came in are as the terrain has them.
pub open spec fn faithful<F: Fn(i32, i32) -> HeightField>(f: F, e: Event) -> bool {
    match e {
        Event::Arrive { c, chunk, .. } => chunk == generated(f, origin_of(c)),
        Event::Update { arrivals, .. } => forall|i: int|
            0 <= i < arrivals.len() ==> (#[trigger] arrivals[i]).chunk@ == generated(
                f,
                origin_of(arrivals[i].coord),
            ),
        _ => true,
    }
}

/// Two worlds keep the same blocks and have the same chunks with edits.
spec fn same_stored(a: WorldView, b: WorldView) -> bool {
    a.stored_chunks == b.stored_chunks && a.modified == b.modified
}

proof fn lemma_meshes_stored(w: WorldView, cam: ChunkCoord, meshed: Seq<Meshed>, k: int)
    ensures
        same_stored(w, w.after_meshes(cam, meshed, k)),
    decreases k,
{
    if k > 0 {
        lemma_meshes_stored(w, cam, meshed, k - 1);
    }
}

proof fn lemma_remeshes_stored<F: Fn(i32, i32) -> HeightField>(
    w: WorldView,
    f: F,
    list: Seq<ChunkCoord>,
    k: int,
)
    ensures
        same_stored(w, w.after_remeshes(f, list, k)),
    decreases k,
{
    if k > 0 {
        lemma_remeshes_stored(w, f, list, k - 1);
    }
}

proof fn lemma_batch_stored(w: WorldView)
    ensures
        same_stored(w, w.after_batch()),
{
    if let Some(b) = w.batch {
        lemma_commit_batch(WorldView { batch: None, ..w }, b.slots, b.slots.len() as int);
    }
}

proof fn lemma_arrivals_blocks<F: Fn(i32, i32) -> HeightField>(
    w: WorldView,
    f: F,
    cam: ChunkCoord,
    arrivals: Seq<Arrival>,
    k: int,
)
    requires
        true_to_terrain(w, f),
        0 <= k <= arrivals.len(),
        forall|i: int|
            0 <= i < arrivals.len() ==> (#[trigger] arrivals[i]).chunk@ == generated(
                f,
                origin_of(arrivals[i].coord),
            ),
    ensures
        same_blocks(w, w.after_arrivals(f, cam, arrivals, k).0, f),
    decreases k,
{
    if k > 0 {
        lemma_arrivals_blocks(w, f, cam, arrivals, k - 1);
        let v = w.after_arrivals(f, cam, arrivals, k - 1).0;
        let a = arrivals[k - 1];
        law_arrival_keeps_blocks(v, f, cam, a.coord, a.faces);
        let after = w.after_arrivals(f, cam, arrivals, k).0;
        assert forall|c: ChunkCoord| #[trigger] after.blocks(f, c) == w.blocks(f, c) by {
            assert(v.blocks(f, c) == w.blocks(f, c));
        }
    }
}

/// Nothing but an edit changes a block: whatever else happens, all blocks stay what they are, and
/// the blocks that are kept are the terrain's, but for chunks with edits.
pub proof fn law_blocks_stay<F: Fn(i32, i32) -> HeightField>(f: F, a: Moment, b: Moment, e: Event)
    requires
        a.world.wf(),
        true_to_terrain(a.world, f),
        e.leads(f, a, b),
        faithful(f, e),
        e !is Edit,
    ensures
        same_blocks(a.world, b.world, f),
{
    let w = a.world;
    match e {
        Event::Commit => {
            lemma_batch_stored(w);
        },
        Event::Arrive { cam, c, faces, chunk } => {
            law_arrival_keeps_blocks(w, f, cam, c, faces);
        },
        Event::Remesh { list } => {
            lemma_remeshes_stored(w, f, list, list.len() as int);
        },
        Event::Update { cam, threads, batch_done, arrivals, meshed, remeshed } => {
            lemma_batch_stored(w.after_release().after_take(threads));
            let w1 = w.after_begin(threads, batch_done);
            assert(same_stored(w, w1));
            lemma_arrivals_blocks(w1, f, cam, arrivals, arrivals.len() as int);
            let w2 = w1.after_arrivals(f, cam, arrivals, arrivals.len() as int).0;
            let waited = w2.after_waiting();
            lemma_meshes_stored(waited, cam, meshed, meshed.len() as int);
            let w3 = waited.after_meshes(cam, meshed, meshed.len() as int);
            lemma_remeshes_stored(w3, f, remeshed, remeshed.len() as int);
            assert(same_stored(w2, b.world));
            assert forall|c: ChunkCoord| #[trigger] b.world.blocks(f, c) == w.blocks(f, c) by {
                assert(w2.blocks(f, c) == w1.blocks(f, c));
            }
        },
        Event::Move { cam, gone, missing, queue, detail } => {
            law_move_keeps_blocks(w, f, cam, gone, missing, queue, detail);
        },
        Event::Prepare { columns } => {
            lemma_prep(w, f, columns, columns.len() as int);
        },
        _ => {
            assert(same_stored(w, b.world));
        },
    }
}

/// In a world to which anything has happened, the blocks that are kept are the terrain's, but for
/// chunks with edits.
pub proof fn law_always_true_to_terrain<F: Fn(i32, i32) -> HeightField>(
    f: F,
    moments: Seq<Moment>,
    events: Seq<Event>,
    i: int,
)
    requires
        history(f, moments, events),
        forall|j: int| 0 <= j < events.len() ==> faithful(f, #[trigger] events[j]),
        0 <= i < moments.len(),
    ensures
        true_to_terrain(moments[i].world, f),
    decreases i,
{
    if i > 0 {
        law_always_true_to_terrain(f, moments, events, i - 1);
        law_always_in_order(f, moments, events, i - 1);
        let a = moments[i - 1];
        let e = events[i - 1];
        assert(e.leads(f, a, moments[i]));
        if let Event::Edit { p, id } = e {
            let put = a.world.after_put(f, p, id).after_remesh(f, home(p));
            lemma_sides_keep_blocks(put, f, p, 4);
        } else {
            assert(faithful(f, events[i - 1]));
            law_blocks_stay(f, a, moments[i], e);
        }
    }
}

} // verus!
