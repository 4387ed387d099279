//! Which mesh uses which bytes of the arenas.

use super::frame::{Arrival, Meshed};
use super::interact::home;
use super::scan::{lists, opt_seq, slots_in, slots_to};
use super::upload::{
    batch_of, entry_slots, first_for, item_ok, no_plan, old_slots_to, PlanView, UploadEntry,
};
use super::{arena_of, AllocStage, AllocStep};
use crate::render::arena::{all_free, grown_cap_of, law_free, lemma_round_zero, round_up, ArenaView};
use crate::render::claims::{
    apart, claim_ok, claimed, law_claim_alloc, law_claim_free, law_claim_growth, lemma_claims_move,
};
use crate::render::mesh::ChunkSlot;
use crate::world::block::BlockId;
use crate::world::coords::{BlockPos, ChunkCoord};
use crate::world::state::{ArenasView, BatchView, WorldView};
use crate::world::terrain::HeightField;
use vstd::prelude::*;

verus! {

/// Who uses a slot.
pub enum Owner {
    /// It is given back with the next frame.
    First(int),
    /// It is given back with the frame after that.
    Second(int),
    /// It is given back with the third frame from now.
    Third(int),
    /// A chunk is drawn from it, at a level of detail, and nothing on its way replaces it.
    Current(ChunkCoord, int),
    /// A mesh of the batch on its way will be there.
    Batch(int),
    /// The batch on its way replaces it.
    Replaced(int),
    /// A mesh of the batch in the making will be there.
    Entry(int),
    /// The vertices of the mesh that room is looked for will be there.
    Half,
}

/// The size of a unit.
pub open spec fn unit(vertices: bool) -> int {
    if vertices {
        36
    } else {
        4
    }
}

/// The bytes of a slot in one of the arenas, as (offset, length).
pub open spec fn range_of(s: ChunkSlot, vertices: bool) -> (int, int) {
    if vertices {
        (s.vb_offset as int, round_up(s.vb_size as int, 36))
    } else {
        (s.ib_offset as int, round_up(s.ib_size as int, 4))
    }
}

/// The bytes of the slot at place `i` of a list.
pub open spec fn range_in(list: Seq<ChunkSlot>, i: int, vertices: bool) -> Option<(int, int)> {
    if 0 <= i < list.len() {
        Some(range_of(list[i], vertices))
    } else {
        None
    }
}

/// The slot that a chunk has for a level of detail.
pub open spec fn slot_in(
    allocs: Map<ChunkCoord, [Option<ChunkSlot>; 3]>,
    c: ChunkCoord,
    lod: int,
) -> Option<ChunkSlot> {
    if allocs.contains_key(c) && 0 <= lod < 3 {
        allocs[c][lod]
    } else {
        None
    }
}

/// The bytes that somebody uses in one of the arenas.
pub open spec fn held(w: WorldView, plan: PlanView, vertices: bool, o: Owner) -> Option<(int, int)> {
    match o {
        Owner::First(i) => range_in(w.freed_first, i, vertices),
        Owner::Second(i) => range_in(w.freed_second, i, vertices),
        Owner::Third(i) => range_in(w.freed_third, i, vertices),
        Owner::Current(c, lod) => if w.on_its_way(c, lod) {
            None
        } else {
            match slot_in(w.chunk_allocs, c, lod) {
                Some(s) => Some(range_of(s, vertices)),
                None => None,
            }
        },
        Owner::Batch(i) => match w.batch {
            Some(b) => if 0 <= i < b.slots.len() {
                Some(range_of(b.slots[i].2, vertices))
            } else {
                None
            },
            None => None,
        },
        Owner::Replaced(i) => match w.batch {
            Some(b) => range_in(b.old_slots, i, vertices),
            None => None,
        },
        Owner::Entry(i) => if 0 <= i < plan.entries.len() {
            Some(range_of(plan.entries[i].slot, vertices))
        } else {
            None
        },
        Owner::Half => match (plan.vb, plan.item) {
            (Some(off), Some(item)) => if vertices {
                Some((off as int, round_up(item.vb_size as int, 36)))
            } else {
                None
            },
            _ => None,
        },
    }
}

/// The bytes that are used in one of the arenas, and who uses them.
pub open spec fn claims(w: WorldView, plan: PlanView, vertices: bool) -> Map<Owner, (int, int)> {
    Map::new(|o: Owner| held(w, plan, vertices, o) is Some, |o: Owner| held(w, plan, vertices, o)->0)
}

/// The arenas have units of the right sizes.
pub open spec fn units_ok(a: ArenasView) -> bool {
    a.vb.align == 36 && a.ib.align == 4
}

/// No byte of the arenas is used twice, and none that is used is free.
pub open spec fn slots_apart(w: WorldView, plan: PlanView) -> bool {
    w.arenas matches Some(a) ==> {
        &&& units_ok(a)
        &&& claimed(a.vb, claims(w, plan, true))
        &&& claimed(a.ib, claims(w, plan, false))
    }
}

// ── Giving back ──────────────────────────────────────────────────────────────

/// What is used when the first `n` of a list of users are gone.
pub open spec fn dropped(m: Map<Owner, (int, int)>, keys: spec_fn(int) -> Owner, n: int) -> Map<
    Owner,
    (int, int),
>
    decreases n,
{
    if n <= 0 {
        m
    } else {
        dropped(m, keys, n - 1).remove(keys(n - 1))
    }
}

proof fn lemma_dropped(m: Map<Owner, (int, int)>, keys: spec_fn(int) -> Owner, n: int, o: Owner)
    ensures
        dropped(m, keys, n).contains_key(o) <==> m.contains_key(o) && forall|i: int|
            0 <= i < n ==> #[trigger] keys(i) != o,
        dropped(m, keys, n).contains_key(o) ==> dropped(m, keys, n)[o] == m[o],
    decreases n,
{
    if n > 0 {
        lemma_dropped(m, keys, n - 1, o);
        if dropped(m, keys, n).contains_key(o) {
            assert forall|i: int| 0 <= i < n implies #[trigger] keys(i) != o by {
                if i == n - 1 {
                } else {
                    assert(keys(i) != o);
                }
            }
        }
    }
}

/// When the slots of a list are given back, only those that used them lose something.
proof fn lemma_frees(
    a: ArenasView,
    vertices: bool,
    m: Map<Owner, (int, int)>,
    slots: Seq<ChunkSlot>,
    keys: spec_fn(int) -> Owner,
)
    requires
        units_ok(a),
        claimed(arena_of(a, vertices), m),
        forall|i: int|
            0 <= i < slots.len() ==> m.contains_key(#[trigger] keys(i)) && m[keys(i)] == range_of(
                slots[i],
                vertices,
            ),
        forall|i: int, j: int|
            0 <= i < j < slots.len() ==> #[trigger] keys(i) != #[trigger] keys(j),
    ensures
        units_ok(a.after_frees(slots)),
        claimed(
            arena_of(a.after_frees(slots), vertices),
            dropped(m, keys, slots.len() as int),
        ),
    decreases slots.len(),
{
    if slots.len() > 0 {
        let n = slots.len() - 1;
        let front = slots.drop_last();
        assert forall|i: int| 0 <= i < front.len() implies m.contains_key(#[trigger] keys(i))
            && m[keys(i)] == range_of(front[i], vertices) by {}
        lemma_frees(a, vertices, m, front, keys);
        let left = dropped(m, keys, n);
        lemma_dropped(m, keys, n, keys(n));
        assert forall|i: int| 0 <= i < n implies #[trigger] keys(i) != keys(n) by {}
        assert(left.contains_key(keys(n)));
        let s = slots.last();
        let size = if vertices {
            s.vb_size as int
        } else {
            s.ib_size as int
        };
        law_claim_free(arena_of(a.after_frees(front), vertices), left, keys(n), size);
    }
}

/// When the slots of a list are given back, their bytes are free.
pub proof fn lemma_freed(
    a: ArenasView,
    vertices: bool,
    m: Map<Owner, (int, int)>,
    slots: Seq<ChunkSlot>,
    keys: spec_fn(int) -> Owner,
    i: int,
)
    requires
        units_ok(a),
        claimed(arena_of(a, vertices), m),
        forall|i: int|
            0 <= i < slots.len() ==> m.contains_key(#[trigger] keys(i)) && m[keys(i)] == range_of(
                slots[i],
                vertices,
            ),
        forall|i: int, j: int|
            0 <= i < j < slots.len() ==> #[trigger] keys(i) != #[trigger] keys(j),
        0 <= i < slots.len(),
    ensures
        all_free(
            arena_of(a.after_frees(slots), vertices),
            range_of(slots[i], vertices).0,
            range_of(slots[i], vertices).1,
        ),
    decreases slots.len(),
{
    let n = slots.len() - 1;
    let front = slots.drop_last();
    assert forall|i: int| 0 <= i < front.len() implies m.contains_key(#[trigger] keys(i))
        && m[keys(i)] == range_of(front[i], vertices) by {}
    lemma_frees(a, vertices, m, front, keys);
    let left = dropped(m, keys, n);
    lemma_dropped(m, keys, n, keys(n));
    assert forall|i: int| 0 <= i < n implies #[trigger] keys(i) != keys(n) by {}
    assert(left.contains_key(keys(n)));
    let s = slots.last();
    let size = if vertices {
        s.vb_size as int
    } else {
        s.ib_size as int
    };
    let arena = arena_of(a.after_frees(front), vertices);
    if size > 0 {
        law_free(arena, left[keys(n)].0, size);
    } else {
        lemma_round_zero(unit(vertices));
    }
    if i < n {
        lemma_freed(a, vertices, m, front, keys, i);
        let r = range_of(slots[i], vertices);
        assert forall|b: int| r.0 <= b < r.0 + r.1 implies #[trigger] arena_of(
            a.after_frees(slots),
            vertices,
        ).has(b) by {
            assert(arena.has(b));
        }
    }
}

/// Slots that were given up long enough ago are given back: nobody else uses them.
pub proof fn law_release_apart(w: WorldView, plan: PlanView)
    requires
        slots_apart(w, plan),
    ensures
        slots_apart(w.after_release(), plan),
{
    if w.arenas is Some {
        lemma_release(w, plan, true);
        lemma_release(w, plan, false);
    }
}

proof fn lemma_release(w: WorldView, plan: PlanView, vertices: bool)
    requires
        slots_apart(w, plan),
        w.arenas is Some,
    ensures
        units_ok(w.after_release().arenas->0),
        claimed(
            arena_of(w.after_release().arenas->0, vertices),
            claims(w.after_release(), plan, vertices),
        ),
{
    let a = w.arenas->0;
    let m = claims(w, plan, vertices);
    let after = w.after_release();
    let n = claims(after, plan, vertices);
    let keys = |i: int| Owner::First(i);
    let count = w.freed_first.len() as int;
    lemma_frees(a, vertices, m, w.freed_first, keys);
    let left = dropped(m, keys, count);
    let from = |o: Owner|
        match o {
            Owner::First(i) => Owner::Second(i),
            Owner::Second(i) => Owner::Third(i),
            _ => o,
        };
    assert forall|o: Owner| #[trigger] n.contains_key(o) implies left.contains_key(from(o))
        && n[o] == left[from(o)] by {
        lemma_dropped(m, keys, count, from(o));
        assert(m.contains_key(from(o)));
    }
    lemma_claims_move(arena_of(after.arenas->0, vertices), left, n, from);
}

/// Slots that were given up are given back all at once: nobody else uses them.
pub proof fn law_flush_apart(w: WorldView, plan: PlanView)
    requires
        slots_apart(w, plan),
    ensures
        slots_apart(w.after_flush(), plan),
{
    if w.arenas is Some {
        lemma_flush(w, plan, true);
        lemma_flush(w, plan, false);
    }
}

proof fn lemma_flush(w: WorldView, plan: PlanView, vertices: bool)
    requires
        slots_apart(w, plan),
        w.arenas is Some,
    ensures
        units_ok(w.after_flush().arenas->0),
        claimed(
            arena_of(w.after_flush().arenas->0, vertices),
            claims(w.after_flush(), plan, vertices),
        ),
{
    let a = w.arenas->0;
    let m = claims(w, plan, vertices);
    let after = w.after_flush();
    let n = claims(after, plan, vertices);
    let one = w.freed_first.len() as int;
    let two = w.freed_second.len() as int;
    let all = w.all_freed();
    let keys = |i: int|
        if i < one {
            Owner::First(i)
        } else if i < one + two {
            Owner::Second(i - one)
        } else {
            Owner::Third(i - one - two)
        };
    assert forall|i: int| 0 <= i < all.len() implies m.contains_key(#[trigger] keys(i))
        && m[keys(i)] == range_of(all[i], vertices) by {
        if i < one {
            assert(all[i] == w.freed_first[i]);
        } else if i < one + two {
            assert(all[i] == w.freed_second[i - one]);
        } else {
            assert(all[i] == w.freed_third[i - one - two]);
        }
    }
    lemma_frees(a, vertices, m, all, keys);
    let count = all.len() as int;
    let left = dropped(m, keys, count);
    let from = |o: Owner| o;
    assert forall|o: Owner| #[trigger] n.contains_key(o) implies left.contains_key(from(o))
        && n[o] == left[from(o)] by {
        lemma_dropped(m, keys, count, o);
        assert(m.contains_key(o));
    }
    lemma_claims_move(arena_of(after.arenas->0, vertices), left, n, from);
}

// ── Batches in the making ────────────────────────────────────────────────────

proof fn lemma_same_claims(w: WorldView, after: WorldView, plan: PlanView)
    requires
        after == (WorldView { arenas: after.arenas, ..w }),
    ensures
        claims(after, plan, true) == claims(w, plan, true),
        claims(after, plan, false) == claims(w, plan, false),
{
    assert(claims(after, plan, true) =~= claims(w, plan, true));
    assert(claims(after, plan, false) =~= claims(w, plan, false));
}

proof fn lemma_growth_apart(w: WorldView, plan: PlanView, vertices: bool, cap: int)
    requires
        slots_apart(w, plan),
        w.arenas is Some,
        cap <= usize::MAX,
    ensures
        slots_apart(
            w.with_arena(vertices, arena_of(w.arenas->0, vertices).after_growth(cap)),
            plan,
        ),
{
    let arena = arena_of(w.arenas->0, vertices);
    let after = w.with_arena(vertices, arena.after_growth(cap));
    law_claim_growth(arena, claims(w, plan, vertices), cap);
    lemma_same_claims(w, after, plan);
}

/// What an attempt to find room for `size` bytes leaves behind: nothing but what it found.
pub open spec fn attempt_apart(
    w: WorldView,
    plan: PlanView,
    vertices: bool,
    size: int,
    stage: AllocStage,
) -> bool {
    let (step, after) = w.alloc_step(vertices, size, stage);
    &&& after.arenas is Some
    &&& units_ok(after.arenas->0)
    &&& after == (WorldView {
        arenas: after.arenas,
        freed_first: after.freed_first,
        freed_second: after.freed_second,
        freed_third: after.freed_third,
        ..w
    })
    &&& claimed(
        arena_of(after.arenas->0, !vertices),
        claims(after, plan, !vertices),
    )
    &&& match step {
        AllocStep::Placed(off) => forall|o: Owner|
            !#[trigger] claims(after, plan, vertices).contains_key(o) ==> claimed(
                arena_of(after.arenas->0, vertices),
                claims(after, plan, vertices).insert(o, (off as int, round_up(size, unit(vertices)))),
            ),
        _ => claimed(arena_of(after.arenas->0, vertices), claims(after, plan, vertices)),
    }
}

proof fn lemma_taken(w: WorldView, plan: PlanView, vertices: bool, size: int, other: AllocStep)
    requires
        slots_apart(w, plan),
        w.arenas is Some,
        0 <= size,
        other !is Placed,
    ensures
        ({
            let (step, after) = w.taken(vertices, size, other);
            let m = claims(after, plan, vertices);
            &&& after.arenas is Some
            &&& units_ok(after.arenas->0)
            &&& after == (WorldView { arenas: after.arenas, ..w })
            &&& claimed(
                arena_of(after.arenas->0, !vertices),
                claims(after, plan, !vertices),
            )
            &&& match step {
                AllocStep::Placed(off) => forall|o: Owner|
                    !#[trigger] m.contains_key(o) ==> claimed(
                        arena_of(after.arenas->0, vertices),
                        m.insert(o, (off as int, round_up(size, unit(vertices)))),
                    ),
                _ => claimed(arena_of(after.arenas->0, vertices), m),
            }
        }),
{
    let arena = arena_of(w.arenas->0, vertices);
    let m = claims(w, plan, vertices);
    let (step, after) = w.taken(vertices, size, other);
    lemma_same_claims(w, after, plan);
    match step {
        AllocStep::Placed(off) => {
            assert forall|o: Owner| !#[trigger] m.contains_key(o) implies claimed(
                arena_of(after.arenas->0, vertices),
                m.insert(o, (off as int, round_up(size, unit(vertices)))),
            ) by {
                law_claim_alloc(arena, m, o, size);
            }
            if !m.contains_key(Owner::Half) {
                law_claim_alloc(arena, m, Owner::Half, size);
            } else {
                law_claim_alloc(arena, m, Owner::First(-1), size);
            }
        },
        _ => {},
    }
}

proof fn lemma_attempt(
    w: WorldView,
    plan: PlanView,
    vertices: bool,
    size: int,
    stage: AllocStage,
)
    requires
        slots_apart(w, plan),
        w.arenas is Some,
        0 <= size,
    ensures
        attempt_apart(w, plan, vertices, size, stage),
{
    match stage {
        AllocStage::First => {
            lemma_taken(w, plan, vertices, size, AllocStep::Stall);
        },
        AllocStage::Stalled => {
            law_flush_apart(w, plan);
            let f = w.after_flush();
            let cap = arena_of(f.arenas->0, vertices).cap;
            match grown_cap_of(cap, size) {
                Some(grown) => {
                    lemma_taken(f, plan, vertices, size, AllocStep::Grow(grown));
                },
                None => {
                    lemma_taken(f, plan, vertices, size, AllocStep::Failed);
                },
            }
        },
        AllocStage::Grown(cap) => {
            lemma_growth_apart(w, plan, vertices, cap as int);
            let g = w.with_arena(
                vertices,
                arena_of(w.arenas->0, vertices).after_growth(cap as int),
            );
            lemma_taken(g, plan, vertices, size, AllocStep::Failed);
        },
        AllocStage::GrowFailed => {},
    }
}

/// Each step of making a batch takes bytes that nobody uses, and gives back none but its own.
pub proof fn law_step_apart(w: WorldView, plan: PlanView, cam: ChunkCoord, stage: AllocStage)
    requires
        slots_apart(w, plan),
        w.arenas is Some,
        plan.wf(w.arenas->0),
    ensures
        slots_apart(w.upload_step(plan, cam, stage).0, w.upload_step(plan, cam, stage).1),
{
    let (after, next, action) = w.upload_step(plan, cam, stage);
    match plan.item {
        None => {
            assert(claims(after, next, true) =~= claims(w, plan, true));
            assert(claims(after, next, false) =~= claims(w, plan, false));
        },
        Some(item) => {
            match plan.vb {
                None => {
                    lemma_attempt(w, plan, true, item.vb_size as int, stage);
                    let (step, mid) = w.alloc_step(true, item.vb_size as int, stage);
                    assert(claims(after, next, false) =~= claims(mid, plan, false));
                    match step {
                        AllocStep::Placed(off) => {
                            let m = claims(mid, plan, true);
                            assert(!m.contains_key(Owner::Half));
                            assert(claims(after, next, true) =~= m.insert(
                                Owner::Half,
                                (off as int, round_up(item.vb_size as int, 36)),
                            ));
                        },
                        _ => {
                            assert(claims(after, next, true) =~= claims(mid, plan, true));
                        },
                    }
                },
                Some(vb_off) => {
                    lemma_attempt(w, plan, false, item.ib_size as int, stage);
                    let (step, mid) = w.alloc_step(false, item.ib_size as int, stage);
                    let m = claims(mid, plan, true);
                    let k = plan.entries.len() as int;
                    match step {
                        AllocStep::Placed(ib_off) => {
                            let mi = claims(mid, plan, false);
                            assert(!mi.contains_key(Owner::Entry(k)));
                            assert(claims(after, next, false) =~= mi.insert(
                                Owner::Entry(k),
                                (ib_off as int, round_up(item.ib_size as int, 4)),
                            ));
                            let n = claims(after, next, true);
                            let from = |o: Owner|
                                if o == Owner::Entry(k) {
                                    Owner::Half
                                } else {
                                    o
                                };
                            assert forall|o: Owner| #[trigger] n.contains_key(o) implies
                                m.contains_key(from(o)) && n[o] == m[from(o)] by {}
                            lemma_claims_move(mid.arenas->0.vb, m, n, from);
                        },
                        AllocStep::Failed => {
                            assert(m.contains_key(Owner::Half));
                            law_claim_free(
                                mid.arenas->0.vb,
                                m,
                                Owner::Half,
                                item.vb_size as int,
                            );
                            assert(claims(after, next, true) =~= m.remove(Owner::Half));
                            assert(claims(after, next, false) =~= claims(mid, plan, false));
                        },
                        _ => {},
                    }
                },
            }
        },
    }
}

// ── Batches ──────────────────────────────────────────────────────────────────

/// Two slots have no byte in common, in either arena.
pub open spec fn slots_differ(s: ChunkSlot, t: ChunkSlot) -> bool {
    apart(range_of(s, true), range_of(t, true)) && apart(range_of(s, false), range_of(t, false))
}

/// The slots that a batch replaces are those that it lists, and lie apart from each other.
pub open spec fn linked(b: BatchView, allocs: Map<ChunkCoord, [Option<ChunkSlot>; 3]>) -> bool {
    &&& forall|i: int| 0 <= i < b.slots.len() ==> (#[trigger] b.slots[i]).1 < 3
    &&& forall|c: ChunkCoord, lod: int|
        b.has_mesh(c, lod) && #[trigger] slot_in(allocs, c, lod) is Some ==> b.old_slots.contains(
            slot_in(allocs, c, lod)->0,
        )
    &&& forall|c: ChunkCoord, lod: int, d: ChunkCoord, level: int|
        b.has_mesh(c, lod) && b.has_mesh(d, level) && (c != d || lod != level) && #[trigger] slot_in(
            allocs,
            c,
            lod,
        ) is Some && #[trigger] slot_in(allocs, d, level) is Some ==> slots_differ(
            slot_in(allocs, c, lod)->0,
            slot_in(allocs, d, level)->0,
        )
}

/// The batch on its way knows what it replaces.
pub open spec fn batch_linked(w: WorldView) -> bool {
    w.batch matches Some(b) ==> linked(b, w.chunk_allocs)
}

/// The entries of a plan know the slots that they replace.
pub open spec fn plan_linked(w: WorldView, plan: PlanView) -> bool {
    forall|i: int|
        0 <= i < plan.entries.len() ==> (#[trigger] plan.entries[i]).lod < 3
            && plan.entries[i].old_slot == slot_in(
            w.chunk_allocs,
            plan.entries[i].coord,
            plan.entries[i].lod as int,
        )
}

/// All slots of the world are in order: no byte is used twice or while it is free, and a batch
/// knows what it replaces.
pub open spec fn in_order(w: WorldView, plan: PlanView) -> bool {
    slots_apart(w, plan) && batch_linked(w) && plan_linked(w, plan)
}

proof fn lemma_step_linked(w: WorldView, plan: PlanView, cam: ChunkCoord, stage: AllocStage)
    requires
        plan_linked(w, plan),
        w.arenas is Some,
        plan.wf(w.arenas->0),
    ensures
        plan_linked(w.upload_step(plan, cam, stage).0, w.upload_step(plan, cam, stage).1),
        batch_linked(w) ==> batch_linked(w.upload_step(plan, cam, stage).0),
{
    let (after, next, action) = w.upload_step(plan, cam, stage);
    assert(after.chunk_allocs == w.chunk_allocs);
    assert(after.batch == w.batch);
    if next.entries != plan.entries {
        let item = plan.item->0;
        assert(item_ok(item));
        let k = plan.entries.len() as int;
        assert(next.entries.len() == k + 1);
        assert forall|i: int| 0 <= i < next.entries.len() implies (
        #[trigger] next.entries[i]).lod < 3 && next.entries[i].old_slot == slot_in(
            after.chunk_allocs,
            next.entries[i].coord,
            next.entries[i].lod as int,
        ) by {
            if i < k {
                assert(next.entries[i] == plan.entries[i]);
            }
        }
    }
}

/// Each step of making a batch keeps all slots in order.
pub proof fn law_step_in_order(w: WorldView, plan: PlanView, cam: ChunkCoord, stage: AllocStage)
    requires
        in_order(w, plan),
        w.arenas is Some,
        plan.wf(w.arenas->0),
    ensures
        in_order(w.upload_step(plan, cam, stage).0, w.upload_step(plan, cam, stage).1),
{
    law_step_apart(w, plan, cam, stage);
    lemma_step_linked(w, plan, cam, stage);
}

/// A batch that was begun has all slots in order.
pub proof fn law_begin_in_order(w: WorldView)
    requires
        in_order(w, no_plan()),
    ensures
        in_order(w.after_begin_upload().0, w.after_begin_upload().1),
{
    let (after, plan) = w.after_begin_upload();
    assert(claims(after, plan, true) =~= claims(w, no_plan(), true));
    assert(claims(after, plan, false) =~= claims(w, no_plan(), false));
}

/// Which of the first `k` entries the `j`-th of the slots that they replace belongs to.
pub open spec fn pick_entry(entries: Seq<UploadEntry>, k: int, j: int) -> int
    decreases k,
{
    if k <= 0 || j == old_slots_to(entries, k - 1).len() {
        k - 1
    } else {
        pick_entry(entries, k - 1, j)
    }
}

proof fn lemma_pick_entry(entries: Seq<UploadEntry>, k: int, j: int)
    requires
        0 <= j < old_slots_to(entries, k).len(),
    ensures
        ({
            let i = pick_entry(entries, k, j);
            &&& 0 <= i < k
            &&& entries[i].old_slot == Some(old_slots_to(entries, k)[j])
            &&& first_for(entries, i)
            &&& old_slots_to(entries, i).len() == j
        }),
    decreases k,
{
    if j < old_slots_to(entries, k - 1).len() {
        lemma_pick_entry(entries, k - 1, j);
    }
}

/// The slot that the first of several entries for a mesh replaces is listed.
proof fn lemma_listed(w: WorldView, plan: PlanView, k: int, i: int)
    requires
        plan_linked(w, plan),
        0 <= i < k <= plan.entries.len(),
        plan.entries[i].old_slot is Some,
    ensures
        old_slots_to(plan.entries, k).contains(plan.entries[i].old_slot->0),
    decreases k,
{
    let entries = plan.entries;
    let s = entries[i].old_slot->0;
    let now = old_slots_to(entries, k);
    let before = old_slots_to(entries, k - 1);
    if i == k - 1 && first_for(entries, i) {
        assert(now[before.len() as int] == s);
    } else {
        if i == k - 1 {
            let j = choose|j: int|
                0 <= j < i && (#[trigger] entries[j]).coord == entries[i].coord && entries[j].lod
                    == entries[i].lod;
            assert(entries[j].old_slot == entries[i].old_slot);
            lemma_listed(w, plan, k - 1, j);
        } else {
            lemma_listed(w, plan, k - 1, i);
        }
        let m = choose|m: int| 0 <= m < before.len() && before[m] == s;
        assert(now[m] == s);
    }
}

/// When a batch is submitted, its slots stay in order.
pub proof fn law_submitted_in_order(w: WorldView, plan: PlanView)
    requires
        in_order(w, plan),
        w.arenas is Some,
        w.batch is None,
    ensures
        in_order(WorldView { batch: Some(batch_of(plan.entries)), ..w }, no_plan()),
{
    let b = batch_of(plan.entries);
    let entries = plan.entries;
    lemma_submitted(w, plan, true);
    lemma_submitted(w, plan, false);
    assert forall|c: ChunkCoord, lod: int|
        b.has_mesh(c, lod) && #[trigger] slot_in(
            w.chunk_allocs,
            c,
            lod,
        ) is Some implies b.old_slots.contains(slot_in(w.chunk_allocs, c, lod)->0) by {
        let i = choose|i: int|
            0 <= i < b.slots.len() && (#[trigger] b.slots[i]).0 == c && b.slots[i].1 == lod;
        assert(b.slots[i] == (entries[i].coord, entries[i].lod, entries[i].slot));
        lemma_listed(w, plan, entries.len() as int, i);
    }
    assert forall|c: ChunkCoord, lod: int, d: ChunkCoord, level: int|
        b.has_mesh(c, lod) && b.has_mesh(d, level) && (c != d || lod != level) && #[trigger] slot_in(
            w.chunk_allocs,
            c,
            lod,
        ) is Some && #[trigger] slot_in(w.chunk_allocs, d, level) is Some implies slots_differ(
        slot_in(w.chunk_allocs, c, lod)->0,
        slot_in(w.chunk_allocs, d, level)->0,
    ) by {
        let o = Owner::Current(c, lod);
        let p = Owner::Current(d, level);
        assert(claims(w, plan, true).contains_key(o) && claims(w, plan, true).contains_key(p));
        assert(claims(w, plan, false).contains_key(o) && claims(w, plan, false).contains_key(p));
    }
    assert forall|i: int| 0 <= i < b.slots.len() implies (#[trigger] b.slots[i]).1 < 3 by {
        assert(entries[i].lod < 3);
    }
}

proof fn lemma_submitted(w: WorldView, plan: PlanView, vertices: bool)
    requires
        in_order(w, plan),
        w.arenas is Some,
        w.batch is None,
    ensures
        claimed(
            arena_of(w.arenas->0, vertices),
            claims(
                WorldView { batch: Some(batch_of(plan.entries)), ..w },
                no_plan(),
                vertices,
            ),
        ),
{
    let b = batch_of(plan.entries);
    let after = WorldView { batch: Some(b), ..w };
    let entries = plan.entries;
    let k = entries.len() as int;
    let m = claims(w, plan, vertices);
    let n = claims(after, no_plan(), vertices);
    let from = |o: Owner|
        match o {
            Owner::Batch(i) => Owner::Entry(i),
            Owner::Replaced(j) => {
                let e = entries[pick_entry(entries, k, j)];
                Owner::Current(e.coord, e.lod as int)
            },
            _ => o,
        };
    assert forall|o: Owner| #[trigger] n.contains_key(o) implies m.contains_key(from(o)) && n[o]
        == m[from(o)] by {
        if let Owner::Replaced(j) = o {
            lemma_pick_entry(entries, k, j);
        }
    }
    assert forall|o: Owner, p: Owner|
        o != p && #[trigger] n.contains_key(o) && #[trigger] n.contains_key(p) implies from(o)
        != from(p) by {
        if let Owner::Replaced(j) = o {
            let i = pick_entry(entries, k, j);
            lemma_pick_entry(entries, k, j);
            assert(b.slots[i] == (entries[i].coord, entries[i].lod, entries[i].slot));
            assert(after.on_its_way(entries[i].coord, entries[i].lod as int));
            if let Owner::Replaced(l) = p {
                let h = pick_entry(entries, k, l);
                lemma_pick_entry(entries, k, l);
                assert(i != h);
                if i < h {
                    assert(entries[i].coord != entries[h].coord || entries[i].lod
                        != entries[h].lod);
                } else {
                    assert(entries[h].coord != entries[i].coord || entries[h].lod
                        != entries[i].lod);
                }
            }
        } else if let Owner::Replaced(l) = p {
            let h = pick_entry(entries, k, l);
            lemma_pick_entry(entries, k, l);
            assert(b.slots[h] == (entries[h].coord, entries[h].lod, entries[h].slot));
            assert(after.on_its_way(entries[h].coord, entries[h].lod as int));
        }
    }
    lemma_claims_move(arena_of(w.arenas->0, vertices), m, n, from);
}

/// A batch that is given up leaves all slots in order.
pub proof fn law_given_up_in_order(w: WorldView, plan: PlanView)
    requires
        in_order(w, plan),
    ensures
        in_order(w, no_plan()),
{
    if w.arenas is Some {
        let from = |o: Owner| o;
        assert forall|o: Owner| #[trigger]
            claims(w, no_plan(), true).contains_key(o) implies claims(w, plan, true).contains_key(
            from(o),
        ) && claims(w, no_plan(), true)[o] == claims(w, plan, true)[from(o)] by {}
        lemma_claims_move(w.arenas->0.vb, claims(w, plan, true), claims(w, no_plan(), true), from);
        assert forall|o: Owner| #[trigger]
            claims(w, no_plan(), false).contains_key(o) implies claims(w, plan, false).contains_key(
            from(o),
        ) && claims(w, no_plan(), false)[o] == claims(w, plan, false)[from(o)] by {}
        lemma_claims_move(
            w.arenas->0.ib,
            claims(w, plan, false),
            claims(w, no_plan(), false),
            from,
        );
    }
}

/// A batch that is too large gives back what it took, and all slots stay in order.
pub proof fn law_too_large_in_order(w: WorldView, plan: PlanView)
    requires
        in_order(w, plan),
        w.arenas is Some,
    ensures
        in_order(
            WorldView {
                arenas: Some(w.arenas->0.after_frees(entry_slots(plan.entries))),
                ..w
            },
            no_plan(),
        ),
{
    lemma_too_large(w, plan, true);
    lemma_too_large(w, plan, false);
}

proof fn lemma_too_large(w: WorldView, plan: PlanView, vertices: bool)
    requires
        slots_apart(w, plan),
        w.arenas is Some,
    ensures
        ({
            let a = w.arenas->0.after_frees(entry_slots(plan.entries));
            &&& units_ok(a)
            &&& claimed(
                arena_of(a, vertices),
                claims(WorldView { arenas: Some(a), ..w }, no_plan(), vertices),
            )
        }),
{
    let slots = entry_slots(plan.entries);
    let a = w.arenas->0.after_frees(slots);
    let m = claims(w, plan, vertices);
    let n = claims(WorldView { arenas: Some(a), ..w }, no_plan(), vertices);
    let keys = |i: int| Owner::Entry(i);
    lemma_frees(w.arenas->0, vertices, m, slots, keys);
    let count = slots.len() as int;
    let left = dropped(m, keys, count);
    let from = |o: Owner| o;
    assert forall|o: Owner| #[trigger] n.contains_key(o) implies left.contains_key(from(o))
        && n[o] == left[from(o)] by {
        lemma_dropped(m, keys, count, o);
        assert(m.contains_key(o));
    }
    lemma_claims_move(arena_of(a, vertices), left, n, from);
}

// ── Batches that are done ────────────────────────────────────────────────────

/// The last of the first `k` meshes of a batch that is for a chunk and a level of detail; -1 if
/// there is none.
pub open spec fn last_for(
    slots: Seq<(ChunkCoord, usize, ChunkSlot)>,
    c: ChunkCoord,
    lod: int,
    k: int,
) -> int
    decreases k,
{
    if k <= 0 {
        -1
    } else if slots[k - 1].0 == c && slots[k - 1].1 == lod {
        k - 1
    } else {
        last_for(slots, c, lod, k - 1)
    }
}

proof fn lemma_commit(
    w: WorldView,
    slots: Seq<(ChunkCoord, usize, ChunkSlot)>,
    k: int,
    c: ChunkCoord,
    lod: int,
)
    requires
        0 <= k <= slots.len(),
        0 <= lod < 3,
        forall|i: int| 0 <= i < slots.len() ==> (#[trigger] slots[i]).1 < 3,
    ensures
        ({
            let after = w.after_commit(slots, k);
            let i = last_for(slots, c, lod, k);
            &&& -1 <= i < k
            &&& i >= 0 ==> slots[i].0 == c && slots[i].1 == lod && slot_in(
                after.chunk_allocs,
                c,
                lod,
            ) == Some(slots[i].2)
            &&& i < 0 ==> slot_in(after.chunk_allocs, c, lod) == slot_in(w.chunk_allocs, c, lod)
            &&& forall|j: int|
                i < j < k ==> (#[trigger] slots[j]).0 != c || slots[j].1 != lod
            &&& after == (WorldView { chunk_allocs: after.chunk_allocs, ..w })
        }),
    decreases k,
{
    if k > 0 {
        lemma_commit(w, slots, k - 1, c, lod);
        assert(slots[k - 1].1 < 3);
    }
}

/// When a batch is done, its meshes are where it put them, what they replace is given up, and all
/// slots stay in order.
pub proof fn law_batch_in_order(w: WorldView)
    requires
        in_order(w, no_plan()),
    ensures
        in_order(w.after_batch(), no_plan()),
{
    if w.batch is Some {
        lemma_batch_shape(w);
        if w.arenas is Some {
            lemma_batch(w, true);
            lemma_batch(w, false);
        }
    }
}

pub proof fn lemma_batch_shape(w: WorldView)
    requires
        batch_linked(w),
        w.batch is Some,
    ensures
        ({
            let b = w.batch->0;
            let after = w.after_batch();
            after == (WorldView {
                batch: None,
                chunk_allocs: after.chunk_allocs,
                freed_third: w.freed_third + b.old_slots,
                ..w
            })
        }),
{
    let b = w.batch->0;
    let base = WorldView { batch: None, ..w };
    lemma_commit(base, b.slots, b.slots.len() as int, ChunkCoord { x: 0, z: 0 }, 0);
}

proof fn lemma_batch(w: WorldView, vertices: bool)
    requires
        in_order(w, no_plan()),
        w.batch is Some,
        w.arenas is Some,
    ensures
        claimed(
            arena_of(w.arenas->0, vertices),
            claims(w.after_batch(), no_plan(), vertices),
        ),
{
    let b = w.batch->0;
    let base = WorldView { batch: None, ..w };
    let after = w.after_batch();
    let k = b.slots.len() as int;
    let three = w.freed_third.len() as int;
    let m = claims(w, no_plan(), vertices);
    let n = claims(after, no_plan(), vertices);
    lemma_batch_shape(w);
    let from = |o: Owner|
        match o {
            Owner::Current(c, lod) => if last_for(b.slots, c, lod, k) >= 0 {
                Owner::Batch(last_for(b.slots, c, lod, k))
            } else {
                o
            },
            Owner::Third(j) => if j >= three {
                Owner::Replaced(j - three)
            } else {
                o
            },
            _ => o,
        };
    assert forall|o: Owner| #[trigger] n.contains_key(o) implies m.contains_key(from(o)) && n[o]
        == m[from(o)] by {
        if let Owner::Current(c, lod) = o {
            lemma_commit(base, b.slots, k, c, lod);
        }
    }
    assert forall|o: Owner, p: Owner|
        o != p && #[trigger] n.contains_key(o) && #[trigger] n.contains_key(p) implies from(o)
        != from(p) by {
        if let Owner::Current(c, lod) = o {
            lemma_commit(base, b.slots, k, c, lod);
        }
        if let Owner::Current(d, level) = p {
            lemma_commit(base, b.slots, k, d, level);
        }
    }
    lemma_claims_move(arena_of(w.arenas->0, vertices), m, n, from);
}

// ── Unloading ────────────────────────────────────────────────────────────────

/// A mesh of a chunk: the chunk and the level of detail.
pub type Place = (ChunkCoord, int);

/// The slots at the first `k` places of a list, where there are any.
pub open spec fn slots_at(
    allocs: Map<ChunkCoord, [Option<ChunkSlot>; 3]>,
    places: Seq<Place>,
    k: int,
) -> Seq<ChunkSlot>
    decreases k,
{
    if k <= 0 {
        Seq::empty()
    } else {
        match slot_in(allocs, places[k - 1].0, places[k - 1].1) {
            Some(s) => slots_at(allocs, places, k - 1).push(s),
            None => slots_at(allocs, places, k - 1),
        }
    }
}

/// Which of the first `k` places the `j`-th of these slots is at.
pub open spec fn pick(
    allocs: Map<ChunkCoord, [Option<ChunkSlot>; 3]>,
    places: Seq<Place>,
    k: int,
    j: int,
) -> int
    decreases k,
{
    if k <= 0 || j == slots_at(allocs, places, k - 1).len() {
        k - 1
    } else {
        pick(allocs, places, k - 1, j)
    }
}

proof fn lemma_pick(
    allocs: Map<ChunkCoord, [Option<ChunkSlot>; 3]>,
    places: Seq<Place>,
    k: int,
    j: int,
)
    requires
        0 <= j < slots_at(allocs, places, k).len(),
    ensures
        ({
            let i = pick(allocs, places, k, j);
            &&& 0 <= i < k
            &&& slot_in(allocs, places[i].0, places[i].1) == Some(slots_at(allocs, places, k)[j])
            &&& slots_at(allocs, places, i).len() == j
        }),
    decreases k,
{
    if j < slots_at(allocs, places, k - 1).len() {
        lemma_pick(allocs, places, k - 1, j);
    }
}

/// The meshes of the chunks of a list, three for each.
pub open spec fn places_of(list: Seq<ChunkCoord>) -> Seq<Place> {
    Seq::new(3 * list.len(), |i: int| (list[i / 3], i % 3))
}

proof fn lemma_slots_to(
    allocs: Map<ChunkCoord, [Option<ChunkSlot>; 3]>,
    list: Seq<ChunkCoord>,
    k: int,
)
    requires
        0 <= k <= list.len(),
        forall|i: int| 0 <= i < list.len() ==> allocs.contains_key(#[trigger] list[i]),
    ensures
        slots_to(allocs, list, k) == slots_at(allocs, places_of(list), 3 * k),
    decreases k,
{
    if k > 0 {
        lemma_slots_to(allocs, list, k - 1);
        let places = places_of(list);
        let c = list[k - 1];
        let p = 3 * (k - 1);
        assert(allocs.contains_key(list[k - 1]));
        assert(places[p] == (c, 0int));
        assert(places[p + 1] == (c, 1int));
        assert(places[p + 2] == (c, 2int));
        let before = slots_at(allocs, places, p);
        let one = before + opt_seq(allocs[c][0]);
        let two = one + opt_seq(allocs[c][1]);
        assert(slots_at(allocs, places, p + 1) =~= one);
        assert(slots_at(allocs, places, p + 2) =~= two);
        assert(slots_at(allocs, places, p + 3) =~= two + opt_seq(allocs[c][2]));
        assert(before + slots_in(allocs[c]) =~= two + opt_seq(allocs[c][2]));
    }
}

proof fn lemma_unload(w: WorldView, cam: ChunkCoord, gone: Seq<ChunkCoord>, vertices: bool)
    requires
        slots_apart(w, no_plan()),
        w.arenas is Some,
        lists(gone, w.unloaded(cam)),
    ensures
        claimed(
            arena_of(w.arenas->0, vertices),
            claims(w.after_unload(cam, gone), no_plan(), vertices),
        ),
{
    let after = w.after_unload(cam, gone);
    let m = claims(w, no_plan(), vertices);
    let n = claims(after, no_plan(), vertices);
    let kept = w.still_loaded(cam);
    if kept == w.loaded {
        assert(after == w);
    } else {
        let leaving = w.leaving_allocs();
        assert forall|i: int| 0 <= i < gone.len() implies leaving.contains_key(
            #[trigger] gone[i],
        ) && w.unloaded(cam).contains(gone[i]) by {
            assert(gone.to_set().contains(gone[i]));
        }
        let places = places_of(gone);
        let k = places.len() as int;
        lemma_slots_to(leaving, gone, gone.len() as int);
        let three = w.freed_third.len() as int;
        let from = |o: Owner|
            match o {
                Owner::Third(j) => if j >= three {
                    let p = places[pick(leaving, places, k, j - three)];
                    Owner::Current(p.0, p.1)
                } else {
                    o
                },
                _ => o,
            };
        assert forall|o: Owner| #[trigger] n.contains_key(o) implies m.contains_key(from(o))
            && n[o] == m[from(o)] by {
            match o {
                Owner::Third(j) => {
                    if j >= three {
                        let i = pick(leaving, places, k, j - three);
                        lemma_pick(leaving, places, k, j - three);
                        lemma_leaving(w, places[i].0, places[i].1);
                    }
                },
                _ => {},
            }
        }
        assert forall|o: Owner, p: Owner|
            o != p && #[trigger] n.contains_key(o) && #[trigger] n.contains_key(p) implies from(o)
            != from(p) by {
            if o is Third && o->Third_0 >= three {
                let i = pick(leaving, places, k, o->Third_0 - three);
                lemma_pick(leaving, places, k, o->Third_0 - three);
                lemma_leaving(w, places[i].0, places[i].1);
                assert(places[i] == (gone[i / 3], i % 3));
                assert(w.unloaded(cam).contains(gone[i / 3]));
                if p is Third && p->Third_0 >= three {
                    let j = pick(leaving, places, k, p->Third_0 - three);
                    lemma_pick(leaving, places, k, p->Third_0 - three);
                    assert(places[j] == (gone[j / 3], j % 3));
                    assert(i != j);
                    if places[i] == places[j] {
                        assert(gone[i / 3] == gone[j / 3]);
                        assert(i / 3 == j / 3);
                    }
                } else if p is Current {
                    assert(kept.contains(p->Current_0));
                }
            } else if p is Third && p->Third_0 >= three {
                let i = pick(leaving, places, k, p->Third_0 - three);
                lemma_pick(leaving, places, k, p->Third_0 - three);
                lemma_leaving(w, places[i].0, places[i].1);
                assert(places[i] == (gone[i / 3], i % 3));
                assert(w.unloaded(cam).contains(gone[i / 3]));
                if o is Current {
                    assert(kept.contains(o->Current_0));
                }
            }
        }
        lemma_claims_move(arena_of(w.arenas->0, vertices), m, n, from);
    }
}

/// A slot is given up with its chunk only if no mesh on its way replaces it.
proof fn lemma_leaving(w: WorldView, c: ChunkCoord, lod: int)
    requires
        slot_in(w.leaving_allocs(), c, lod) is Some,
    ensures
        slot_in(w.chunk_allocs, c, lod) == slot_in(w.leaving_allocs(), c, lod),
        !w.on_its_way(c, lod),
{
    assert(w.leaving_allocs()[c] == w.leaving(c));
    assert(lod == 0 || lod == 1 || lod == 2);
}

proof fn lemma_unload_linked(w: WorldView, cam: ChunkCoord, gone: Seq<ChunkCoord>)
    requires
        batch_linked(w),
    ensures
        batch_linked(w.after_unload(cam, gone)),
{
    let after = w.after_unload(cam, gone);
    if w.batch is Some {
        let b = w.batch->0;
        assert forall|c: ChunkCoord, lod: int| #[trigger]
            slot_in(after.chunk_allocs, c, lod) is Some implies slot_in(after.chunk_allocs, c, lod)
            == slot_in(w.chunk_allocs, c, lod) by {}
        assert forall|c: ChunkCoord, lod: int|
            b.has_mesh(c, lod) && #[trigger] slot_in(
                after.chunk_allocs,
                c,
                lod,
            ) is Some implies b.old_slots.contains(slot_in(after.chunk_allocs, c, lod)->0) by {
            assert(slot_in(w.chunk_allocs, c, lod) is Some);
        }
        assert forall|c: ChunkCoord, lod: int, d: ChunkCoord, level: int|
            b.has_mesh(c, lod) && b.has_mesh(d, level) && (c != d || lod != level)
                && #[trigger] slot_in(after.chunk_allocs, c, lod) is Some && #[trigger] slot_in(
                after.chunk_allocs,
                d,
                level,
            ) is Some implies slots_differ(
            slot_in(after.chunk_allocs, c, lod)->0,
            slot_in(after.chunk_allocs, d, level)->0,
        ) by {
            assert(slot_in(w.chunk_allocs, c, lod) is Some);
            assert(slot_in(w.chunk_allocs, d, level) is Some);
        }
    }
}

// ── Frames ───────────────────────────────────────────────────────────────────

/// Two worlds have the same slots.
pub open spec fn same_slots(a: WorldView, b: WorldView) -> bool {
    &&& a.arenas == b.arenas
    &&& a.chunk_allocs == b.chunk_allocs
    &&& a.batch == b.batch
    &&& a.freed_first == b.freed_first
    &&& a.freed_second == b.freed_second
    &&& a.freed_third == b.freed_third
}

pub proof fn lemma_same_slots(a: WorldView, b: WorldView, plan: PlanView)
    requires
        in_order(a, plan),
        same_slots(a, b),
    ensures
        in_order(b, plan),
{
    assert(claims(b, plan, true) =~= claims(a, plan, true));
    assert(claims(b, plan, false) =~= claims(a, plan, false));
}

/// When the camera enters another chunk, all slots stay in order.
pub proof fn law_move_in_order(
    w: WorldView,
    cam: ChunkCoord,
    gone: Seq<ChunkCoord>,
    missing: Seq<ChunkCoord>,
    queue: Seq<ChunkCoord>,
    detail: Seq<ChunkCoord>,
)
    requires
        in_order(w, no_plan()),
        lists(gone, w.unloaded(cam)),
    ensures
        in_order(w.after_move(cam, gone, missing, queue, detail), no_plan()),
{
    lemma_unload_linked(w, cam, gone);
    let after = w.after_unload(cam, gone);
    if w.arenas is Some {
        lemma_unload(w, cam, gone, true);
        lemma_unload(w, cam, gone, false);
    }
    assert(in_order(after, no_plan()));
    lemma_same_slots(after, w.after_move(cam, gone, missing, queue, detail), no_plan());
}

pub proof fn lemma_neighbours_slots<F: Fn(i32, i32) -> HeightField>(
    w: WorldView,
    f: F,
    c: ChunkCoord,
    k: int,
)
    ensures
        same_slots(w, w.after_neighbours(f, c, k).0),
    decreases k,
{
    if k > 0 {
        lemma_neighbours_slots(w, f, c, k - 1);
    }
}

proof fn lemma_arrivals_slots<F: Fn(i32, i32) -> HeightField>(
    w: WorldView,
    f: F,
    cam: ChunkCoord,
    arrivals: Seq<Arrival>,
    k: int,
)
    ensures
        same_slots(w, w.after_arrivals(f, cam, arrivals, k).0),
    decreases k,
{
    if k > 0 {
        lemma_arrivals_slots(w, f, cam, arrivals, k - 1);
        let v = w.after_arrivals(f, cam, arrivals, k - 1).0;
        let a = arrivals[k - 1]@;
        let own = v.after_arrival(cam, a.coord, a.faces, a.chunk).after_own_mesh(f, a.coord).0;
        lemma_neighbours_slots(own, f, a.coord, 4);
    }
}

proof fn lemma_meshes_slots(w: WorldView, cam: ChunkCoord, meshed: Seq<Meshed>, k: int)
    ensures
        same_slots(w, w.after_meshes(cam, meshed, k)),
    decreases k,
{
    if k > 0 {
        lemma_meshes_slots(w, cam, meshed, k - 1);
    }
}

pub proof fn lemma_remeshes_slots<F: Fn(i32, i32) -> HeightField>(
    w: WorldView,
    f: F,
    list: Seq<ChunkCoord>,
    k: int,
)
    ensures
        same_slots(w, w.after_remeshes(f, list, k)),
    decreases k,
{
    if k > 0 {
        lemma_remeshes_slots(w, f, list, k - 1);
    }
}

/// A frame keeps all slots in order. What comes after its begin leaves them as they are.
pub proof fn law_update_in_order<F: Fn(i32, i32) -> HeightField>(
    w: WorldView,
    f: F,
    cam: ChunkCoord,
    threads: int,
    batch_done: bool,
    arrivals: Seq<Arrival>,
    meshed: Seq<Meshed>,
    remeshed: Seq<ChunkCoord>,
)
    requires
        in_order(w, no_plan()),
    ensures
        in_order(
            w.after_update(f, cam, threads, batch_done, arrivals, meshed, remeshed),
            no_plan(),
        ),
        same_slots(
            w.after_begin(threads, batch_done),
            w.after_update(f, cam, threads, batch_done, arrivals, meshed, remeshed),
        ),
{
    law_release_apart(w, no_plan());
    let released = w.after_release();
    assert(in_order(released, no_plan()));
    let taken = released.after_take(threads);
    lemma_same_slots(released, taken, no_plan());
    law_batch_in_order(taken);
    let w1 = w.after_begin(threads, batch_done);
    assert(in_order(w1, no_plan()));
    let w2 = w1.after_arrivals(f, cam, arrivals, arrivals.len() as int).0;
    lemma_arrivals_slots(w1, f, cam, arrivals, arrivals.len() as int);
    let waited = w2.after_waiting();
    let w3 = waited.after_meshes(cam, meshed, meshed.len() as int);
    lemma_meshes_slots(waited, cam, meshed, meshed.len() as int);
    lemma_remeshes_slots(w3, f, remeshed, remeshed.len() as int);
    lemma_same_slots(w1, w3.after_remeshes(f, remeshed, remeshed.len() as int), no_plan());
}

pub proof fn lemma_sides_slots<F: Fn(i32, i32) -> HeightField>(
    w: WorldView,
    f: F,
    p: BlockPos,
    k: int,
)
    ensures
        same_slots(w, w.after_sides(f, p, k)),
    decreases k,
{
    if k > 0 {
        lemma_sides_slots(w, f, p, k - 1);
    }
}

/// An edit keeps all slots in order: the new mesh is uploaded like any other.
pub proof fn law_edit_in_order<F: Fn(i32, i32) -> HeightField>(
    w: WorldView,
    f: F,
    p: BlockPos,
    id: BlockId,
)
    requires
        in_order(w, no_plan()),
    ensures
        in_order(w.after_set_block(f, p, id), no_plan()),
{
    let put = w.after_put(f, p, id).after_remesh(f, home(p));
    lemma_sides_slots(put, f, p, 4);
    lemma_same_slots(w, w.after_set_block(f, p, id), no_plan());
}

// ── What follows ─────────────────────────────────────────────────────────────

/// A world without buffers gets new ones: all slots are in order.
pub proof fn law_new_arenas_in_order(w: WorldView, vb_cap: int, ib_cap: int)
    requires
        w.wf(),
        w.arenas is None,
        0 < vb_cap <= usize::MAX,
        0 < ib_cap <= usize::MAX,
    ensures
        in_order(
            WorldView {
                arenas: Some(
                    ArenasView {
                        vb: ArenaView::fresh(vb_cap, 36),
                        ib: ArenaView::fresh(ib_cap, 4),
                    },
                ),
                ..w
            },
            no_plan(),
        ),
{
    let after = WorldView {
        arenas: Some(
            ArenasView { vb: ArenaView::fresh(vb_cap, 36), ib: ArenaView::fresh(ib_cap, 4) },
        ),
        ..w
    };
    lemma_fresh(vb_cap, 36);
    lemma_fresh(ib_cap, 4);
    assert forall|o: Owner| !#[trigger] claims(after, no_plan(), true).contains_key(o) by {
        if let Owner::Current(c, lod) = o {
            assert(!w.chunk_allocs.contains_key(c));
        }
    }
    assert forall|o: Owner| !#[trigger] claims(after, no_plan(), false).contains_key(o) by {
        if let Owner::Current(c, lod) = o {
            assert(!w.chunk_allocs.contains_key(c));
        }
    }
}

proof fn lemma_fresh(cap: int, align: int)
    requires
        0 < cap <= usize::MAX,
        0 < align <= usize::MAX,
    ensures
        ArenaView::fresh(cap, align).wf(),
{
    lemma_round_zero(align);
}

/// Where all slots are in order, the meshes that are drawn lie apart from each other, and none of
/// their bytes is free.
pub proof fn law_meshes_apart(
    w: WorldView,
    plan: PlanView,
    c: ChunkCoord,
    lod: int,
    d: ChunkCoord,
    level: int,
)
    requires
        in_order(w, plan),
        w.arenas is Some,
        slot_in(w.chunk_allocs, c, lod) is Some,
        slot_in(w.chunk_allocs, d, level) is Some,
        c != d || lod != level,
    ensures
        ({
            let s = slot_in(w.chunk_allocs, c, lod)->0;
            let t = slot_in(w.chunk_allocs, d, level)->0;
            let a = w.arenas->0;
            &&& apart(range_of(s, true), range_of(t, true))
            &&& apart(range_of(s, false), range_of(t, false))
            &&& claim_ok(a.vb, range_of(s, true))
            &&& claim_ok(a.ib, range_of(s, false))
        }),
{
    let s = slot_in(w.chunk_allocs, c, lod)->0;
    let t = slot_in(w.chunk_allocs, d, level)->0;
    let o = lemma_drawn(w, plan, c, lod);
    let p = lemma_drawn(w, plan, d, level);
    if !(w.on_its_way(c, lod) && w.on_its_way(d, level)) {
        assert(o != p);
    }
}

/// Who has a slot that a chunk is drawn from.
proof fn lemma_drawn(w: WorldView, plan: PlanView, c: ChunkCoord, lod: int) -> (o: Owner)
    requires
        in_order(w, plan),
        slot_in(w.chunk_allocs, c, lod) is Some,
    ensures
        claims(w, plan, true).contains_key(o),
        claims(w, plan, false).contains_key(o),
        claims(w, plan, true)[o] == range_of(slot_in(w.chunk_allocs, c, lod)->0, true),
        claims(w, plan, false)[o] == range_of(slot_in(w.chunk_allocs, c, lod)->0, false),
        if w.on_its_way(c, lod) {
            o is Replaced
        } else {
            o == Owner::Current(c, lod)
        },
{
    if w.on_its_way(c, lod) {
        let b = w.batch->0;
        let s = slot_in(w.chunk_allocs, c, lod)->0;
        let j = choose|j: int| 0 <= j < b.old_slots.len() && b.old_slots[j] == s;
        Owner::Replaced(j)
    } else {
        Owner::Current(c, lod)
    }
}

} // verus!
