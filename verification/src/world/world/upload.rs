//! Moving meshes to the GPU, one batch at a time.

use super::{arena_of, AllocStage, AllocStep, PendingBatch, World};
use crate::meshing::lods::MAX_QUADS;
use crate::render::arena::{round_up, ArenaView};
use crate::render::mesh::{slot_at, ChunkSlot, IB_ALIGN, VB_ALIGN};
use crate::world::coords::{chebyshev, ChunkCoord};
use crate::world::grid::{distance, lemma_filter_from};
use crate::world::state::{all_fit, allocs_fit, ArenasView, BatchView, WorldView};
use vstd::prelude::*;

verus! {

/// Chunks in a batch.
pub const MAX_UPLOAD_BATCH: usize = 64;

/// Bytes of vertices in a batch: 128 MiB.
pub const STAGING_VB_CAP: u64 = 134217728;

/// Bytes of indices in a batch: 32 MiB.
pub const STAGING_IB_CAP: u64 = 33554432;

/// A mesh that is to be uploaded.
#[derive(Clone, Copy, Debug, PartialEq, Eq, Structural)]
pub struct UploadItem {
    pub coord: ChunkCoord,
    pub lod: usize,
    pub vb_size: usize,
    pub ib_size: usize,
    pub index_count: usize,
}

/// A mesh that has a place in the arenas and in the staging buffers.
#[derive(Clone, Copy, Debug)]
pub struct UploadEntry {
    pub coord: ChunkCoord,
    pub lod: usize,
    pub slot: ChunkSlot,
    /// Where the mesh was before.
    pub old_slot: Option<ChunkSlot>,
    /// Offset in the staging buffer for vertices.
    pub vb_stage: u64,
    /// Offset in the staging buffer for indices.
    pub ib_stage: u64,
}

/// A batch in the making.
pub struct UploadPlan {
    /// The chunks of the batch.
    pub coords: Vec<ChunkCoord>,
    /// The next mesh to look at: three for each chunk.
    pub next: usize,
    pub entries: Vec<UploadEntry>,
    /// Bytes of vertices in the entries.
    pub vb_total: u64,
    /// Bytes of indices in the entries.
    pub ib_total: u64,
    /// The mesh that room is looked for.
    pub item: Option<UploadItem>,
    /// Where the vertices of that mesh go, once there is room for them.
    pub vb: Option<usize>,
}

#[verifier::ext_equal]
pub struct PlanView {
    pub coords: Seq<ChunkCoord>,
    pub next: int,
    pub entries: Seq<UploadEntry>,
    pub vb_total: int,
    pub ib_total: int,
    pub item: Option<UploadItem>,
    pub vb: Option<usize>,
}

impl View for UploadPlan {
    type V = PlanView;

    open spec fn view(&self) -> PlanView {
        PlanView {
            coords: self.coords@,
            next: self.next as int,
            entries: self.entries@,
            vb_total: self.vb_total as int,
            ib_total: self.ib_total as int,
            item: self.item,
            vb: self.vb,
        }
    }
}

/// A batch in the making without anything in it.
pub open spec fn no_plan() -> PlanView {
    PlanView {
        coords: Seq::empty(),
        next: 0,
        entries: Seq::empty(),
        vb_total: 0,
        ib_total: 0,
        item: None,
        vb: None,
    }
}

/// What is needed next to make a batch.
#[derive(Clone, Copy, Debug, PartialEq, Eq, Structural)]
pub enum UploadAction {
    /// Nothing: go on.
    Continue,
    /// Nothing: there was no room for a mesh, go on with the next.
    Skipped,
    /// Wait until the GPU is idle.
    Stall,
    /// Replace the vertex buffer by one of this size.
    GrowVertices(usize),
    /// Replace the index buffer by one of this size.
    GrowIndices(usize),
    /// All meshes were looked at.
    Close,
}

/// What becomes of a batch.
#[derive(Clone, Copy, Debug, PartialEq, Eq, Structural)]
pub enum Verdict {
    /// It has no meshes. Its chunks are queued again.
    Empty,
    /// There are no staging buffers.
    NoStaging,
    /// It does not fit into the staging buffers. Its chunks are queued again.
    TooLarge,
    /// It can be submitted.
    Ready,
}

/// More bytes of vertices than a mesh can have.
pub open spec fn max_vb_size() -> int {
    144 * MAX_QUADS
}

/// More bytes of indices than a mesh can have.
pub open spec fn max_ib_size() -> int {
    24 * MAX_QUADS
}

/// A mesh that is to be uploaded is no larger than the mesh of a chunk.
pub open spec fn item_ok(item: UploadItem) -> bool {
    &&& item.lod < 3
    &&& item.vb_size <= max_vb_size()
    &&& item.ib_size <= max_ib_size()
    &&& item.ib_size == item.index_count * 4
}

impl PlanView {
    /// The slots of the entries lie inside the arenas.
    pub open spec fn fits(self, a: ArenasView) -> bool {
        &&& forall|i: int|
            0 <= i < self.entries.len() ==> a.fits((#[trigger] self.entries[i]).slot)
                && self.entries[i].lod < 3
        &&& forall|i: int|
            0 <= i < self.entries.len() ==> ((#[trigger] self.entries[i]).old_slot matches Some(s)
                ==> a.fits(s))
    }

    /// A batch as it can be in the making.
    pub open spec fn wf(self, a: ArenasView) -> bool {
        &&& self.fits(a)
        &&& self.coords.len() <= MAX_UPLOAD_BATCH
        &&& 0 <= self.next <= 3 * self.coords.len()
        &&& self.entries.len() + (if self.item is Some {
            1int
        } else {
            0int
        }) <= self.next
        &&& 0 <= self.vb_total <= self.entries.len() * max_vb_size()
        &&& 0 <= self.ib_total <= self.entries.len() * max_ib_size()
        &&& self.item matches Some(item) ==> item_ok(item)
        &&& self.vb matches Some(off) ==> self.item is Some && off + round_up(
            self.item->0.vb_size as int,
            36,
        ) <= a.vb.cap
    }
}

impl PlanView {
    /// What becomes of a batch.
    pub open spec fn verdict(self, staging: bool) -> Verdict {
        if self.entries.len() == 0 {
            Verdict::Empty
        } else if !staging {
            Verdict::NoStaging
        } else if self.vb_total > STAGING_VB_CAP || self.ib_total > STAGING_IB_CAP {
            Verdict::TooLarge
        } else {
            Verdict::Ready
        }
    }
}

impl WorldView {
    /// The world after it was decided what becomes of a batch. One that does not fit into the
    /// staging buffers gives back the room that was found for its meshes.
    pub open spec fn after_close(self, plan: PlanView, verdict: Verdict) -> WorldView {
        match verdict {
            Verdict::Empty => self.after_requeue(plan.coords),
            Verdict::TooLarge => (WorldView {
                arenas: Some(self.arenas->0.after_frees(entry_slots(plan.entries))),
                ..self
            }).after_requeue(plan.coords),
            _ => self,
        }
    }

    /// The mesh at place `p` of a list of chunks, three for each, if it is to be uploaded. The
    /// full mesh is left out for chunks that are far away.
    pub open spec fn wanted(self, coords: Seq<ChunkCoord>, cam: ChunkCoord, p: int) -> Option<
        UploadItem,
    > {
        let coord = coords[p / 3];
        let lod = p % 3;
        let mesh = self.cpu_meshes[coord].level(lod);
        if !self.cpu_meshes.contains_key(coord) || (lod == 0 && chebyshev(coord, cam)
            >= self.lod1_dist) || mesh.vertices.len() == 0 {
            None
        } else {
            Some(
                UploadItem {
                    coord,
                    lod: lod as usize,
                    vb_size: (mesh.vertices.len() * 36) as usize,
                    ib_size: (mesh.indices.len() * 4) as usize,
                    index_count: mesh.indices.len() as usize,
                },
            )
        }
    }

    /// The first place from `p` on with a mesh that is to be uploaded.
    pub open spec fn next_wanted(self, coords: Seq<ChunkCoord>, cam: ChunkCoord, p: int) -> int
        decreases 3 * coords.len() - p,
    {
        if p >= 3 * coords.len() || self.wanted(coords, cam, p) is Some {
            p
        } else {
            self.next_wanted(coords, cam, p + 1)
        }
    }

    /// The buffers are small enough for their sizes to be doubled.
    pub open spec fn can_grow(self) -> bool {
        self.arenas matches Some(a) ==> a.vb.cap + max_vb_size() <= usize::MAX / 4 && a.ib.cap
            + max_ib_size() <= usize::MAX / 4
    }

    /// The world after a batch was begun with the first chunks of the queue, and the batch.
    pub open spec fn after_begin_upload(self) -> (WorldView, PlanView) {
        let q = self.upload_queue;
        let n = if q.len() < MAX_UPLOAD_BATCH {
            q.len() as int
        } else {
            MAX_UPLOAD_BATCH as int
        };
        (WorldView { upload_queue: q.skip(n), ..self }, PlanView { coords: q.take(n), ..no_plan() })
    }

    /// One step of making a batch. `stage` says what was done since the last step.
    pub open spec fn upload_step(self, plan: PlanView, cam: ChunkCoord, stage: AllocStage) -> (
        WorldView,
        PlanView,
        UploadAction,
    ) {
        match plan.item {
            None => {
                let p = self.next_wanted(plan.coords, cam, plan.next);
                if p < 3 * plan.coords.len() {
                    (
                        self,
                        PlanView { next: p + 1, item: self.wanted(plan.coords, cam, p), ..plan },
                        UploadAction::Continue,
                    )
                } else {
                    (
                        self,
                        PlanView { next: 3 * plan.coords.len() as int, ..plan },
                        UploadAction::Close,
                    )
                }
            },
            Some(item) => match plan.vb {
                None => {
                    let (step, w) = self.alloc_step(true, item.vb_size as int, stage);
                    match step {
                        AllocStep::Placed(off) => (
                            w,
                            PlanView { vb: Some(off), ..plan },
                            UploadAction::Continue,
                        ),
                        AllocStep::Stall => (w, plan, UploadAction::Stall),
                        AllocStep::Grow(cap) => (w, plan, UploadAction::GrowVertices(cap)),
                        AllocStep::Failed => (
                            w,
                            PlanView { item: None, ..plan },
                            UploadAction::Skipped,
                        ),
                    }
                },
                Some(vb_off) => {
                    let (step, w) = self.alloc_step(false, item.ib_size as int, stage);
                    match step {
                        AllocStep::Placed(ib_off) => (
                            w,
                            w.placed(plan, item, vb_off, ib_off),
                            UploadAction::Continue,
                        ),
                        AllocStep::Stall => (w, plan, UploadAction::Stall),
                        AllocStep::Grow(cap) => (w, plan, UploadAction::GrowIndices(cap)),
                        AllocStep::Failed => (
                            w.with_arena(
                                true,
                                w.arenas->0.vb.after_free(vb_off as int, item.vb_size as int),
                            ),
                            PlanView { item: None, vb: None, ..plan },
                            UploadAction::Skipped,
                        ),
                    }
                },
            },
        }
    }

    /// A batch after a mesh for which there is room was put into it. The slot that it replaces
    /// stays current until the batch is done.
    pub open spec fn placed(
        self,
        plan: PlanView,
        item: UploadItem,
        vb_off: usize,
        ib_off: usize,
    ) -> PlanView {
        PlanView {
            entries: plan.entries.push(
                UploadEntry {
                    coord: item.coord,
                    lod: item.lod,
                    slot: slot_at(vb_off, item.vb_size, ib_off, item.index_count),
                    old_slot: self.slot_of(item.coord, item.lod as int),
                    vb_stage: plan.vb_total as u64,
                    ib_stage: plan.ib_total as u64,
                },
            ),
            vb_total: plan.vb_total + item.vb_size,
            ib_total: plan.ib_total + item.ib_size,
            item: None,
            vb: None,
            ..plan
        }
    }

    /// The slot that a chunk has for a level of detail.
    pub open spec fn slot_of(self, c: ChunkCoord, lod: int) -> Option<ChunkSlot> {
        if self.chunk_allocs.contains_key(c) {
            self.chunk_allocs[c][lod]
        } else {
            None
        }
    }

    /// The world after chunks whose upload failed were put back to the front of the queue.
    pub open spec fn after_requeue(self, coords: Seq<ChunkCoord>) -> WorldView {
        WorldView {
            upload_queue: coords.filter(|c: ChunkCoord| self.cpu_meshes.contains_key(c))
                + self.upload_queue,
            ..self
        }
    }

    /// The world after the first `k` slots of a batch became current.
    pub open spec fn after_commit(
        self,
        slots: Seq<(ChunkCoord, usize, ChunkSlot)>,
        k: int,
    ) -> WorldView
        decreases k,
    {
        if k <= 0 {
            self
        } else {
            let w = self.after_commit(slots, k - 1);
            let (coord, lod, slot) = slots[k - 1];
            let allocs = if w.chunk_allocs.contains_key(coord) {
                w.chunk_allocs[coord]
            } else {
                [None, None, None]
            };
            WorldView {
                chunk_allocs: w.chunk_allocs.insert(coord, with_slot(allocs, lod as int, slot)),
                ..w
            }
        }
    }

    /// The world after a batch is done: its slots are current and those that they replace are
    /// given up.
    pub open spec fn after_batch(self) -> WorldView {
        match self.batch {
            Some(b) => {
                let w = WorldView { batch: None, ..self }.after_commit(
                    b.slots,
                    b.slots.len() as int,
                );
                WorldView { freed_third: w.freed_third + b.old_slots, ..w }
            },
            None => self,
        }
    }
}

/// The slots of a chunk with that of one level replaced.
pub open spec fn with_slot(allocs: [Option<ChunkSlot>; 3], lod: int, slot: ChunkSlot) -> [Option<
    ChunkSlot,
>; 3] {
    if lod == 0 {
        [Some(slot), allocs[1], allocs[2]]
    } else if lod == 1 {
        [allocs[0], Some(slot), allocs[2]]
    } else {
        [allocs[0], allocs[1], Some(slot)]
    }
}

/// The slots of the entries of a plan.
pub open spec fn entry_slots(entries: Seq<UploadEntry>) -> Seq<ChunkSlot> {
    entries.map_values(|e: UploadEntry| e.slot)
}

/// An entry of a plan is the first for its mesh.
pub open spec fn first_for(entries: Seq<UploadEntry>, i: int) -> bool {
    forall|j: int|
        0 <= j < i ==> (#[trigger] entries[j]).coord != entries[i].coord || entries[j].lod
            != entries[i].lod
}

/// The slots that the first `k` entries of a plan replace. A slot that more than one of them
/// replaces is listed once, as it is given up once.
pub open spec fn old_slots_to(entries: Seq<UploadEntry>, k: int) -> Seq<ChunkSlot>
    decreases k,
{
    if k <= 0 {
        Seq::empty()
    } else {
        match entries[k - 1].old_slot {
            Some(s) => if first_for(entries, k - 1) {
                old_slots_to(entries, k - 1).push(s)
            } else {
                old_slots_to(entries, k - 1)
            },
            None => old_slots_to(entries, k - 1),
        }
    }
}

/// The batch of a plan.
pub open spec fn batch_of(entries: Seq<UploadEntry>) -> BatchView {
    BatchView {
        slots: entries.map_values(|e: UploadEntry| (e.coord, e.lod, e.slot)),
        old_slots: old_slots_to(entries, entries.len() as int),
    }
}

/// Whether an entry of a plan is the first for its mesh.
fn is_first_for(entries: &Vec<UploadEntry>, i: usize) -> (r: bool)
    requires
        i < entries.len(),
    ensures
        r == first_for(entries@, i as int),
{
    let e = entries[i];
    let mut j: usize = 0;
    while j < i
        invariant
            j <= i < entries.len(),
            e == entries[i as int],
            forall|k: int|
                0 <= k < j ==> (#[trigger] entries@[k]).coord != e.coord || entries@[k].lod
                    != e.lod,
        decreases i - j,
    {
        let d = entries[j];
        if d.coord.x == e.coord.x && d.coord.z == e.coord.z && d.lod == e.lod {
            assert(entries@[j as int].coord == e.coord);
            return false;
        }
        j = j + 1;
    }
    true
}

/// An arena may change in place or grow.
proof fn lemma_with_arena(w: WorldView, vertices: bool, arena: ArenaView)
    requires
        w.wf(),
        w.arenas is Some,
        arena.bounded(),
        arena.align == arena_of(w.arenas->0, vertices).align,
        arena.cap >= arena_of(w.arenas->0, vertices).cap,
    ensures
        w.with_arena(vertices, arena).wf(),
{
    let a = w.arenas->0;
    let b = w.with_arena(vertices, arena).arenas->0;
    assert forall|s: ChunkSlot| #[trigger] a.fits(s) implies b.fits(s) by {}
    let v = w.with_arena(vertices, arena);
    assert forall|c: ChunkCoord| v.chunk_allocs.contains_key(c) implies allocs_fit(
        b,
        #[trigger] v.chunk_allocs[c],
    ) by {
        assert(allocs_fit(a, w.chunk_allocs[c]));
    }
    assert(v.slots_fit());
    assert(v.coords_fit());
    assert(v.chunks_fit());
}

/// Looking for room never makes an arena smaller.
proof fn lemma_caps_kept(w: WorldView, vertices: bool, size: int, stage: AllocStage)
    requires
        w.wf(),
        w.arenas is Some,
    ensures
        ({
            let after = w.alloc_step(vertices, size, stage).1;
            &&& after.arenas is Some
            &&& after.arenas->0.vb.cap >= w.arenas->0.vb.cap
            &&& after.arenas->0.ib.cap >= w.arenas->0.ib.cap
            &&& after.arenas->0.vb.align == 36
            &&& after.arenas->0.ib.align == 4
            &&& after.chunk_allocs == w.chunk_allocs
        }),
{
    let a = w.arenas->0;
    assert(all_fit(a, w.all_freed()));
    super::lemma_frees_fit(a, w.all_freed());
}

/// What lies inside the arenas lies inside larger ones.
proof fn lemma_fits_kept(p: PlanView, a: ArenasView, b: ArenasView)
    requires
        p.wf(a),
        a.vb.cap <= b.vb.cap,
        a.ib.cap <= b.ib.cap,
    ensures
        p.wf(b),
{
    assert forall|s: ChunkSlot| #[trigger] a.fits(s) implies b.fits(s) by {}
    assert forall|i: int| 0 <= i < p.entries.len() implies b.fits((#[trigger] p.entries[i]).slot)
        && p.entries[i].lod < 3 && (p.entries[i].old_slot matches Some(s) ==> b.fits(s)) by {
        assert(a.fits(p.entries[i].slot));
    }
}

impl World {
    /// Takes bytes from an arena as it is.
    fn take(&mut self, vertices: bool, size: usize) -> (r: Option<usize>)
        requires
            old(self)@.wf(),
            old(self)@.arenas is Some,
            size + 36 <= usize::MAX,
        ensures
            ({
                let arena = arena_of(old(self)@.arenas->0, vertices);
                let (off, after) = arena.after_alloc(size as int);
                &&& r == off
                &&& final(self)@ == old(self)@.with_arena(vertices, after)
                &&& final(self)@.wf()
                &&& r matches Some(o) ==> o + round_up(size as int, arena.align) <= arena.cap
                &&& r is None ==> final(self)@ == old(self)@
            }),
    {
        let ghost before = self@;
        let mut r: Option<usize> = None;
        if let Some(a) = self.arenas.as_mut() {
            r =
            if vertices {
                a.vb.allocate(size)
            } else {
                a.ib.allocate(size)
            };
        }
        proof {
            let arena = arena_of(before.arenas->0, vertices);
            let (off, after) = arena.after_alloc(size as int);
            lemma_with_arena(before, vertices, after);
            assert(self@ =~= before.with_arena(vertices, after));
            if r is None {
                assert(after == arena);
                assert(before.with_arena(vertices, arena) =~= before);
            }
        }
        r
    }

    /// One step of looking for room in an arena.
    fn alloc_step(&mut self, vertices: bool, size: usize, stage: AllocStage) -> (r: AllocStep)
        requires
            old(self)@.wf(),
            size + 36 <= usize::MAX,
            old(self)@.arenas matches Some(a) ==> arena_of(a, vertices).cap + size <= usize::MAX
                / 4,
        ensures
            (r, final(self)@) == old(self)@.alloc_step(vertices, size as int, stage),
            final(self)@.wf(),
            r matches AllocStep::Placed(off) ==> final(self)@.arenas is Some && off + round_up(
                size as int,
                arena_of(final(self)@.arenas->0, vertices).align,
            ) <= arena_of(final(self)@.arenas->0, vertices).cap,
    {
        if self.arenas.is_none() {
            return AllocStep::Failed;
        }
        match stage {
            AllocStage::First => {
                match self.take(vertices, size) {
                    Some(off) => AllocStep::Placed(off),
                    None => AllocStep::Stall,
                }
            },
            AllocStage::Stalled => {
                self.flush_all_deferred_frees();
                let grown: Option<usize> = match &self.arenas {
                    Some(a) => if vertices {
                        a.vb.grown_cap(size)
                    } else {
                        a.ib.grown_cap(size)
                    },
                    None => None,
                };
                match self.take(vertices, size) {
                    Some(off) => AllocStep::Placed(off),
                    None => match grown {
                        Some(n) => AllocStep::Grow(n),
                        None => AllocStep::Failed,
                    },
                }
            },
            AllocStage::Grown(cap) => {
                let ghost before = self@;
                if let Some(a) = self.arenas.as_mut() {
                    if vertices {
                        a.vb.grow(cap);
                    } else {
                        a.ib.grow(cap);
                    }
                }
                proof {
                    let arena = arena_of(before.arenas->0, vertices).after_growth(cap as int);
                    lemma_with_arena(before, vertices, arena);
                    assert(self@ =~= before.with_arena(vertices, arena));
                }
                match self.take(vertices, size) {
                    Some(off) => AllocStep::Placed(off),
                    None => AllocStep::Failed,
                }
            },
            AllocStage::GrowFailed => AllocStep::Failed,
        }
    }

    /// Gives back bytes that nothing was put into.
    fn give_back(&mut self, vertices: bool, offset: usize, size: usize)
        requires
            old(self)@.wf(),
            old(self)@.arenas is Some,
            size + 36 <= usize::MAX,
            offset + round_up(size as int, arena_of(old(self)@.arenas->0, vertices).align)
                <= arena_of(old(self)@.arenas->0, vertices).cap,
        ensures
            final(self)@ == old(self)@.with_arena(
                vertices,
                arena_of(old(self)@.arenas->0, vertices).after_free(offset as int, size as int),
            ),
            final(self)@.wf(),
    {
        let ghost before = self@;
        if let Some(a) = self.arenas.as_mut() {
            if vertices {
                a.vb.free(offset, size);
            } else {
                a.ib.free(offset, size);
            }
        }
        proof {
            let arena = arena_of(before.arenas->0, vertices).after_free(
                offset as int,
                size as int,
            );
            lemma_with_arena(before, vertices, arena);
            assert(self@ =~= before.with_arena(vertices, arena));
        }
    }

    /// Whether a new batch can be made: none is on its way and there is something to upload.
    pub fn can_upload(&self) -> (r: bool)
        ensures
            r == (self@.batch is None && self@.upload_queue.len() > 0 && self@.arenas is Some),
    {
        self.pending_batch.is_none() && self.upload_queue.len() > 0 && self.arenas.is_some()
    }

    /// Begins a batch with the first chunks of the queue.
    pub fn begin_upload(&mut self) -> (plan: UploadPlan)
        requires
            old(self)@.wf(),
        ensures
            (final(self)@, plan@) == old(self)@.after_begin_upload(),
            final(self)@.wf(),
    {
        let n: usize = if self.upload_queue.len() < MAX_UPLOAD_BATCH {
            self.upload_queue.len()
        } else {
            MAX_UPLOAD_BATCH
        };
        let ghost before = self@;
        let mut rest = self.upload_queue.split_off(n);
        std::mem::swap(&mut rest, &mut self.upload_queue);
        assert(self@ =~= (WorldView {
            upload_queue: before.upload_queue.skip(n as int),
            ..before
        }));
        assert(rest@ =~= before.upload_queue.take(n as int));
        UploadPlan {
            coords: rest,
            next: 0,
            entries: Vec::new(),
            vb_total: 0,
            ib_total: 0,
            item: None,
            vb: None,
        }
    }

    /// The next mesh of a batch that is to be uploaded. Empty meshes are passed over, and full
    /// meshes of chunks far away.
    fn next_item(&self, plan: &mut UploadPlan, cam: ChunkCoord) -> (r: Option<UploadItem>)
        requires
            self@.wf(),
            old(plan).coords.len() <= MAX_UPLOAD_BATCH,
            old(plan).next <= 3 * old(plan).coords.len(),
        ensures
            ({
                let coords = old(plan).coords@;
                let p = self@.next_wanted(coords, cam, old(plan).next as int);
                if p < 3 * coords.len() {
                    r == self@.wanted(coords, cam, p) && r is Some && final(plan).next == p + 1
                } else {
                    r is None && final(plan).next == 3 * coords.len()
                }
            }),
            r matches Some(item) ==> item_ok(item),
            final(plan).coords == old(plan).coords,
            final(plan).entries == old(plan).entries,
            final(plan).vb_total == old(plan).vb_total,
            final(plan).ib_total == old(plan).ib_total,
            final(plan).item == old(plan).item,
            final(plan).vb == old(plan).vb,
            old(plan).next <= final(plan).next <= 3 * old(plan).coords.len(),
            r is Some ==> old(plan).next < final(plan).next,
    {
        let ghost start = *plan;
        while plan.next < 3 * plan.coords.len()
            invariant
                self@.wf(),
                start == *old(plan),
                plan.coords == start.coords,
                plan.entries == start.entries,
                plan.vb_total == start.vb_total,
                plan.ib_total == start.ib_total,
                plan.item == start.item,
                plan.vb == start.vb,
                start.next <= plan.next,
                plan.coords.len() <= MAX_UPLOAD_BATCH,
                plan.next <= 3 * plan.coords.len(),
                self@.next_wanted(start.coords@, cam, plan.next as int) == self@.next_wanted(
                    start.coords@,
                    cam,
                    start.next as int,
                ),
            decreases 3 * plan.coords.len() - plan.next,
        {
            let p: usize = plan.next;
            let coord = plan.coords[p / 3];
            let lod: usize = p % 3;
            plan.next = p + 1;
            if let Some(lods) = self.cpu_meshes.get(coord) {
                let far = lod == 0 && distance(coord, cam) >= self.lod1_dist as i64;
                let mesh = lods.level(lod);
                if !far && mesh.vertices.len() > 0 {
                    assert(mesh@ == self@.cpu_meshes[coord].level(lod as int));
                    return Some(
                        UploadItem {
                            coord,
                            lod,
                            vb_size: mesh.vertices.len() * VB_ALIGN,
                            ib_size: mesh.indices.len() * IB_ALIGN,
                            index_count: mesh.indices.len(),
                        },
                    );
                }
            }
        }
        None
    }

    /// Puts a mesh for which there is room into a batch.
    fn place(&self, plan: &mut UploadPlan, item: UploadItem, vb_off: usize, ib_off: usize)
        requires
            self@.wf(),
            item_ok(item),
            old(plan).vb_total + item.vb_size <= u64::MAX,
            old(plan).ib_total + item.ib_size <= u64::MAX,
        ensures
            final(plan)@ == self@.placed(old(plan)@, item, vb_off, ib_off),
    {
        let old_slot: Option<ChunkSlot> = match self.chunk_allocs.get(item.coord) {
            Some(allocs) => allocs[item.lod],
            None => None,
        };
        let ghost before = plan@;
        let slot = ChunkSlot::new(vb_off, item.vb_size, ib_off, item.index_count);
        plan.entries.push(
            UploadEntry {
                coord: item.coord,
                lod: item.lod,
                slot,
                old_slot,
                vb_stage: plan.vb_total,
                ib_stage: plan.ib_total,
            },
        );
        plan.vb_total = plan.vb_total + item.vb_size as u64;
        plan.ib_total = plan.ib_total + item.ib_size as u64;
        plan.item = None;
        plan.vb = None;
        assert(plan@ =~= self@.placed(before, item, vb_off, ib_off));
    }

    /// Makes one step towards a batch, and says what is needed for the next. `stage` says what
    /// was done since the last step: the GPU was waited for, or a buffer was replaced.
    pub fn upload_step(&mut self, plan: &mut UploadPlan, cam: ChunkCoord, stage: AllocStage) -> (r:
        UploadAction)
        requires
            old(self)@.wf(),
            old(self)@.can_grow(),
            old(self)@.arenas is Some,
            old(plan)@.wf(old(self)@.arenas->0),
        ensures
            (final(self)@, final(plan)@, r) == old(self)@.upload_step(old(plan)@, cam, stage),
            final(self)@.wf(),
            final(self)@.arenas is Some,
            final(plan)@.wf(final(self)@.arenas->0),
    {
        let ghost w0 = self@;
        let ghost p0 = plan@;
        let ghost a0 = w0.arenas->0;
        match plan.item {
            None => match self.next_item(plan, cam) {
                Some(item) => {
                    plan.item = Some(item);
                    UploadAction::Continue
                },
                None => UploadAction::Close,
            },
            Some(item) => match plan.vb {
                None => {
                    let step = self.alloc_step(true, item.vb_size, stage);
                    proof {
                        lemma_caps_kept(w0, true, item.vb_size as int, stage);
                        lemma_fits_kept(p0, a0, self@.arenas->0);
                    }
                    match step {
                        AllocStep::Placed(off) => {
                            plan.vb = Some(off);
                            UploadAction::Continue
                        },
                        AllocStep::Stall => UploadAction::Stall,
                        AllocStep::Grow(cap) => UploadAction::GrowVertices(cap),
                        AllocStep::Failed => {
                            plan.item = None;
                            UploadAction::Skipped
                        },
                    }
                },
                Some(vb_off) => {
                    let step = self.alloc_step(false, item.ib_size, stage);
                    proof {
                        lemma_caps_kept(w0, false, item.ib_size as int, stage);
                        lemma_fits_kept(p0, a0, self@.arenas->0);
                    }
                    match step {
                        AllocStep::Placed(ib_off) => {
                            let ghost a = self@.arenas->0;
                            proof {
                                let n = plan.entries.len();
                                assert(n <= 192);
                                assert(n * max_vb_size() <= 192 * max_vb_size()) by (nonlinear_arith)
                                    requires
                                        n <= 192,
                                        max_vb_size() >= 0,
                                ;
                                assert(n * max_ib_size() <= 192 * max_ib_size()) by (nonlinear_arith)
                                    requires
                                        n <= 192,
                                        max_ib_size() >= 0,
                                ;
                                assert((n + 1) * max_vb_size() == n * max_vb_size()
                                    + max_vb_size()) by (nonlinear_arith);
                                assert((n + 1) * max_ib_size() == n * max_ib_size()
                                    + max_ib_size()) by (nonlinear_arith);
                            }
                            self.place(plan, item, vb_off, ib_off);
                            proof {
                                let e = plan@.entries.last();
                                if let Some(s) = self@.slot_of(item.coord, item.lod as int) {
                                    assert(allocs_fit(a, self@.chunk_allocs[item.coord]));
                                    assert(a.fits(s));
                                }
                                assert(a.fits(e.slot));
                                assert forall|i: int| 0 <= i < plan@.entries.len() implies a.fits(
                                    (#[trigger] plan@.entries[i]).slot,
                                ) && plan@.entries[i].lod < 3 && (plan@.entries[i].old_slot matches Some(
                                    s,
                                ) ==> a.fits(s)) by {
                                    if i < p0.entries.len() {
                                        assert(plan@.entries[i] == p0.entries[i]);
                                    } else {
                                        assert(plan@.entries[i] == e);
                                    }
                                }
                            }
                            UploadAction::Continue
                        },
                        AllocStep::Stall => UploadAction::Stall,
                        AllocStep::Grow(cap) => UploadAction::GrowIndices(cap),
                        AllocStep::Failed => {
                            let ghost a1 = self@.arenas->0;
                            self.give_back(true, vb_off, item.vb_size);
                            plan.item = None;
                            plan.vb = None;
                            proof {
                                lemma_fits_kept(p0, a1, self@.arenas->0);
                            }
                            UploadAction::Skipped
                        },
                    }
                },
            },
        }
    }

    /// Puts the chunks of a batch back to the front of the queue, but for those whose mesh is
    /// gone.
    fn requeue(&mut self, coords: &Vec<ChunkCoord>)
        requires
            old(self)@.wf(),
        ensures
            final(self)@ == old(self)@.after_requeue(coords@),
            final(self)@.wf(),
    {
        let ghost before = self@;
        let ghost keep = |c: ChunkCoord| before.cpu_meshes.contains_key(c);
        let mut queue: Vec<ChunkCoord> = Vec::new();
        let mut i: usize = 0;
        proof {
            reveal(Seq::filter);
        }
        assert(queue@ =~= coords@.take(0).filter(keep));
        while i < coords.len()
            invariant
                i <= coords.len(),
                self@ == before,
                keep == (|c: ChunkCoord| before.cpu_meshes.contains_key(c)),
                queue@ == coords@.take(i as int).filter(keep),
            decreases coords.len() - i,
        {
            let c = coords[i];
            proof {
                reveal(Seq::filter);
                assert(coords@.take(i + 1).drop_last() =~= coords@.take(i as int));
            }
            if self.cpu_meshes.contains_key(c) {
                queue.push(c);
            }
            i = i + 1;
        }
        assert(coords@.take(i as int) =~= coords@);
        let ghost front = queue@;
        queue.append(&mut self.upload_queue);
        std::mem::swap(&mut queue, &mut self.upload_queue);
        proof {
            assert(self@ =~= before.after_requeue(coords@));
            let all = front + before.upload_queue;
            assert forall|i: int| 0 <= i < all.len() implies before.cpu_meshes.contains_key(
                #[trigger] all[i],
            ) by {
                if i < front.len() {
                    lemma_filter_from(coords@, keep, i);
                } else {
                    assert(all[i] == before.upload_queue[i - front.len()]);
                }
            }
        }
    }

    /// Decides what becomes of a batch. If it does not fit into the staging buffers, the room
    /// that was found for its meshes is given back.
    pub fn close_upload(&mut self, plan: &UploadPlan, staging: bool) -> (r: Verdict)
        requires
            old(self)@.wf(),
            old(self)@.arenas is Some,
            plan@.fits(old(self)@.arenas->0),
        ensures
            r == plan@.verdict(staging),
            final(self)@ == old(self)@.after_close(plan@, r),
            final(self)@.wf(),
    {
        if plan.entries.len() == 0 {
            self.requeue(&plan.coords);
            return Verdict::Empty;
        }
        if !staging {
            return Verdict::NoStaging;
        }
        if plan.vb_total > STAGING_VB_CAP || plan.ib_total > STAGING_IB_CAP {
            let ghost before = self@;
            let ghost a = before.arenas->0;
            let mut slots: Vec<ChunkSlot> = Vec::new();
            let mut i: usize = 0;
            while i < plan.entries.len()
                invariant
                    i <= plan.entries.len(),
                    plan@.fits(a),
                    slots.len() == i,
                    forall|j: int| 0 <= j < i ==> #[trigger] slots[j] == plan.entries[j].slot,
                decreases plan.entries.len() - i,
            {
                slots.push(plan.entries[i].slot);
                i = i + 1;
            }
            assert(slots@ =~= entry_slots(plan.entries@));
            assert(all_fit(a, slots@)) by {
                assert forall|j: int| 0 <= j < slots.len() implies a.fits(#[trigger] slots@[j]) by {
                    assert(a.fits(plan@.entries[j].slot));
                }
            }
            if let Some(arenas) = self.arenas.as_mut() {
                super::free_slots(arenas, &slots);
            }
            let ghost after = WorldView {
                arenas: Some(a.after_frees(entry_slots(plan.entries@))),
                ..before
            };
            proof {
                assert(self@ =~= after);
                super::lemma_frees_fit(a, slots@);
                assert forall|s: ChunkSlot| #[trigger] a.fits(s) implies after.arenas->0.fits(
                    s,
                ) by {}
                assert forall|c: ChunkCoord| after.chunk_allocs.contains_key(c) implies allocs_fit(
                    after.arenas->0,
                    #[trigger] after.chunk_allocs[c],
                ) by {
                    assert(allocs_fit(a, before.chunk_allocs[c]));
                }
                assert(after.slots_fit());
                assert(after.coords_fit());
                assert(after.chunks_fit());
            }
            self.requeue(&plan.coords);
            return Verdict::TooLarge;
        }
        Verdict::Ready
    }

    /// Notes that a batch was submitted.
    pub fn submitted(&mut self, plan: &UploadPlan)
        requires
            old(self)@.wf(),
            old(self)@.arenas is Some,
            old(self)@.batch is None,
            plan@.fits(old(self)@.arenas->0),
        ensures
            final(self)@ == (WorldView { batch: Some(batch_of(plan.entries@)), ..old(self)@ }),
            final(self)@.wf(),
    {
        let ghost before = self@;
        let ghost a = before.arenas->0;
        let mut slots: Vec<(ChunkCoord, usize, ChunkSlot)> = Vec::new();
        let mut old_slots: Vec<ChunkSlot> = Vec::new();
        let mut i: usize = 0;
        while i < plan.entries.len()
            invariant
                i <= plan.entries.len(),
                plan@.fits(a),
                slots.len() == i,
                forall|j: int|
                    0 <= j < i ==> #[trigger] slots[j] == (
                        plan.entries[j].coord,
                        plan.entries[j].lod,
                        plan.entries[j].slot,
                    ),
                old_slots@ == old_slots_to(plan.entries@, i as int),
                all_fit(a, old_slots@),
            decreases plan.entries.len() - i,
        {
            let e = plan.entries[i];
            assert(plan@.entries[i as int].old_slot matches Some(s) ==> a.fits(s));
            slots.push((e.coord, e.lod, e.slot));
            if let Some(s) = e.old_slot {
                if is_first_for(&plan.entries, i) {
                    old_slots.push(s);
                }
            }
            i = i + 1;
        }
        let batch = PendingBatch { slots, old_slots };
        proof {
            assert(batch@ =~= batch_of(plan.entries@));
            assert forall|j: int| 0 <= j < batch@.slots.len() implies a.fits(
                (#[trigger] batch@.slots[j]).2,
            ) && batch@.slots[j].1 < 3 by {
                assert(a.fits(plan@.entries[j].slot));
            }
            assert(batch@.fits(a));
        }
        self.pending_batch = Some(batch);
        assert(self@ =~= (WorldView { batch: Some(batch_of(plan.entries@)), ..before }));
    }

    /// Whether a batch is on its way.
    pub fn has_batch(&self) -> (r: bool)
        ensures
            r == (self@.batch is Some),
    {
        self.pending_batch.is_some()
    }

    /// Ends a batch that the GPU is done with: its meshes are drawn from now on, and the slots
    /// that they replace are given up.
    pub fn commit_batch(&mut self)
        requires
            old(self)@.wf(),
        ensures
            final(self)@ == old(self)@.after_batch(),
            final(self)@.wf(),
    {
        let ghost start = self@;
        let batch = self.pending_batch.take();
        if let Some(b) = batch {
            let ghost base = WorldView { batch: None, ..start };
            let ghost a = start.arenas->0;
            let ghost bv = b@;
            assert(self@ =~= base);
            assert(start.batch == Some(bv));
            assert(bv.fits(a));
            let mut i: usize = 0;
            while i < b.slots.len()
                invariant
                    i <= b.slots.len(),
                    bv == b@,
                    bv.fits(a),
                    base.arenas == Some(a),
                    self@ == base.after_commit(bv.slots, i as int),
                    self@.wf(),
                    self@.arenas == Some(a),
                    self@.freed_third == base.freed_third,
                decreases b.slots.len() - i,
            {
                let (coord, lod, slot) = b.slots[i];
                assert(a.fits(bv.slots[i as int].2));
                let ghost before = self@;
                let mut allocs: [Option<ChunkSlot>; 3] = match self.chunk_allocs.get(coord) {
                    Some(s) => *s,
                    None => [None, None, None],
                };
                let ghost was = allocs;
                allocs[lod] = Some(slot);
                self.chunk_allocs.insert(coord, allocs);
                proof {
                    assert(allocs =~= with_slot(was, lod as int, slot));
                    assert(self@ =~= base.after_commit(bv.slots, i + 1));
                    assert(allocs_fit(a, was)) by {
                        if before.chunk_allocs.contains_key(coord) {
                            assert(allocs_fit(a, before.chunk_allocs[coord]));
                        }
                    }
                    assert forall|c: ChunkCoord|
                        self@.chunk_allocs.contains_key(c) implies allocs_fit(
                        a,
                        #[trigger] self@.chunk_allocs[c],
                    ) by {
                        if c != coord {
                            assert(allocs_fit(a, before.chunk_allocs[c]));
                        }
                    }
                    assert(self@.slots_fit());
                    assert(self@.coords_fit());
                    assert(self@.chunks_fit());
                }
                i = i + 1;
            }
            let ghost committed = self@;
            let mut j: usize = 0;
            assert(self@ =~= (WorldView {
                freed_third: committed.freed_third + bv.old_slots.take(0),
                ..committed
            }));
            while j < b.old_slots.len()
                invariant
                    j <= b.old_slots.len(),
                    bv == b@,
                    bv.fits(a),
                    committed.wf(),
                    committed.arenas == Some(a),
                    self@ == (WorldView {
                        freed_third: committed.freed_third + bv.old_slots.take(j as int),
                        ..committed
                    }),
                    self@.wf(),
                decreases b.old_slots.len() - j,
            {
                assert(a.fits(bv.old_slots[j as int]));
                self.defer_free(b.old_slots[j]);
                assert(self@ =~= (WorldView {
                    freed_third: committed.freed_third + bv.old_slots.take(j + 1),
                    ..committed
                }));
                j = j + 1;
            }
            assert(bv.old_slots.take(j as int) =~= bv.old_slots);
            assert(self@ =~= start.after_batch());
        } else {
            assert(self@ =~= start);
        }
    }
}

} // verus!
