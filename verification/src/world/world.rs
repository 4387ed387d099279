//! The world around the player: which chunks are generated, meshed, uploaded and drawn.

use crate::meshing::lods::LodMeshes;
use crate::render::arena::{
    grown_cap_of, next_power_of_two, power_of_two_above, ArenaBuffer, ArenaView,
};
use crate::render::mesh::{ChunkSlot, IB_ALIGN, VB_ALIGN};
use crate::world::chunk::Chunk;
use crate::world::coords::ChunkCoord;
use crate::world::grid::{CoordMap, CoordSet, ViewMap};
use crate::world::neighbor::ChunkFaceData;
use crate::world::state::{all_fit, ArenasView, BatchView, WorldView, MAX_RENDER_DISTANCE};
use std::collections::VecDeque;
use vstd::prelude::*;

pub mod draw;
pub mod frame;
pub mod history;
pub mod interact;
pub mod laws;
pub mod meaning;
pub mod owners;
pub mod scan;
pub mod stream;
pub mod upload;

verus! {

/// The arenas for vertices and indices.
struct Arenas {
    vb: ArenaBuffer,
    ib: ArenaBuffer,
}

impl View for Arenas {
    type V = ArenasView;

    closed spec fn view(&self) -> ArenasView {
        ArenasView { vb: self.vb@, ib: self.ib@ }
    }
}

/// Meshes on their way to the GPU.
struct PendingBatch {
    /// Slots that become current when the batch is done.
    slots: Vec<(ChunkCoord, usize, ChunkSlot)>,
    /// Slots that they replace. They stay in use until then, so that the old mesh stays visible.
    old_slots: Vec<ChunkSlot>,
}

impl View for PendingBatch {
    type V = BatchView;

    closed spec fn view(&self) -> BatchView {
        BatchView { slots: self.slots@, old_slots: self.old_slots@ }
    }
}

/// The world around the player.
pub struct World {
    render_distance: i32,
    lod1_dist: i32,
    lod2_dist: i32,
    loaded: CoordSet,
    gen_in_flight: CoordSet,
    pending_mesh: CoordSet,
    mesh_in_flight: CoordSet,
    last_cam_chunk: ChunkCoord,
    face_data: CoordMap<ChunkFaceData>,
    pending_chunks: ViewMap<Chunk>,
    cpu_meshes: ViewMap<LodMeshes>,
    arenas: Option<Arenas>,
    chunk_allocs: CoordMap<[Option<ChunkSlot>; 3]>,
    spawn_queue: VecDeque<ChunkCoord>,
    upload_queue: Vec<ChunkCoord>,
    pending_batch: Option<PendingBatch>,
    freed_first: Vec<ChunkSlot>,
    freed_second: Vec<ChunkSlot>,
    freed_third: Vec<ChunkSlot>,
    stored_chunks: ViewMap<Chunk>,
    modified_set: CoordSet,
    pending_remesh: CoordSet,
    draw_slot: usize,
    last_draw_count: u32,
    water_last_draw_count: u32,
}

impl View for World {
    type V = WorldView;

    closed spec fn view(&self) -> WorldView {
        WorldView {
            render_distance: self.render_distance as int,
            lod1_dist: self.lod1_dist as int,
            lod2_dist: self.lod2_dist as int,
            loaded: self.loaded@,
            gen_in_flight: self.gen_in_flight@,
            pending_mesh: self.pending_mesh@,
            mesh_in_flight: self.mesh_in_flight@,
            last_cam: self.last_cam_chunk,
            face_data: self.face_data@,
            pending_chunks: self.pending_chunks@,
            cpu_meshes: self.cpu_meshes@,
            arenas: match self.arenas {
                Some(a) => Some(a@),
                None => None,
            },
            chunk_allocs: self.chunk_allocs@,
            spawn_queue: self.spawn_queue@,
            upload_queue: self.upload_queue@,
            batch: match self.pending_batch {
                Some(b) => Some(b@),
                None => None,
            },
            freed_first: self.freed_first@,
            freed_second: self.freed_second@,
            freed_third: self.freed_third@,
            stored_chunks: self.stored_chunks@,
            modified: self.modified_set@,
            pending_remesh: self.pending_remesh@,
            draw_slot: self.draw_slot as int,
            draw_count: self.last_draw_count,
            water_draw_count: self.water_last_draw_count,
        }
    }
}

/// The size of an arena for all chunks within the render distance: a power of two within limits.
pub open spec fn arena_cap(render_distance: int, per_chunk: int, lo: int, hi: int) -> int {
    let side = 2 * render_distance + 1;
    let p = power_of_two_above(side * side * per_chunk);
    if p < lo {
        lo
    } else if p > hi {
        hi
    } else {
        p
    }
}

fn planned_cap(render_distance: i32, per_chunk: u64, lo: u64, hi: u64) -> (r: u64)
    requires
        0 <= render_distance <= MAX_RENDER_DISTANCE,
        per_chunk <= 100_000,
        lo <= hi,
    ensures
        r == arena_cap(render_distance as int, per_chunk as int, lo as int, hi as int),
        lo <= r <= hi,
{
    let side: u64 = 2 * (render_distance as u64) + 1;
    assert(side * side <= 0xffff_ffff) by (nonlinear_arith)
        requires
            side <= 65535,
    ;
    let chunks: u64 = side * side;
    assert(chunks * per_chunk <= 0xffff_ffff * 100_000) by (nonlinear_arith)
        requires
            chunks <= 0xffff_ffff,
            per_chunk <= 100_000,
    ;
    let p = next_power_of_two(chunks * per_chunk);
    if p < lo {
        lo
    } else if p > hi {
        hi
    } else {
        p
    }
}

/// The arena of a kind.
pub open spec fn arena_of(a: ArenasView, vertices: bool) -> ArenaView {
    if vertices {
        a.vb
    } else {
        a.ib
    }
}

/// The arenas with one of them replaced.
pub open spec fn with_arena(a: ArenasView, vertices: bool, arena: ArenaView) -> ArenasView {
    if vertices {
        ArenasView { vb: arena, ib: a.ib }
    } else {
        ArenasView { vb: a.vb, ib: arena }
    }
}

/// What has been done to find room for a mesh.
#[derive(Clone, Copy, Debug)]
pub enum AllocStage {
    /// Nothing yet.
    First,
    /// The GPU is idle, so that everything that was given up can be reused.
    Stalled,
    /// The buffer was replaced by one of this size.
    Grown(usize),
    /// The buffer could not be replaced.
    GrowFailed,
}

/// What to do next to find room for a mesh.
#[derive(Clone, Copy, Debug)]
pub enum AllocStep {
    /// Room was found at this offset.
    Placed(usize),
    /// Wait until the GPU is idle.
    Stall,
    /// Replace the buffer by one of this size.
    Grow(usize),
    /// There is no room.
    Failed,
}

impl WorldView {
    /// The world with one of its arenas replaced.
    pub open spec fn with_arena(self, vertices: bool, arena: ArenaView) -> WorldView {
        WorldView { arenas: Some(with_arena(self.arenas->0, vertices, arena)), ..self }
    }

    /// Takes `size` bytes from an arena as it is; `other` is what to do if there is no room.
    pub open spec fn taken(self, vertices: bool, size: int, other: AllocStep) -> (
        AllocStep,
        WorldView,
    ) {
        let (r, after) = arena_of(self.arenas->0, vertices).after_alloc(size);
        match r {
            Some(off) => (AllocStep::Placed(off), self.with_arena(vertices, after)),
            None => (other, self),
        }
    }

    /// How room for `size` bytes is looked for: as it is; after the GPU was waited for, so that
    /// all slots that were given up are free; and in a larger buffer.
    pub open spec fn alloc_step(self, vertices: bool, size: int, stage: AllocStage) -> (
        AllocStep,
        WorldView,
    ) {
        if self.arenas is None {
            (AllocStep::Failed, self)
        } else {
            match stage {
                AllocStage::First => self.taken(vertices, size, AllocStep::Stall),
                AllocStage::Stalled => {
                    let w = self.after_flush();
                    let cap = arena_of(w.arenas->0, vertices).cap;
                    match grown_cap_of(cap, size) {
                        Some(grown) => w.taken(vertices, size, AllocStep::Grow(grown)),
                        None => w.taken(vertices, size, AllocStep::Failed),
                    }
                },
                AllocStage::Grown(cap) => {
                    let arena = arena_of(self.arenas->0, vertices);
                    self.with_arena(vertices, arena.after_growth(cap as int)).taken(
                        vertices,
                        size,
                        AllocStep::Failed,
                    )
                },
                AllocStage::GrowFailed => (AllocStep::Failed, self),
            }
        }
    }
}

pub proof fn lemma_frees_fit(a: ArenasView, slots: Seq<ChunkSlot>)
    requires
        a.wf(),
        all_fit(a, slots),
    ensures
        a.after_frees(slots).vb.cap == a.vb.cap,
        a.after_frees(slots).ib.cap == a.ib.cap,
        a.after_frees(slots).vb.align == a.vb.align,
        a.after_frees(slots).ib.align == a.ib.align,
    decreases slots.len(),
{
    if slots.len() > 0 {
        lemma_frees_fit(a, slots.drop_last());
    }
}

/// Frees the slots of a list.
fn free_slots(arenas: &mut Arenas, slots: &Vec<ChunkSlot>)
    requires
        old(arenas)@.wf(),
        all_fit(old(arenas)@, slots@),
    ensures
        final(arenas)@ == old(arenas)@.after_frees(slots@),
        final(arenas)@.wf(),
        final(arenas)@.vb.cap == old(arenas)@.vb.cap,
        final(arenas)@.ib.cap == old(arenas)@.ib.cap,
{
    let ghost before = arenas@;
    let mut i: usize = 0;
    assert(slots@.take(0) =~= Seq::empty());
    while i < slots.len()
        invariant
            i <= slots.len(),
            before.wf(),
            all_fit(before, slots@),
            arenas@ == before.after_frees(slots@.take(i as int)),
            arenas@.wf(),
            arenas@.vb.cap == before.vb.cap,
            arenas@.ib.cap == before.ib.cap,
        decreases slots.len() - i,
    {
        let s = slots[i];
        assert(before.fits(slots[i as int]));
        arenas.vb.free(s.vb_offset, s.vb_size);
        arenas.ib.free(s.ib_offset, s.ib_size);
        proof {
            assert(slots@.take(i + 1).drop_last() =~= slots@.take(i as int));
            assert(arenas@ =~= before.after_frees(slots@.take(i + 1)));
        }
        i = i + 1;
    }
    assert(slots@.take(i as int) =~= slots@);
}

impl World {
    /// A world in which nothing is loaded.
    pub fn new(render_distance: i32, lod1_dist: i32, lod2_dist: i32) -> (r: World)
        requires
            0 <= render_distance <= MAX_RENDER_DISTANCE,
        ensures
            r@ == WorldView::fresh(render_distance as int, lod1_dist as int, lod2_dist as int),
            r@.wf(),
    {
        let r = World {
            render_distance,
            lod1_dist,
            lod2_dist,
            loaded: CoordSet::new(),
            gen_in_flight: CoordSet::new(),
            pending_mesh: CoordSet::new(),
            mesh_in_flight: CoordSet::new(),
            last_cam_chunk: ChunkCoord { x: i32::MAX, z: i32::MAX },
            face_data: CoordMap::new(),
            pending_chunks: ViewMap::new(),
            cpu_meshes: ViewMap::new(),
            arenas: None,
            chunk_allocs: CoordMap::new(),
            spawn_queue: VecDeque::new(),
            upload_queue: Vec::new(),
            pending_batch: None,
            freed_first: Vec::new(),
            freed_second: Vec::new(),
            freed_third: Vec::new(),
            stored_chunks: ViewMap::new(),
            modified_set: CoordSet::new(),
            pending_remesh: CoordSet::new(),
            draw_slot: 0,
            last_draw_count: 0,
            water_last_draw_count: 0,
        };
        assert(r@ =~= WorldView::fresh(render_distance as int, lod1_dist as int, lod2_dist as int));
        r
    }

    /// The sizes of the arenas for vertices and for indices.
    pub fn arena_caps(&self) -> (r: (usize, usize))
        requires
            self@.wf(),
        ensures
            r.0 == arena_cap(self@.render_distance, 60_000, 0x2000_0000, 0x8000_0000),
            r.1 == arena_cap(self@.render_distance, 10_000, 0x800_0000, 0x2000_0000),
            0x2000_0000 <= r.0 <= 0x8000_0000,
            0x800_0000 <= r.1 <= 0x2000_0000,
    {
        let vb = planned_cap(self.render_distance, 60_000, 0x2000_0000, 0x8000_0000);
        let ib = planned_cap(self.render_distance, 10_000, 0x800_0000, 0x2000_0000);
        (vb as usize, ib as usize)
    }

    /// How many chunks there are within the render distance, which is how many draw commands are
    /// made room for.
    pub fn draw_capacity(&self) -> (r: u64)
        requires
            self@.wf(),
        ensures
            r == (2 * self@.render_distance + 1) * (2 * self@.render_distance + 1),
    {
        let side: u64 = 2 * (self.render_distance as u64) + 1;
        assert(side * side <= 0xffff_ffff) by (nonlinear_arith)
            requires
                side <= 65535,
        ;
        side * side
    }

    /// Whether there are arenas.
    pub fn has_arenas(&self) -> (r: bool)
        ensures
            r == (self@.arenas is Some),
    {
        self.arenas.is_some()
    }

    /// Starts to keep track of buffers of the given sizes. Has no effect if there are buffers.
    pub fn init_arenas(&mut self, vb_cap: usize, ib_cap: usize)
        requires
            old(self)@.wf(),
            0 < vb_cap,
            0 < ib_cap,
        ensures
            final(self)@.wf(),
            final(self)@ == (if old(self)@.arenas is None {
                WorldView {
                    arenas: Some(
                        ArenasView {
                            vb: ArenaView::fresh(vb_cap as int, 36),
                            ib: ArenaView::fresh(ib_cap as int, 4),
                        },
                    ),
                    ..old(self)@
                }
            } else {
                old(self)@
            }),
    {
        if self.arenas.is_none() {
            let ghost before = self@;
            self.arenas =
            Some(
                Arenas {
                    vb: ArenaBuffer::new(vb_cap, VB_ALIGN),
                    ib: ArenaBuffer::new(ib_cap, IB_ALIGN),
                },
            );
            assert(self@ =~= (WorldView { arenas: self@.arenas, ..before }));
        }
    }

    /// Gives up a slot. The GPU may still read it, so it is free only three frames later.
    fn defer_free(&mut self, slot: ChunkSlot)
        requires
            old(self)@.wf(),
            old(self)@.arenas matches Some(a) && a.fits(slot),
        ensures
            final(self)@ == old(self)@.after_defer(slot),
            final(self)@.wf(),
    {
        self.freed_third.push(slot);
        assert(self@ =~= old(self)@.after_defer(slot));
    }

    /// Begins a frame: frees the slots that were given up long enough ago.
    pub fn release_frees(&mut self)
        requires
            old(self)@.wf(),
        ensures
            final(self)@ == old(self)@.after_release(),
            final(self)@.wf(),
    {
        let ghost before = self@;
        let mut first: Vec<ChunkSlot> = Vec::new();
        std::mem::swap(&mut first, &mut self.freed_first);
        if let Some(a) = self.arenas.as_mut() {
            free_slots(a, &first);
        }
        std::mem::swap(&mut self.freed_first, &mut self.freed_second);
        std::mem::swap(&mut self.freed_second, &mut self.freed_third);
        assert(self@ =~= before.after_release());
    }

    /// Frees all slots that were given up. Only for when the GPU is idle.
    fn flush_all_deferred_frees(&mut self)
        requires
            old(self)@.wf(),
        ensures
            final(self)@ == old(self)@.after_flush(),
            final(self)@.wf(),
            final(self)@.arenas is Some <==> old(self)@.arenas is Some,
            old(self)@.arenas matches Some(a) ==> final(self)@.arenas->0.vb.cap == a.vb.cap
                && final(self)@.arenas->0.ib.cap == a.ib.cap,
    {
        let ghost before = self@;
        let mut all: Vec<ChunkSlot> = Vec::new();
        all.append(&mut self.freed_first);
        all.append(&mut self.freed_second);
        all.append(&mut self.freed_third);
        assert(all@ =~= before.all_freed());
        if let Some(a) = self.arenas.as_mut() {
            free_slots(a, &all);
        }
        assert(self@ =~= before.after_flush());
    }
}

} // verus!
