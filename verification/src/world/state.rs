//! What the state of the world is.

use crate::meshing::lods::LodView;
use crate::render::arena::{round_up, ArenaView};
use crate::render::mesh::ChunkSlot;
use crate::world::chunk::ChunkView;
use crate::world::coords::{distance2, in_world, ChunkCoord};
use crate::world::neighbor::ChunkFaceData;
use vstd::prelude::*;

verus! {

/// Farther than this nothing can be shown: squared distances would not fit.
pub const MAX_RENDER_DISTANCE: i32 = 32767;

/// The arenas for vertices and indices.
#[verifier::ext_equal]
pub struct ArenasView {
    pub vb: ArenaView,
    pub ib: ArenaView,
}

impl ArenasView {
    pub open spec fn wf(self) -> bool {
        self.vb.bounded() && self.ib.bounded() && self.vb.align == 36 && self.ib.align == 4
    }

    /// A slot lies inside the arenas.
    pub open spec fn fits(self, s: ChunkSlot) -> bool {
        &&& s.vb_size + 36 <= usize::MAX
        &&& s.ib_size + 4 <= usize::MAX
        &&& s.vb_offset + round_up(s.vb_size as int, 36) <= self.vb.cap
        &&& s.ib_offset + round_up(s.ib_size as int, 4) <= self.ib.cap
    }

    /// The arenas after a slot was given back.
    pub open spec fn after_free(self, s: ChunkSlot) -> ArenasView {
        ArenasView {
            vb: self.vb.after_free(s.vb_offset as int, s.vb_size as int),
            ib: self.ib.after_free(s.ib_offset as int, s.ib_size as int),
        }
    }

    /// The arenas after the slots of a list were given back one after the other.
    pub open spec fn after_frees(self, slots: Seq<ChunkSlot>) -> ArenasView
        decreases slots.len(),
    {
        if slots.len() == 0 {
            self
        } else {
            self.after_frees(slots.drop_last()).after_free(slots.last())
        }
    }
}

/// Meshes on their way to the GPU: where they will be, and the slots that they replace.
#[verifier::ext_equal]
pub struct BatchView {
    pub slots: Seq<(ChunkCoord, usize, ChunkSlot)>,
    pub old_slots: Seq<ChunkSlot>,
}

/// The state of the world.
#[verifier::ext_equal]
pub struct WorldView {
    pub render_distance: int,
    pub lod1_dist: int,
    pub lod2_dist: int,
    /// Chunks that have been meshed.
    pub loaded: Set<ChunkCoord>,
    /// Chunks that are being generated or wait for it.
    pub gen_in_flight: Set<ChunkCoord>,
    /// Chunks that wait for their neighbours before they are meshed.
    pub pending_mesh: Set<ChunkCoord>,
    /// Chunks that are being meshed.
    pub mesh_in_flight: Set<ChunkCoord>,
    pub last_cam: ChunkCoord,
    pub face_data: Map<ChunkCoord, ChunkFaceData>,
    /// Blocks of chunks that wait to be meshed.
    pub pending_chunks: Map<ChunkCoord, ChunkView>,
    pub cpu_meshes: Map<ChunkCoord, LodView>,
    pub arenas: Option<ArenasView>,
    /// Where the meshes of a chunk are, for each level of detail.
    pub chunk_allocs: Map<ChunkCoord, [Option<ChunkSlot>; 3]>,
    /// Chunks that wait to be generated, nearest to the camera first.
    pub spawn_queue: Seq<ChunkCoord>,
    /// Chunks whose meshes wait for a batch.
    pub upload_queue: Seq<ChunkCoord>,
    pub batch: Option<BatchView>,
    /// Slots that are given back with the next frame.
    pub freed_first: Seq<ChunkSlot>,
    /// Slots that are given back with the frame after that.
    pub freed_second: Seq<ChunkSlot>,
    /// Slots that are given back with the third frame from now.
    pub freed_third: Seq<ChunkSlot>,
    /// Blocks of chunks near the player and of those with edits.
    pub stored_chunks: Map<ChunkCoord, ChunkView>,
    /// Chunks with edits.
    pub modified: Set<ChunkCoord>,
    /// Chunks to be meshed again when their current mesh is done.
    pub pending_remesh: Set<ChunkCoord>,
    /// Which of the two draw lists is in use.
    pub draw_slot: int,
    pub draw_count: u32,
    pub water_draw_count: u32,
}

/// Chunks come in the order of their distance to the camera.
pub open spec fn nearest_first(list: Seq<ChunkCoord>, cam: ChunkCoord) -> bool {
    forall|i: int, j: int|
        0 <= i <= j < list.len() ==> distance2(#[trigger] list[i], cam) <= distance2(
            #[trigger] list[j],
            cam,
        )
}

/// All slots of a list lie inside the arenas.
pub open spec fn all_fit(a: ArenasView, slots: Seq<ChunkSlot>) -> bool {
    forall|i: int| 0 <= i < slots.len() ==> a.fits(#[trigger] slots[i])
}

/// All slots of a chunk lie inside the arenas.
pub open spec fn allocs_fit(a: ArenasView, allocs: [Option<ChunkSlot>; 3]) -> bool {
    &&& allocs[0] matches Some(s) ==> a.fits(s)
    &&& allocs[1] matches Some(s) ==> a.fits(s)
    &&& allocs[2] matches Some(s) ==> a.fits(s)
}

impl BatchView {
    /// There is a mesh of a chunk for a level of detail.
    pub open spec fn has_mesh(self, c: ChunkCoord, lod: int) -> bool {
        exists|i: int|
            0 <= i < self.slots.len() && (#[trigger] self.slots[i]).0 == c && self.slots[i].1 == lod
    }

    pub open spec fn fits(self, a: ArenasView) -> bool {
        &&& forall|i: int|
            0 <= i < self.slots.len() ==> a.fits((#[trigger] self.slots[i]).2) && self.slots[i].1
                < 3
        &&& all_fit(a, self.old_slots)
    }
}

impl WorldView {
    /// A world in which nothing is loaded.
    pub open spec fn fresh(render_distance: int, lod1_dist: int, lod2_dist: int) -> WorldView {
        WorldView {
            render_distance,
            lod1_dist,
            lod2_dist,
            loaded: Set::empty(),
            gen_in_flight: Set::empty(),
            pending_mesh: Set::empty(),
            mesh_in_flight: Set::empty(),
            last_cam: ChunkCoord { x: i32::MAX, z: i32::MAX },
            face_data: Map::empty(),
            pending_chunks: Map::empty(),
            cpu_meshes: Map::empty(),
            arenas: None,
            chunk_allocs: Map::empty(),
            spawn_queue: Seq::empty(),
            upload_queue: Seq::empty(),
            batch: None,
            freed_first: Seq::empty(),
            freed_second: Seq::empty(),
            freed_third: Seq::empty(),
            stored_chunks: Map::empty(),
            modified: Set::empty(),
            pending_remesh: Set::empty(),
            draw_slot: 0,
            draw_count: 0,
            water_draw_count: 0,
        }
    }

    /// All slots that the world holds lie inside the arenas; without arenas there are none.
    pub open spec fn slots_fit(self) -> bool {
        match self.arenas {
            Some(a) => {
                &&& a.wf()
                &&& all_fit(a, self.freed_first)
                &&& all_fit(a, self.freed_second)
                &&& all_fit(a, self.freed_third)
                &&& forall|c: ChunkCoord|
                    self.chunk_allocs.contains_key(c) ==> allocs_fit(
                        a,
                        #[trigger] self.chunk_allocs[c],
                    )
                &&& self.batch matches Some(b) ==> b.fits(a)
            },
            None => {
                &&& self.freed_first.len() == 0
                &&& self.freed_second.len() == 0
                &&& self.freed_third.len() == 0
                &&& self.batch is None
                &&& forall|c: ChunkCoord| !(#[trigger] self.chunk_allocs.contains_key(c))
            },
        }
    }

    /// Chunks that may have to be generated lie where block positions fit.
    pub open spec fn coords_fit(self) -> bool {
        &&& forall|c: ChunkCoord| #[trigger] self.pending_mesh.contains(c) ==> in_world(c)
        &&& forall|c: ChunkCoord| #[trigger] self.pending_remesh.contains(c) ==> in_world(c)
        &&& forall|c: ChunkCoord| #[trigger] self.face_data.contains_key(c) ==> in_world(c)
        &&& forall|i: int|
            0 <= i < self.spawn_queue.len() ==> in_world(#[trigger] self.spawn_queue[i])
    }

    /// The blocks that are kept are those of whole chunks.
    pub open spec fn chunks_fit(self) -> bool {
        &&& forall|c: ChunkCoord|
            self.stored_chunks.contains_key(c) ==> (#[trigger] self.stored_chunks[c]).wf()
        &&& forall|c: ChunkCoord|
            self.pending_chunks.contains_key(c) ==> (#[trigger] self.pending_chunks[c]).wf()
    }

    /// Chunks wait to be generated nearest first. The meshes of those that wait to be uploaded are
    /// ready.
    pub open spec fn queues_ok(self) -> bool {
        &&& nearest_first(self.spawn_queue, self.last_cam)
        &&& forall|i: int|
            0 <= i < self.upload_queue.len() ==> self.cpu_meshes.contains_key(
                #[trigger] self.upload_queue[i],
            )
    }

    /// The world is as it should be. Chunks with edits are always kept.
    pub open spec fn wf(self) -> bool {
        &&& 0 <= self.render_distance <= MAX_RENDER_DISTANCE
        &&& self.slots_fit()
        &&& self.coords_fit()
        &&& self.chunks_fit()
        &&& self.queues_ok()
        &&& forall|c: ChunkCoord|
            #[trigger] self.modified.contains(c) ==> self.stored_chunks.contains_key(c)
        &&& 0 <= self.draw_slot < 2
    }

    /// The world after a slot was put on the list of those given back in the third frame from now.
    pub open spec fn after_defer(self, s: ChunkSlot) -> WorldView {
        WorldView { freed_third: self.freed_third.push(s), ..self }
    }

    /// The world after a new frame has begun: slots that were given up long enough ago are free.
    pub open spec fn after_release(self) -> WorldView {
        WorldView {
            arenas: match self.arenas {
                Some(a) => Some(a.after_frees(self.freed_first)),
                None => None,
            },
            freed_first: self.freed_second,
            freed_second: self.freed_third,
            freed_third: Seq::empty(),
            ..self
        }
    }

    /// The slots that were given up but are not free yet.
    pub open spec fn all_freed(self) -> Seq<ChunkSlot> {
        self.freed_first + self.freed_second + self.freed_third
    }

    /// The world after all slots that were given up are free.
    pub open spec fn after_flush(self) -> WorldView {
        WorldView {
            arenas: match self.arenas {
                Some(a) => Some(a.after_frees(self.all_freed())),
                None => None,
            },
            freed_first: Seq::empty(),
            freed_second: Seq::empty(),
            freed_third: Seq::empty(),
            ..self
        }
    }
}

} // verus!
