//! Loading the chunks around the camera: generating, meshing, and forgetting what is far away.

use super::World;
use crate::meshing::lods::{lods_of, LodMeshes, LodView};
use crate::world::chunk::{Chunk, ChunkView};
use crate::world::coords::{chebyshev, distance2, in_world, origin_of, BlockPos, ChunkCoord};
use crate::world::grid::{distance, lemma_push_contains, lemma_take_contains, CoordMap, CoordSet};
use crate::world::neighbor::{ChunkFaceData, NeighborMasks};
use crate::world::state::{nearest_first, WorldView};
use crate::world::terrain::{deterministic, generate, generated, HeightField};
use vstd::prelude::*;

verus! {

/// Chunks around the player whose blocks are kept, counted in king's moves.
pub const INTERACT_RADIUS: i64 = 3;

/// The `k`-th of the four neighbours of a chunk: +X, -X, +Z, -Z.
pub open spec fn neighbour_of(c: ChunkCoord, k: int) -> ChunkCoord {
    if k == 0 {
        ChunkCoord { x: (c.x + 1) as i32, z: c.z }
    } else if k == 1 {
        ChunkCoord { x: (c.x - 1) as i32, z: c.z }
    } else if k == 2 {
        ChunkCoord { x: c.x, z: (c.z + 1) as i32 }
    } else {
        ChunkCoord { x: c.x, z: (c.z - 1) as i32 }
    }
}

/// A chunk can be meshed when none of its neighbours is being generated.
pub open spec fn can_mesh_in(c: ChunkCoord, in_flight: Set<ChunkCoord>) -> bool {
    forall|k: int| 0 <= k < 4 ==> !in_flight.contains(#[trigger] neighbour_of(c, k))
}

/// The masks that the neighbours of a chunk have on the sides towards it.
pub open spec fn masks_at(faces: Map<ChunkCoord, ChunkFaceData>, c: ChunkCoord) -> NeighborMasks {
    NeighborMasks {
        pos_x: if faces.contains_key(neighbour_of(c, 0)) {
            Some(faces[neighbour_of(c, 0)].neg_x)
        } else {
            None
        },
        neg_x: if faces.contains_key(neighbour_of(c, 1)) {
            Some(faces[neighbour_of(c, 1)].pos_x)
        } else {
            None
        },
        pos_z: if faces.contains_key(neighbour_of(c, 2)) {
            Some(faces[neighbour_of(c, 2)].neg_z)
        } else {
            None
        },
        neg_z: if faces.contains_key(neighbour_of(c, 3)) {
            Some(faces[neighbour_of(c, 3)].pos_z)
        } else {
            None
        },
    }
}

/// A chunk that is to be meshed.
pub struct MeshTask {
    pub coord: ChunkCoord,
    pub chunk: Chunk,
    pub neighbors: NeighborMasks,
}

#[verifier::ext_equal]
pub struct TaskView {
    pub coord: ChunkCoord,
    pub chunk: ChunkView,
    pub neighbors: NeighborMasks,
}

impl View for MeshTask {
    type V = TaskView;

    open spec fn view(&self) -> TaskView {
        TaskView { coord: self.coord, chunk: self.chunk@, neighbors: self.neighbors }
    }
}

impl MeshTask {
    /// Makes the meshes.
    pub fn run(&self) -> (r: LodMeshes)
        requires
            self.chunk@.wf(),
        ensures
            r@ == lods_of(self.chunk@, self.neighbors),
    {
        LodMeshes::build(&self.chunk, &self.neighbors)
    }
}

/// The tasks of a list.
pub open spec fn task_views(tasks: Seq<MeshTask>) -> Seq<TaskView> {
    tasks.map_values(|t: MeshTask| t@)
}

/// The chunk of the block column (x, z) where the camera is. Quotients are rounded towards zero.
pub open spec fn camera_chunk(x: int, z: int) -> ChunkCoord {
    ChunkCoord { x: towards_zero(x) as i32, z: towards_zero(z) as i32 }
}

/// A 32nd, rounded towards zero.
pub open spec fn towards_zero(x: int) -> int {
    if x >= 0 {
        x / 32
    } else {
        -((-x) / 32)
    }
}

impl WorldView {
    /// The blocks that a chunk is meshed from: those that are kept, which may have edits; else
    /// those that wait for it; else the terrain's.
    pub open spec fn source<F: Fn(i32, i32) -> HeightField>(self, f: F, c: ChunkCoord) -> ChunkView {
        if self.stored_chunks.contains_key(c) {
            self.stored_chunks[c]
        } else if self.pending_chunks.contains_key(c) {
            self.pending_chunks[c]
        } else {
            generated(f, origin_of(c))
        }
    }

    /// What is needed to mesh a chunk.
    pub open spec fn task<F: Fn(i32, i32) -> HeightField>(self, f: F, c: ChunkCoord) -> TaskView {
        TaskView { coord: c, chunk: self.source(f, c), neighbors: masks_at(self.face_data, c) }
    }

    /// The world after a chunk was given out to be meshed.
    pub open spec fn after_spawn(self, c: ChunkCoord) -> WorldView {
        WorldView {
            pending_chunks: self.pending_chunks.remove(c),
            mesh_in_flight: self.mesh_in_flight.insert(c),
            ..self
        }
    }

    /// The world after a chunk that waited for its neighbours was given out to be meshed.
    pub open spec fn after_unblock(self, c: ChunkCoord) -> WorldView {
        WorldView { pending_mesh: self.pending_mesh.remove(c), ..self }.after_spawn(c)
    }

    /// A chunk waits to be meshed and need not wait longer.
    pub open spec fn ready(self, c: ChunkCoord) -> bool {
        self.pending_mesh.contains(c) && can_mesh_in(c, self.gen_in_flight)
    }

    /// How many chunks are taken from the queue to be generated: so many that there are four for
    /// each thread, but at least 16, on their way.
    pub open spec fn spawn_count(self, threads: int) -> int {
        let queued = self.spawn_queue.len() as int;
        let flying = if self.gen_in_flight.len() > queued {
            self.gen_in_flight.len() - queued
        } else {
            0
        };
        let target = if threads * 4 > 16 {
            threads * 4
        } else {
            16
        };
        let room = if target > flying {
            target - flying
        } else {
            0
        };
        if room < queued {
            room
        } else {
            queued
        }
    }

    /// The world after chunks were taken from the queue to be generated.
    pub open spec fn after_take(self, threads: int) -> WorldView {
        WorldView { spawn_queue: self.spawn_queue.skip(self.spawn_count(threads)), ..self }
    }

    /// The world after a chunk was generated, before it is meshed. Blocks that are kept are not
    /// replaced: they may have edits.
    pub open spec fn after_arrival(
        self,
        cam: ChunkCoord,
        c: ChunkCoord,
        faces: ChunkFaceData,
        chunk: ChunkView,
    ) -> WorldView {
        WorldView {
            gen_in_flight: self.gen_in_flight.remove(c),
            face_data: self.face_data.insert(c, faces),
            stored_chunks: if chebyshev(c, cam) <= INTERACT_RADIUS
                && !self.stored_chunks.contains_key(c) {
                self.stored_chunks.insert(c, chunk)
            } else {
                self.stored_chunks
            },
            pending_chunks: self.pending_chunks.insert(c, chunk),
            ..self
        }
    }

    /// The world after the chunk itself was given out to be meshed or has to wait, and what is
    /// given out.
    pub open spec fn after_own_mesh<F: Fn(i32, i32) -> HeightField>(self, f: F, c: ChunkCoord) -> (
        WorldView,
        Seq<TaskView>,
    ) {
        if can_mesh_in(c, self.gen_in_flight) {
            (self.after_spawn(c), seq![self.task(f, c)])
        } else {
            (
                WorldView { pending_mesh: self.pending_mesh.insert(c), ..self },
                Seq::empty(),
            )
        }
    }

    /// The world after those of the first `k` neighbours that were ready were given out as well.
    pub open spec fn after_neighbours<F: Fn(i32, i32) -> HeightField>(
        self,
        f: F,
        c: ChunkCoord,
        k: int,
    ) -> (WorldView, Seq<TaskView>)
        decreases k,
    {
        if k <= 0 {
            (self, Seq::empty())
        } else {
            let (w, tasks) = self.after_neighbours(f, c, k - 1);
            let n = neighbour_of(c, k - 1);
            if self.ready(n) {
                (w.after_unblock(n), tasks.push(w.task(f, n)))
            } else {
                (w, tasks)
            }
        }
    }

    /// The world after a chunk was generated, and what can be meshed now.
    pub open spec fn after_generated<F: Fn(i32, i32) -> HeightField>(
        self,
        f: F,
        cam: ChunkCoord,
        c: ChunkCoord,
        faces: ChunkFaceData,
        chunk: ChunkView,
    ) -> (WorldView, Seq<TaskView>) {
        if chebyshev(c, cam) > self.render_distance {
            (
                WorldView { gen_in_flight: self.gen_in_flight.remove(c), ..self },
                Seq::empty(),
            )
        } else {
            let (w1, own) = self.after_arrival(cam, c, faces, chunk).after_own_mesh(f, c);
            let (w2, others) = w1.after_neighbours(f, c, 4);
            (w2, own + others)
        }
    }

    /// The world after a set of chunks stopped waiting, and those among them that are `given`
    /// were given out to be meshed.
    pub open spec fn after_spawns(self, freed: Set<ChunkCoord>, given: Set<ChunkCoord>) -> WorldView {
        WorldView {
            pending_mesh: self.pending_mesh.difference(freed),
            pending_chunks: self.pending_chunks.remove_keys(given),
            mesh_in_flight: self.mesh_in_flight.union(given),
            ..self
        }
    }

    /// `tasks` give out the chunks of a set, each once, in any order.
    pub open spec fn gives_out<F: Fn(i32, i32) -> HeightField>(
        self,
        f: F,
        given: Set<ChunkCoord>,
        tasks: Seq<TaskView>,
    ) -> bool {
        &&& forall|i: int|
            0 <= i < tasks.len() ==> given.contains((#[trigger] tasks[i]).coord) && tasks[i]
                == self.task(f, tasks[i].coord)
        &&& forall|c: ChunkCoord| #[trigger] given.contains(c) ==> has_task(tasks, c)
        &&& forall|i: int, j: int|
            0 <= i < j < tasks.len() ==> (#[trigger] tasks[i]).coord != (#[trigger] tasks[j]).coord
    }

    /// Those of a list that are not being meshed and, if `fresh_only` is set, have no mesh.
    pub open spec fn given_of(self, list: Seq<ChunkCoord>, fresh_only: bool) -> Set<ChunkCoord> {
        Set::new(
            |c: ChunkCoord|
                list.contains(c) && !self.mesh_in_flight.contains(c) && !(fresh_only
                    && self.loaded.contains(c)),
        )
    }

    /// The chunks that need not wait any longer.
    pub open spec fn unblocked(self) -> Set<ChunkCoord> {
        Set::new(|c: ChunkCoord| self.ready(c))
    }

    /// The chunks that wait for neighbours though nothing is being generated.
    pub open spec fn stuck(self) -> Set<ChunkCoord> {
        if self.gen_in_flight.len() == 0 {
            self.pending_mesh
        } else {
            Set::empty()
        }
    }

    /// Those of the stuck chunks that are given out to be meshed.
    pub open spec fn stuck_given(self) -> Set<ChunkCoord> {
        self.stuck().difference(self.mesh_in_flight).difference(self.loaded)
    }

    /// Those of the unblocked chunks that are given out to be meshed.
    pub open spec fn unblocked_given(self) -> Set<ChunkCoord> {
        self.unblocked().difference(self.mesh_in_flight)
    }

    /// The world after a mesh was made.
    pub open spec fn after_meshed(self, cam: ChunkCoord, c: ChunkCoord, lods: LodView) -> WorldView {
        let w = WorldView { mesh_in_flight: self.mesh_in_flight.remove(c), ..self };
        if chebyshev(c, cam) > self.render_distance {
            w
        } else if lods.full.vertices.len() > 0 {
            WorldView {
                loaded: w.loaded.insert(c),
                cpu_meshes: w.cpu_meshes.insert(c, lods),
                upload_queue: w.upload_queue.push(c),
                ..w
            }
        } else {
            WorldView { loaded: w.loaded.insert(c), ..w }
        }
    }
}

/// One of the tasks is for a chunk.
pub open spec fn has_task(tasks: Seq<TaskView>, c: ChunkCoord) -> bool {
    exists|i: int| 0 <= i < tasks.len() && (#[trigger] tasks[i]).coord == c
}

/// The `k`-th of the four neighbours of a chunk.
pub fn neighbour(c: ChunkCoord, k: usize) -> (r: ChunkCoord)
    requires
        k < 4,
        in_world(c),
    ensures
        r == neighbour_of(c, k as int),
{
    if k == 0 {
        ChunkCoord { x: c.x + 1, z: c.z }
    } else if k == 1 {
        ChunkCoord { x: c.x - 1, z: c.z }
    } else if k == 2 {
        ChunkCoord { x: c.x, z: c.z + 1 }
    } else {
        ChunkCoord { x: c.x, z: c.z - 1 }
    }
}

/// Whether none of the neighbours of a chunk is being generated.
pub fn can_mesh(c: ChunkCoord, in_flight: &CoordSet) -> (r: bool)
    requires
        in_world(c),
    ensures
        r == can_mesh_in(c, in_flight@),
{
    let mut k: usize = 0;
    while k < 4
        invariant
            k <= 4,
            in_world(c),
            forall|j: int| 0 <= j < k ==> !in_flight@.contains(#[trigger] neighbour_of(c, j)),
        decreases 4 - k,
    {
        if in_flight.contains(neighbour(c, k)) {
            assert(in_flight@.contains(neighbour_of(c, k as int)));
            return false;
        }
        k = k + 1;
    }
    true
}

/// The masks that the neighbours of a chunk have on the sides towards it.
pub fn build_neighbor_masks(c: ChunkCoord, faces: &CoordMap<ChunkFaceData>) -> (r: NeighborMasks)
    requires
        in_world(c),
    ensures
        r == masks_at(faces@, c),
{
    NeighborMasks {
        pos_x: match faces.get(neighbour(c, 0)) {
            Some(d) => Some(d.neg_x),
            None => None,
        },
        neg_x: match faces.get(neighbour(c, 1)) {
            Some(d) => Some(d.pos_x),
            None => None,
        },
        pos_z: match faces.get(neighbour(c, 2)) {
            Some(d) => Some(d.neg_z),
            None => None,
        },
        neg_z: match faces.get(neighbour(c, 3)) {
            Some(d) => Some(d.pos_z),
            None => None,
        },
    }
}

/// The chunk of the block column (x, z) where the camera is. Quotients are rounded towards zero.
pub fn world_to_chunk(x: i32, z: i32) -> (r: ChunkCoord)
    ensures
        r == camera_chunk(x as int, z as int),
{
    ChunkCoord { x: thirty_second(x), z: thirty_second(z) }
}

fn thirty_second(x: i32) -> (r: i32)
    ensures
        r == towards_zero(x as int),
{
    if x >= 0 {
        x / 32
    } else {
        let n: i64 = -(x as i64);
        (-(n / 32)) as i32
    }
}

/// The position of the lowest corner block of a chunk.
pub fn chunk_origin(c: ChunkCoord) -> (r: BlockPos)
    requires
        in_world(c),
    ensures
        r == origin_of(c),
{
    BlockPos { x: c.x * 32, y: 0, z: c.z * 32 }
}

/// Generates a chunk and what its neighbours need to know of it.
pub fn generate_chunk<F: Fn(i32, i32) -> HeightField>(terrain: &F, c: ChunkCoord) -> (r: (
    ChunkFaceData,
    Chunk,
))
    requires
        deterministic(*terrain),
        in_world(c),
    ensures
        r.1@ == generated(*terrain, origin_of(c)),
        r.1@.wf(),
        r.0 == crate::world::neighbor::faces_of(r.1@),
{
    let chunk = generate(terrain, chunk_origin(c));
    let faces = ChunkFaceData::extract(&chunk);
    (faces, chunk)
}

impl World {
    /// The blocks that a chunk is meshed from. Those that wait for it are taken out.
    pub(crate) fn take_source<F: Fn(i32, i32) -> HeightField>(&mut self, terrain: &F, c: ChunkCoord) -> (r:
        Chunk)
        requires
            old(self)@.wf(),
            deterministic(*terrain),
            in_world(c),
        ensures
            r@ == old(self)@.source(*terrain, c),
            r@.wf(),
            final(self)@ == (WorldView {
                pending_chunks: old(self)@.pending_chunks.remove(c),
                ..old(self)@
            }),
            final(self)@.wf(),
    {
        let ghost before = self@;
        let stored: Option<Chunk> = match self.stored_chunks.get(c) {
            Some(chunk) => {
                assert(before.stored_chunks[c].wf());
                Some(chunk.clone())
            },
            None => None,
        };
        let waiting = self.pending_chunks.remove(c);
        proof {
            assert(self@ =~= (WorldView {
                pending_chunks: before.pending_chunks.remove(c),
                ..before
            }));
            assert forall|d: ChunkCoord| self@.pending_chunks.contains_key(d) implies (
            #[trigger] self@.pending_chunks[d]).wf() by {
                assert(before.pending_chunks[d].wf());
            }
            assert(self@.chunks_fit());
            if before.pending_chunks.contains_key(c) {
                assert(before.pending_chunks[c].wf());
            }
        }
        match stored {
            Some(chunk) => chunk,
            None => match waiting {
                Some(chunk) => chunk,
                None => generate(terrain, chunk_origin(c)),
            },
        }
    }

    /// Gives out a chunk to be meshed.
    fn spawn_mesh<F: Fn(i32, i32) -> HeightField>(&mut self, terrain: &F, c: ChunkCoord) -> (r:
        MeshTask)
        requires
            old(self)@.wf(),
            deterministic(*terrain),
            in_world(c),
        ensures
            r@ == old(self)@.task(*terrain, c),
            r.chunk@.wf(),
            final(self)@ == old(self)@.after_spawn(c),
            final(self)@.wf(),
    {
        let ghost before = self@;
        let neighbors = build_neighbor_masks(c, &self.face_data);
        let chunk = self.take_source(terrain, c);
        self.mesh_in_flight.insert(c);
        assert(self@ =~= before.after_spawn(c));
        MeshTask { coord: c, chunk, neighbors }
    }

    /// Takes chunks from the queue to be generated, so many that the threads stay busy.
    pub fn take_spawns(&mut self, threads: usize) -> (r: Vec<ChunkCoord>)
        requires
            old(self)@.wf(),
            threads * 4 <= usize::MAX,
        ensures
            r@ == old(self)@.spawn_queue.take(old(self)@.spawn_count(threads as int)),
            final(self)@ == old(self)@.after_take(threads as int),
            final(self)@.wf(),
            forall|i: int| 0 <= i < r.len() ==> in_world(#[trigger] r[i]),
    {
        let ghost before = self@;
        let ghost count = before.spawn_count(threads as int);
        let mut r: Vec<ChunkCoord> = Vec::new();
        let queued: usize = self.spawn_queue.len();
        let all: usize = self.gen_in_flight.len();
        let flying: usize = if all > queued {
            all - queued
        } else {
            0
        };
        let target: usize = if threads * 4 > 16 {
            threads * 4
        } else {
            16
        };
        let room: usize = if target > flying {
            target - flying
        } else {
            0
        };
        let n: usize = if room < queued {
            room
        } else {
            queued
        };
        let mut i: usize = 0;
        assert(self@.spawn_queue =~= before.spawn_queue.skip(0));
        while i < n
            invariant
                i <= n,
                n == count,
                n <= before.spawn_queue.len(),
                before.wf(),
                r@ == before.spawn_queue.take(i as int),
                self@ == (WorldView { spawn_queue: before.spawn_queue.skip(i as int), ..before }),
            decreases n - i,
        {
            let popped = self.spawn_queue.pop_front();
            if let Some(c) = popped {
                r.push(c);
            }
            assert(r@ =~= before.spawn_queue.take(i + 1));
            assert(self@ =~= (WorldView { spawn_queue: before.spawn_queue.skip(i + 1), ..before }));
            i = i + 1;
        }
        proof {
            assert(self@.coords_fit()) by {
                assert forall|k: int| 0 <= k < self@.spawn_queue.len() implies in_world(
                    #[trigger] self@.spawn_queue[k],
                ) by {
                    assert(in_world(before.spawn_queue[k + n]));
                }
            }
            assert forall|k: int| 0 <= k < r.len() implies in_world(#[trigger] r[k]) by {
                assert(in_world(before.spawn_queue[k]));
            }
            assert(nearest_first(self@.spawn_queue, self@.last_cam)) by {
                assert forall|i: int, j: int| 0 <= i <= j < self@.spawn_queue.len() implies distance2(
                    #[trigger] self@.spawn_queue[i],
                    before.last_cam,
                ) <= distance2(#[trigger] self@.spawn_queue[j], before.last_cam) by {
                    assert(distance2(before.spawn_queue[i + n], before.last_cam) <= distance2(
                        before.spawn_queue[j + n],
                        before.last_cam,
                    ));
                }
            }
        }
        r
    }

    /// Takes in a generated chunk, and gives out what can be meshed now: the chunk itself and
    /// those of its neighbours that waited for it.
    pub fn on_generated<F: Fn(i32, i32) -> HeightField>(
        &mut self,
        terrain: &F,
        cam: ChunkCoord,
        c: ChunkCoord,
        faces: ChunkFaceData,
        chunk: Chunk,
    ) -> (r: Vec<MeshTask>)
        requires
            old(self)@.wf(),
            deterministic(*terrain),
            in_world(c),
            chunk@.wf(),
        ensures
            (final(self)@, task_views(r@)) == old(self)@.after_generated(
                *terrain,
                cam,
                c,
                faces,
                chunk@,
            ),
            final(self)@.wf(),
            forall|i: int| 0 <= i < r.len() ==> (#[trigger] r[i]).chunk@.wf(),
    {
        let ghost w0 = self@;
        let ghost cv = chunk@;
        let mut tasks: Vec<MeshTask> = Vec::new();
        self.gen_in_flight.remove(c);
        if distance(c, cam) > self.render_distance as i64 {
            assert(self@ =~= w0.after_generated(*terrain, cam, c, faces, cv).0);
            assert(task_views(tasks@) =~= Seq::empty());
            return tasks;
        }
        self.face_data.insert(c, faces);
        if distance(c, cam) <= INTERACT_RADIUS && !self.stored_chunks.contains_key(c) {
            self.stored_chunks.insert(c, chunk.clone());
        }
        self.pending_chunks.insert(c, chunk);
        let ghost w1 = w0.after_arrival(cam, c, faces, cv);
        proof {
            assert(self@ =~= w1);
            assert forall|d: ChunkCoord| w1.stored_chunks.contains_key(d) implies (
            #[trigger] w1.stored_chunks[d]).wf() by {
                if w0.stored_chunks.contains_key(d) {
                    assert(w0.stored_chunks[d].wf());
                }
            }
            assert forall|d: ChunkCoord| w1.pending_chunks.contains_key(d) implies (
            #[trigger] w1.pending_chunks[d]).wf() by {
                if d != c {
                    assert(w0.pending_chunks[d].wf());
                }
            }
            assert(w1.slots_fit());
            assert(w1.wf());
        }
        if can_mesh(c, &self.gen_in_flight) {
            tasks.push(self.spawn_mesh(terrain, c));
        } else {
            self.pending_mesh.insert(c);
        }
        let ghost (w2, own) = w1.after_own_mesh(*terrain, c);
        proof {
            assert(self@ =~= w2);
            assert(task_views(tasks@) =~= own);
            assert(w2.wf());
        }
        let mut ready: [bool; 4] = [false, false, false, false];
        let mut k: usize = 0;
        while k < 4
            invariant
                k <= 4,
                self@ == w2,
                w2.wf(),
                in_world(c),
                forall|j: int|
                    0 <= j < k ==> #[trigger] ready[j] == w2.ready(neighbour_of(c, j)),
            decreases 4 - k,
        {
            let n = neighbour(c, k);
            if self.pending_mesh.contains(n) {
                assert(w2.pending_mesh.contains(n));
                ready[k] = can_mesh(n, &self.gen_in_flight);
            } else {
                ready[k] = false;
            }
            k = k + 1;
        }
        let mut m: usize = 0;
        assert(own + Seq::<TaskView>::empty() =~= own);
        while m < 4
            invariant
                m <= 4,
                w2.wf(),
                in_world(c),
                deterministic(*terrain),
                forall|j: int|
                    0 <= j < 4 ==> #[trigger] ready[j] == w2.ready(neighbour_of(c, j)),
                self@ == w2.after_neighbours(*terrain, c, m as int).0,
                self@.wf(),
                task_views(tasks@) == own + w2.after_neighbours(*terrain, c, m as int).1,
                forall|i: int| 0 <= i < tasks.len() ==> (#[trigger] tasks[i]).chunk@.wf(),
            decreases 4 - m,
        {
            if ready[m] {
                let n = neighbour(c, m);
                let ghost before = self@;
                let ghost views = task_views(tasks@);
                self.pending_mesh.remove(n);
                let ghost mid = WorldView { pending_mesh: before.pending_mesh.remove(n), ..before };
                proof {
                    assert(self@ =~= mid);
                    assert(w2.pending_mesh.contains(n));
                    assert(mid.slots_fit());
                    assert(mid.wf());
                    assert(mid.task(*terrain, n) == before.task(*terrain, n));
                }
                let task = self.spawn_mesh(terrain, n);
                let ghost tv = task@;
                tasks.push(task);
                proof {
                    assert(task_views(tasks@) =~= views.push(tv));
                    assert(views.push(tv) =~= own + w2.after_neighbours(*terrain, c, m as int).1.push(
                        tv,
                    ));
                }
            }
            m = m + 1;
        }
        tasks
    }

    /// Ends the waiting of the chunks of a list. Gives out those that are not being meshed and,
    /// if `fresh_only` is set, have no mesh.
    fn spawn_all<F: Fn(i32, i32) -> HeightField>(
        &mut self,
        terrain: &F,
        list: &Vec<ChunkCoord>,
        fresh_only: bool,
    ) -> (r: Vec<MeshTask>)
        requires
            old(self)@.wf(),
            deterministic(*terrain),
            list@.no_duplicates(),
            forall|i: int| 0 <= i < list.len() ==> in_world(#[trigger] list[i]),
        ensures
            ({
                let w = old(self)@;
                let given = w.given_of(list@, fresh_only);
                &&& final(self)@ == w.after_spawns(list@.to_set(), given)
                &&& w.gives_out(*terrain, given, task_views(r@))
            }),
            final(self)@.wf(),
            forall|i: int| 0 <= i < r.len() ==> (#[trigger] r[i]).chunk@.wf(),
    {
        let ghost w = self@;
        let ghost given_to = |k: int| w.given_of(list@.take(k), fresh_only);
        let mut tasks: Vec<MeshTask> = Vec::new();
        let mut i: usize = 0;
        proof {
            assert(w.after_spawns(list@.take(0).to_set(), given_to(0)) =~= w);
        }
        while i < list.len()
            invariant
                i <= list.len(),
                w.wf(),
                deterministic(*terrain),
                list@.no_duplicates(),
                forall|j: int| 0 <= j < list.len() ==> in_world(#[trigger] list[j]),
                given_to == (|k: int| w.given_of(list@.take(k), fresh_only)),
                self@ == w.after_spawns(list@.take(i as int).to_set(), given_to(i as int)),
                self@.wf(),
                w.gives_out(*terrain, given_to(i as int), task_views(tasks@)),
                forall|j: int| 0 <= j < tasks.len() ==> (#[trigger] tasks[j]).chunk@.wf(),
            decreases list.len() - i,
        {
            let c = list[i];
            let ghost before = self@;
            let ghost views = task_views(tasks@);
            let ghost g0 = given_to(i as int);
            let ghost g1 = given_to(i + 1);
            proof {
                lemma_take_contains(list@, i as int);
                assert(!list@.take(i as int).contains(c)) by {
                    if list@.take(i as int).contains(c) {
                        let j = choose|j: int| 0 <= j < i && list@.take(i as int)[j] == c;
                        assert(list@[j] == list@[i as int]);
                    }
                }
                assert(!g0.contains(c));
                assert(list@.take(i + 1).to_set() =~= list@.take(i as int).to_set().insert(c)) by {
                    assert forall|d: ChunkCoord|
                        #[trigger] list@.take(i + 1).to_set().contains(d) <==> list@.take(
                            i as int,
                        ).to_set().insert(c).contains(d) by {
                        assert(list@.take(i + 1).to_set().contains(d) <==> list@.take(
                            i + 1,
                        ).contains(d));
                        assert(list@.take(i as int).to_set().contains(d) <==> list@.take(
                            i as int,
                        ).contains(d));
                    }
                }
            }
            self.pending_mesh.remove(c);
            let ghost mid = WorldView { pending_mesh: before.pending_mesh.remove(c), ..before };
            proof {
                assert(self@ =~= mid);
                assert(mid.slots_fit());
                assert(mid.wf());
            }
            if !self.mesh_in_flight.contains(c) && !(fresh_only && self.loaded.contains(c)) {
                proof {
                    assert(g1 =~= g0.insert(c));
                    assert(mid.task(*terrain, c) == w.task(*terrain, c));
                }
                let task = self.spawn_mesh(terrain, c);
                let ghost tv = task@;
                tasks.push(task);
                proof {
                    assert(task_views(tasks@) =~= views.push(tv));
                    let now = views.push(tv);
                    assert(self@ =~= w.after_spawns(list@.take(i + 1).to_set(), g1));
                    assert forall|d: ChunkCoord| #[trigger] g1.contains(d) implies has_task(
                        now,
                        d,
                    ) by {
                        if d == c {
                            assert(now[views.len() as int].coord == c);
                        } else {
                            assert(has_task(views, d));
                            let j = choose|j: int|
                                0 <= j < views.len() && (#[trigger] views[j]).coord == d;
                            assert(now[j].coord == d);
                        }
                    }
                    assert forall|a: int, b: int| 0 <= a < b < now.len() implies (
                    #[trigger] now[a]).coord != (#[trigger] now[b]).coord by {
                        if b == views.len() {
                            assert(g0.contains(views[a].coord));
                        } else {
                            assert(views[a].coord != views[b].coord);
                        }
                    }
                    assert forall|j: int| 0 <= j < now.len() implies g1.contains(
                        (#[trigger] now[j]).coord,
                    ) && now[j] == w.task(*terrain, now[j].coord) by {
                        if j < views.len() {
                            assert(g0.contains(views[j].coord));
                        }
                    }
                    assert(w.gives_out(*terrain, g1, task_views(tasks@)));
                }
            } else {
                proof {
                    assert(g1 =~= g0);
                    assert(self@ =~= w.after_spawns(list@.take(i + 1).to_set(), g1));
                }
            }
            i = i + 1;
        }
        proof {
            assert(list@.take(i as int) =~= list@);
        }
        tasks
    }

    /// Gives out the chunks that need not wait for their neighbours any longer, but for those
    /// that are being meshed.
    pub fn unblock<F: Fn(i32, i32) -> HeightField>(&mut self, terrain: &F) -> (r: Vec<MeshTask>)
        requires
            old(self)@.wf(),
            deterministic(*terrain),
        ensures
            ({
                let w = old(self)@;
                &&& final(self)@ == w.after_spawns(w.unblocked(), w.unblocked_given())
                &&& w.gives_out(*terrain, w.unblocked_given(), task_views(r@))
            }),
            final(self)@.wf(),
            forall|i: int| 0 <= i < r.len() ==> (#[trigger] r[i]).chunk@.wf(),
    {
        let ghost w = self@;
        let waiting = self.pending_mesh.items();
        let mut list: Vec<ChunkCoord> = Vec::new();
        let mut i: usize = 0;
        while i < waiting.len()
            invariant
                i <= waiting.len(),
                self@ == w,
                w.wf(),
                waiting@.to_set() == w.pending_mesh,
                waiting@.no_duplicates(),
                list@.no_duplicates(),
                forall|c: ChunkCoord|
                    #[trigger] list@.contains(c) <==> waiting@.take(i as int).contains(c)
                        && can_mesh_in(c, w.gen_in_flight),
                forall|j: int| 0 <= j < list.len() ==> in_world(#[trigger] list[j]),
            decreases waiting.len() - i,
        {
            let c = waiting[i];
            let ghost before = list@;
            proof {
                lemma_take_contains(waiting@, i as int);
                assert(waiting@.contains(c));
                assert(w.pending_mesh.contains(c));
                assert(!waiting@.take(i as int).contains(c)) by {
                    if waiting@.take(i as int).contains(c) {
                        let j = choose|j: int| 0 <= j < i && waiting@.take(i as int)[j] == c;
                        assert(waiting@[j] == waiting@[i as int]);
                    }
                }
                assert(!before.contains(c));
            }
            if can_mesh(c, &self.gen_in_flight) {
                list.push(c);
                proof {
                    assert forall|d: ChunkCoord|
                        #[trigger] list@.contains(d) <==> waiting@.take(i + 1).contains(d)
                            && can_mesh_in(d, w.gen_in_flight) by {
                        lemma_push_contains(before, c, d);
                    }
                }
            }
            i = i + 1;
        }
        proof {
            assert(waiting@.take(i as int) =~= waiting@);
            assert(list@.to_set() =~= w.unblocked()) by {
                assert forall|c: ChunkCoord|
                    #[trigger] list@.to_set().contains(c) <==> w.unblocked().contains(c) by {
                    assert(list@.to_set().contains(c) <==> list@.contains(c));
                    assert(waiting@.to_set().contains(c) <==> waiting@.contains(c));
                }
            }
        }
        let r = self.spawn_all(terrain, &list, false);
        proof {
            let given = w.given_of(list@, false);
            assert(given =~= w.unblocked().difference(w.mesh_in_flight)) by {
                assert forall|c: ChunkCoord| #[trigger] given.contains(c) <==> w.unblocked().difference(
                    w.mesh_in_flight,
                ).contains(c) by {
                    assert(list@.to_set().contains(c) <==> list@.contains(c));
                }
            }
        }
        r
    }

    /// When nothing is being generated, no chunk has to wait for a neighbour: gives out all that
    /// wait, but for those that are being meshed or have a mesh.
    pub fn flush_stuck<F: Fn(i32, i32) -> HeightField>(&mut self, terrain: &F) -> (r: Vec<MeshTask>)
        requires
            old(self)@.wf(),
            deterministic(*terrain),
        ensures
            ({
                let w = old(self)@;
                &&& final(self)@ == w.after_spawns(w.stuck(), w.stuck_given())
                &&& w.gives_out(*terrain, w.stuck_given(), task_views(r@))
            }),
            final(self)@.wf(),
            forall|i: int| 0 <= i < r.len() ==> (#[trigger] r[i]).chunk@.wf(),
    {
        let ghost w = self@;
        if self.gen_in_flight.len() > 0 {
            let r: Vec<MeshTask> = Vec::new();
            proof {
                let none = Set::<ChunkCoord>::empty();
                assert(none.difference(w.mesh_in_flight).difference(w.loaded) =~= none);
                assert(w.after_spawns(none, none) =~= w);
                assert(task_views(r@) =~= Seq::empty());
            }
            return r;
        }
        let list = self.pending_mesh.items();
        proof {
            assert forall|j: int| 0 <= j < list.len() implies in_world(#[trigger] list[j]) by {
                assert(list@.to_set().contains(list[j]));
                assert(w.pending_mesh.contains(list[j]));
            }
        }
        let r = self.spawn_all(terrain, &list, true);
        proof {
            let given = w.given_of(list@, true);
            assert(given =~= w.pending_mesh.difference(w.mesh_in_flight).difference(w.loaded)) by {
                assert forall|c: ChunkCoord|
                    #[trigger] given.contains(c) <==> w.pending_mesh.difference(
                        w.mesh_in_flight,
                    ).difference(w.loaded).contains(c) by {
                    assert(list@.to_set().contains(c) <==> list@.contains(c));
                }
            }
        }
        r
    }

    /// Takes in the meshes of a chunk.
    pub fn on_meshed(&mut self, cam: ChunkCoord, c: ChunkCoord, lods: LodMeshes)
        requires
            old(self)@.wf(),
        ensures
            final(self)@ == old(self)@.after_meshed(cam, c, lods@),
            final(self)@.wf(),
    {
        let ghost w = self@;
        let ghost lv = lods@;
        self.mesh_in_flight.remove(c);
        if distance(c, cam) > self.render_distance as i64 {
            assert(self@ =~= w.after_meshed(cam, c, lv));
            return;
        }
        self.loaded.insert(c);
        if lods.level(0).vertices.len() > 0 {
            self.cpu_meshes.insert(c, lods);
            self.upload_queue.push(c);
        }
        assert(self@ =~= w.after_meshed(cam, c, lv));
    }
}

} // verus!
