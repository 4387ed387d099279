//! What is done with the world in each frame.

use super::stream::{task_views, MeshTask, TaskView};
use super::World;
use crate::meshing::lods::LodMeshes;
use crate::world::chunk::{Chunk, ChunkView};
use crate::world::coords::{in_world, ChunkCoord};
use crate::world::neighbor::ChunkFaceData;
use crate::world::state::WorldView;
use crate::world::terrain::{deterministic, HeightField};
use std::collections::VecDeque;
use vstd::prelude::*;

verus! {

/// A chunk that was generated.
pub struct Arrival {
    pub coord: ChunkCoord,
    pub faces: ChunkFaceData,
    pub chunk: Chunk,
}

#[verifier::ext_equal]
pub struct ArrivalView {
    pub coord: ChunkCoord,
    pub faces: ChunkFaceData,
    pub chunk: ChunkView,
}

impl View for Arrival {
    type V = ArrivalView;

    open spec fn view(&self) -> ArrivalView {
        ArrivalView { coord: self.coord, faces: self.faces, chunk: self.chunk@ }
    }
}

/// The meshes of a chunk that are done.
pub struct Meshed {
    pub coord: ChunkCoord,
    pub lods: LodMeshes,
}

/// What is to be done after an update.
pub struct Update {
    /// The chunks to be generated.
    pub spawns: Vec<ChunkCoord>,
    /// What can be meshed because of chunks that were generated.
    pub arrived: Vec<MeshTask>,
    /// What can be meshed because nothing is being generated.
    pub stuck: Vec<MeshTask>,
    /// What can be meshed because nothing beside it is being generated.
    pub unblocked: Vec<MeshTask>,
    /// The chunks that were meshed again.
    pub remeshed: Vec<ChunkCoord>,
}

/// All chunks of a list can be taken in.
pub open spec fn arrivals_ok(arrivals: Seq<Arrival>) -> bool {
    forall|i: int|
        0 <= i < arrivals.len() ==> in_world((#[trigger] arrivals[i]).coord)
            && arrivals[i].chunk@.wf()
}

/// The blocks of all tasks of a list are those of whole chunks.
pub open spec fn tasks_ok(tasks: Seq<MeshTask>) -> bool {
    forall|i: int| 0 <= i < tasks.len() ==> (#[trigger] tasks[i]).chunk@.wf()
}

impl WorldView {
    /// The world after the first `k` generated chunks of a list came in, and what can be meshed.
    pub open spec fn after_arrivals<F: Fn(i32, i32) -> HeightField>(
        self,
        f: F,
        cam: ChunkCoord,
        arrivals: Seq<Arrival>,
        k: int,
    ) -> (WorldView, Seq<TaskView>)
        decreases k,
    {
        if k <= 0 {
            (self, Seq::empty())
        } else {
            let (w, tasks) = self.after_arrivals(f, cam, arrivals, k - 1);
            let a = arrivals[k - 1]@;
            let (after, more) = w.after_generated(f, cam, a.coord, a.faces, a.chunk);
            (after, tasks + more)
        }
    }

    /// The world after the first `k` meshes of a list came in.
    pub open spec fn after_meshes(self, cam: ChunkCoord, meshed: Seq<Meshed>, k: int) -> WorldView
        decreases k,
    {
        if k <= 0 {
            self
        } else {
            let m = meshed[k - 1];
            self.after_meshes(cam, meshed, k - 1).after_meshed(cam, m.coord, m.lods@)
        }
    }

    /// The world when a frame has begun: slots that were given up long enough ago are free,
    /// chunks are taken to be generated, and a batch that is done is drawn from.
    pub open spec fn after_begin(self, threads: int, batch_done: bool) -> WorldView {
        let w = self.after_release().after_take(threads);
        if batch_done {
            w.after_batch()
        } else {
            w
        }
    }

    /// The world after all that is done in a frame before meshes are uploaded. The chunks of
    /// `remeshed` are meshed again, in this order.
    pub open spec fn after_update<F: Fn(i32, i32) -> HeightField>(
        self,
        f: F,
        cam: ChunkCoord,
        threads: int,
        batch_done: bool,
        arrivals: Seq<Arrival>,
        meshed: Seq<Meshed>,
        remeshed: Seq<ChunkCoord>,
    ) -> WorldView {
        let w1 = self.after_begin(threads, batch_done);
        let w2 = w1.after_arrivals(f, cam, arrivals, arrivals.len() as int).0;
        let w3 = w2.after_waiting().after_meshes(cam, meshed, meshed.len() as int);
        w3.after_remeshes(f, remeshed, remeshed.len() as int)
    }

    /// The world after chunks that wait were given out.
    pub open spec fn after_waiting(self) -> WorldView {
        let w = self.after_spawns(self.stuck(), self.stuck_given());
        w.after_spawns(w.unblocked(), w.unblocked_given())
    }
}

impl World {
    /// Does all that is to be done in a frame before meshes are uploaded. `batch_done` says
    /// whether the GPU is done with the batch on its way; `arrivals` and `meshed` are what came
    /// in since the last frame.
    pub fn update<F: Fn(i32, i32) -> HeightField>(
        &mut self,
        terrain: &F,
        cam: ChunkCoord,
        threads: usize,
        batch_done: bool,
        arrivals: VecDeque<Arrival>,
        meshed: VecDeque<Meshed>,
    ) -> (r: Update)
        requires
            old(self)@.wf(),
            deterministic(*terrain),
            threads * 4 <= usize::MAX,
            arrivals_ok(arrivals@),
        ensures
            ({
                let w0 = old(self)@;
                let w1 = w0.after_begin(threads as int, batch_done);
                let (w2, tasks) = w1.after_arrivals(
                    *terrain,
                    cam,
                    arrivals@,
                    arrivals@.len() as int,
                );
                let w3 = w2.after_spawns(w2.stuck(), w2.stuck_given());
                let w4 = w2.after_waiting().after_meshes(cam, meshed@, meshed@.len() as int);
                &&& r.spawns@ == w0.spawn_queue.take(w0.after_release().spawn_count(threads as int))
                &&& task_views(r.arrived@) == tasks
                &&& w2.gives_out(*terrain, w2.stuck_given(), task_views(r.stuck@))
                &&& w3.gives_out(*terrain, w3.unblocked_given(), task_views(r.unblocked@))
                &&& r.remeshed@.no_duplicates()
                &&& r.remeshed@.to_set() == w4.remeshable()
                &&& final(self)@ == w0.after_update(
                    *terrain,
                    cam,
                    threads as int,
                    batch_done,
                    arrivals@,
                    meshed@,
                    r.remeshed@,
                )
            }),
            final(self)@.wf(),
            forall|i: int| 0 <= i < r.spawns.len() ==> in_world(#[trigger] r.spawns[i]),
            tasks_ok(r.arrived@),
            tasks_ok(r.stuck@),
            tasks_ok(r.unblocked@),
    {
        self.release_frees();
        let spawns = self.take_spawns(threads);
        if batch_done {
            self.commit_batch();
        }
        let arrived = self.take_arrivals(terrain, cam, arrivals);
        let stuck = self.flush_stuck(terrain);
        let unblocked = self.unblock(terrain);
        self.take_meshes(cam, meshed);
        let remeshed = self.run_pending_remesh(terrain);
        Update { spawns, arrived, stuck, unblocked, remeshed }
    }

    fn take_arrivals<F: Fn(i32, i32) -> HeightField>(
        &mut self,
        terrain: &F,
        cam: ChunkCoord,
        arrivals: VecDeque<Arrival>,
    ) -> (r: Vec<MeshTask>)
        requires
            old(self)@.wf(),
            deterministic(*terrain),
            arrivals_ok(arrivals@),
        ensures
            (final(self)@, task_views(r@)) == old(self)@.after_arrivals(
                *terrain,
                cam,
                arrivals@,
                arrivals@.len() as int,
            ),
            final(self)@.wf(),
            tasks_ok(r@),
    {
        let ghost w = self@;
        let ghost all = arrivals@;
        let mut rest = arrivals;
        let mut r: Vec<MeshTask> = Vec::new();
        let ghost mut k: int = 0;
        assert(task_views(r@) =~= Seq::empty());
        assert(rest@ =~= all.skip(0));
        while rest.len() > 0
            invariant
                0 <= k <= all.len(),
                rest@ == all.skip(k),
                arrivals_ok(all),
                deterministic(*terrain),
                self@.wf(),
                (self@, task_views(r@)) == w.after_arrivals(*terrain, cam, all, k),
                tasks_ok(r@),
            decreases rest@.len(),
        {
            let popped = rest.pop_front();
            if let Some(a) = popped {
                let ghost before = r@;
                assert(a == all[k]);
                let mut tasks = self.on_generated(terrain, cam, a.coord, a.faces, a.chunk);
                let ghost more = tasks@;
                r.append(&mut tasks);
                proof {
                    assert(r@ =~= before + more);
                    assert(task_views(r@) =~= task_views(before) + task_views(more));
                    assert(rest@ =~= all.skip(k + 1));
                    k = k + 1;
                }
            }
        }
        r
    }

    fn take_meshes(&mut self, cam: ChunkCoord, meshed: VecDeque<Meshed>)
        requires
            old(self)@.wf(),
        ensures
            final(self)@ == old(self)@.after_meshes(cam, meshed@, meshed@.len() as int),
            final(self)@.wf(),
    {
        let ghost w = self@;
        let ghost all = meshed@;
        let mut rest = meshed;
        let ghost mut k: int = 0;
        assert(rest@ =~= all.skip(0));
        while rest.len() > 0
            invariant
                0 <= k <= all.len(),
                rest@ == all.skip(k),
                self@.wf(),
                self@ == w.after_meshes(cam, all, k),
            decreases rest@.len(),
        {
            let popped = rest.pop_front();
            if let Some(m) = popped {
                assert(m == all[k]);
                self.on_meshed(cam, m.coord, m.lods);
                proof {
                    assert(rest@ =~= all.skip(k + 1));
                    k = k + 1;
                }
            }
        }
    }
}

} // verus!
