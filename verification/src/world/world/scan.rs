//! What changes when the camera enters another chunk.

use super::stream::{task_views, MeshTask, INTERACT_RADIUS};
use super::World;
use crate::render::mesh::ChunkSlot;
use crate::world::coords::{chebyshev, distance2, in_world, ChunkCoord};
use crate::world::grid::{
    distance, lemma_filter_from, lemma_filter_pairs, lemma_push_contains, lemma_take_contains,
    near,
};
use crate::world::sort::sort_by_key;
use crate::world::state::{allocs_fit, nearest_first, WorldView};
use crate::world::terrain::{deterministic, HeightField};
use std::collections::VecDeque;
use vstd::prelude::*;

verus! {

/// The slots that a chunk has, by level of detail.
pub open spec fn slots_in(allocs: [Option<ChunkSlot>; 3]) -> Seq<ChunkSlot> {
    opt_seq(allocs[0]) + opt_seq(allocs[1]) + opt_seq(allocs[2])
}

pub open spec fn opt_seq(s: Option<ChunkSlot>) -> Seq<ChunkSlot> {
    match s {
        Some(x) => seq![x],
        None => Seq::empty(),
    }
}

/// The slots of the first `k` chunks of a list.
pub open spec fn slots_to(
    allocs: Map<ChunkCoord, [Option<ChunkSlot>; 3]>,
    list: Seq<ChunkCoord>,
    k: int,
) -> Seq<ChunkSlot>
    decreases k,
{
    if k <= 0 {
        Seq::empty()
    } else {
        slots_to(allocs, list, k - 1) + slots_in(allocs[list[k - 1]])
    }
}

/// A list holds the chunks of a set, each once.
pub open spec fn lists(list: Seq<ChunkCoord>, set: Set<ChunkCoord>) -> bool {
    list.no_duplicates() && list.to_set() == set
}

/// The camera is where the positions of all blocks in sight fit.
pub open spec fn sight_fits(cam: ChunkCoord, render_distance: int) -> bool {
    &&& -0x400_0000 <= cam.x - render_distance
    &&& cam.x + render_distance < 0x400_0000
    &&& -0x400_0000 <= cam.z - render_distance
    &&& cam.z + render_distance < 0x400_0000
}

impl WorldView {
    /// The chunks that stay loaded.
    pub open spec fn still_loaded(self, cam: ChunkCoord) -> Set<ChunkCoord> {
        self.loaded.intersect(near(cam, self.render_distance))
    }

    /// The chunks whose slots are given up, as far as no mesh on its way replaces them. If all
    /// chunks stay loaded there are none.
    pub open spec fn unloaded(self, cam: ChunkCoord) -> Set<ChunkCoord> {
        if self.still_loaded(cam) == self.loaded {
            Set::empty()
        } else {
            self.chunk_allocs.dom().difference(self.still_loaded(cam))
        }
    }

    /// The batch on its way holds a mesh of a chunk for a level of detail.
    pub open spec fn on_its_way(self, c: ChunkCoord, lod: int) -> bool {
        self.batch matches Some(b) && b.has_mesh(c, lod)
    }

    /// The slots of a chunk that are given up when it is unloaded. Those that the batch on its way
    /// replaces are left to it: they are given up when it is done.
    pub open spec fn leaving(self, c: ChunkCoord) -> [Option<ChunkSlot>; 3] {
        let a = self.chunk_allocs[c];
        [
            if self.on_its_way(c, 0) {
                None
            } else {
                a[0]
            },
            if self.on_its_way(c, 1) {
                None
            } else {
                a[1]
            },
            if self.on_its_way(c, 2) {
                None
            } else {
                a[2]
            },
        ]
    }

    /// What the chunks give up when they are unloaded.
    pub open spec fn leaving_allocs(self) -> Map<ChunkCoord, [Option<ChunkSlot>; 3]> {
        Map::new(|c: ChunkCoord| self.chunk_allocs.contains_key(c), |c: ChunkCoord| self.leaving(c))
    }

    /// The world after chunks out of sight were unloaded, in the order of `list`.
    pub open spec fn after_unload(self, cam: ChunkCoord, list: Seq<ChunkCoord>) -> WorldView {
        let kept = self.still_loaded(cam);
        if kept == self.loaded {
            self
        } else {
            WorldView {
                loaded: kept,
                cpu_meshes: self.cpu_meshes.restrict(kept),
                upload_queue: self.upload_queue.filter(|c: ChunkCoord| kept.contains(c)),
                chunk_allocs: self.chunk_allocs.restrict(kept),
                freed_third: self.freed_third + slots_to(
                    self.leaving_allocs(),
                    list,
                    list.len() as int,
                ),
                ..self
            }
        }
    }

    /// The world after what is far away was forgotten. Chunks with edits are kept.
    pub open spec fn after_forget(self, cam: ChunkCoord) -> WorldView {
        let sight = near(cam, self.render_distance);
        let margin = near(cam, self.render_distance + 2);
        let waiting = self.pending_mesh.intersect(sight);
        WorldView {
            face_data: self.face_data.restrict(margin),
            pending_mesh: waiting,
            pending_chunks: self.pending_chunks.restrict(waiting),
            stored_chunks: self.stored_chunks.restrict(
                near(cam, INTERACT_RADIUS as int).union(self.modified),
            ),
            gen_in_flight: self.gen_in_flight.intersect(margin),
            spawn_queue: self.spawn_queue.filter(|c: ChunkCoord| margin.contains(c)),
            mesh_in_flight: self.mesh_in_flight.intersect(margin),
            ..self
        }
    }

    /// The chunks in sight that nothing is being done for.
    pub open spec fn missing(self, cam: ChunkCoord) -> Set<ChunkCoord> {
        Set::new(|c: ChunkCoord| chebyshev(c, cam) <= self.render_distance && self.untouched(c))
    }

    pub open spec fn untouched(self, c: ChunkCoord) -> bool {
        &&& !self.loaded.contains(c)
        &&& !self.gen_in_flight.contains(c)
        &&& !self.pending_mesh.contains(c)
        &&& !self.mesh_in_flight.contains(c)
    }

    /// What waits to be generated is near the camera.
    pub open spec fn queue_near(self, cam: ChunkCoord) -> bool {
        forall|i: int|
            0 <= i < self.spawn_queue.len() ==> chebyshev(#[trigger] self.spawn_queue[i], cam)
                <= self.render_distance + 2
    }

    /// A queue holds what waited to be generated and the chunks of a list, nearest first.
    pub open spec fn queue_ok(
        self,
        cam: ChunkCoord,
        list: Seq<ChunkCoord>,
        queue: Seq<ChunkCoord>,
    ) -> bool {
        &&& queue.to_multiset() == (self.spawn_queue + list).to_multiset()
        &&& nearest_first(queue, cam)
    }

    /// The world after a list of chunks was queued to be generated, in the order of `queue`.
    pub open spec fn after_queueing(
        self,
        cam: ChunkCoord,
        list: Seq<ChunkCoord>,
        queue: Seq<ChunkCoord>,
    ) -> WorldView {
        WorldView {
            last_cam: cam,
            gen_in_flight: self.gen_in_flight.union(list.to_set()),
            spawn_queue: queue,
            ..self
        }
    }

    /// The chunks that are so near that their full mesh is needed, but is not on the GPU.
    pub open spec fn undetailed(self, cam: ChunkCoord) -> Set<ChunkCoord> {
        Set::new(
            |c: ChunkCoord|
                self.chunk_allocs.contains_key(c) && chebyshev(c, cam) < self.lod1_dist
                    && self.chunk_allocs[c][0] is None && self.cpu_meshes.contains_key(c),
        )
    }

    /// The world after the camera entered another chunk. Chunks are unloaded in the order of
    /// `gone`; those of `missing` are queued to be generated, which gives `queue`; and those of
    /// `detail` are queued to be uploaded.
    pub open spec fn after_move(
        self,
        cam: ChunkCoord,
        gone: Seq<ChunkCoord>,
        missing: Seq<ChunkCoord>,
        queue: Seq<ChunkCoord>,
        detail: Seq<ChunkCoord>,
    ) -> WorldView {
        let w = self.before_queueing(cam, gone).after_queueing(cam, missing, queue);
        WorldView { upload_queue: w.upload_queue + detail, ..w }
    }

    /// The world before chunks that waited are looked at.
    pub open spec fn before_unblock(self, cam: ChunkCoord, gone: Seq<ChunkCoord>) -> WorldView {
        self.after_unload(cam, gone).after_forget(cam)
    }

    /// The world before new chunks are queued.
    pub open spec fn before_queueing(self, cam: ChunkCoord, gone: Seq<ChunkCoord>) -> WorldView {
        let w = self.before_unblock(cam, gone);
        w.after_spawns(w.unblocked(), w.unblocked().difference(w.mesh_in_flight))
    }
}

/// What was done when the camera entered another chunk.
pub struct Moved {
    /// The chunks that were unloaded and had slots.
    pub gone: Vec<ChunkCoord>,
    /// The chunks that can be meshed now.
    pub tasks: Vec<MeshTask>,
    /// The chunks that were queued to be generated.
    pub missing: Vec<ChunkCoord>,
    /// The chunks whose full mesh was queued to be uploaded.
    pub detail: Vec<ChunkCoord>,
}

/// The chunks of a list that are in a set, in the same order.
fn filter_in(list: &Vec<ChunkCoord>, set: &crate::world::grid::CoordSet) -> (r: Vec<ChunkCoord>)
    ensures
        r@ == list@.filter(|c: ChunkCoord| set@.contains(c)),
{
    let ghost keep = |c: ChunkCoord| set@.contains(c);
    let mut r: Vec<ChunkCoord> = Vec::new();
    let mut i: usize = 0;
    proof {
        reveal(Seq::filter);
    }
    assert(r@ =~= list@.take(0).filter(keep));
    while i < list.len()
        invariant
            i <= list.len(),
            keep == (|c: ChunkCoord| set@.contains(c)),
            r@ == list@.take(i as int).filter(keep),
        decreases list.len() - i,
    {
        proof {
            reveal(Seq::filter);
            assert(list@.take(i + 1).drop_last() =~= list@.take(i as int));
        }
        if set.contains(list[i]) {
            r.push(list[i]);
        }
        i = i + 1;
    }
    assert(list@.take(i as int) =~= list@);
    r
}

/// The chunks of a queue within `r` of the camera, in the same order.
fn filter_near(queue: &VecDeque<ChunkCoord>, cam: ChunkCoord, r: i64) -> (out: VecDeque<ChunkCoord>)
    ensures
        out@ == queue@.filter(|c: ChunkCoord| near(cam, r as int).contains(c)),
{
    let ghost keep = |c: ChunkCoord| near(cam, r as int).contains(c);
    let mut out: VecDeque<ChunkCoord> = VecDeque::new();
    let mut i: usize = 0;
    proof {
        reveal(Seq::filter);
    }
    assert(out@ =~= queue@.take(0).filter(keep));
    while i < queue.len()
        invariant
            i <= queue.len(),
            keep == (|c: ChunkCoord| near(cam, r as int).contains(c)),
            out@ == queue@.take(i as int).filter(keep),
        decreases queue.len() - i,
    {
        proof {
            reveal(Seq::filter);
            assert(queue@.take(i + 1).drop_last() =~= queue@.take(i as int));
        }
        let c = queue[i];
        if distance(c, cam) <= r {
            out.push_back(c);
        }
        i = i + 1;
    }
    assert(queue@.take(i as int) =~= queue@);
    out
}

pub proof fn lemma_filter_subset<T>(s: Seq<T>, f: spec_fn(T) -> bool, p: spec_fn(T) -> bool)
    requires
        forall|i: int| 0 <= i < s.len() ==> p(#[trigger] s[i]),
    ensures
        forall|i: int| 0 <= i < s.filter(f).len() ==> p(#[trigger] s.filter(f)[i]),
    decreases s.len(),
{
    reveal(Seq::filter);
    if s.len() > 0 {
        let t = s.drop_last();
        lemma_filter_subset(t, f, p);
        assert(p(s[s.len() - 1]));
        assert forall|i: int| 0 <= i < s.filter(f).len() implies p(#[trigger] s.filter(f)[i]) by {
            if i < t.filter(f).len() {
                assert(s.filter(f)[i] == t.filter(f)[i]);
            } else {
                assert(s.filter(f)[i] == s.last());
            }
        }
    }
}

/// What is picked from a list that is in order is in order.
proof fn lemma_filter_nearest(
    list: Seq<ChunkCoord>,
    keep: spec_fn(ChunkCoord) -> bool,
    cam: ChunkCoord,
)
    requires
        nearest_first(list, cam),
    ensures
        nearest_first(list.filter(keep), cam),
{
    let rel = |a: ChunkCoord, b: ChunkCoord| distance2(a, cam) <= distance2(b, cam);
    assert forall|i: int, j: int| 0 <= i < j < list.len() implies #[trigger] rel(
        list[i],
        list[j],
    ) by {}
    lemma_filter_pairs(list, keep, rel);
    let r = list.filter(keep);
    assert forall|i: int, j: int| 0 <= i <= j < r.len() implies distance2(#[trigger] r[i], cam)
        <= distance2(#[trigger] r[j], cam) by {
        if i < j {
            assert(rel(r[i], r[j]));
        }
    }
}

impl World {
    /// Whether the batch on its way holds a mesh of a chunk for a level of detail.
    fn is_on_its_way(&self, c: ChunkCoord, lod: usize) -> (r: bool)
        ensures
            r == self@.on_its_way(c, lod as int),
    {
        if let Some(b) = &self.pending_batch {
            let ghost bv = b@;
            assert(self@.batch == Some(bv));
            let mut i: usize = 0;
            while i < b.slots.len()
                invariant
                    i <= b.slots.len(),
                    bv == b@,
                    self@.batch == Some(bv),
                    forall|j: int|
                        0 <= j < i ==> (#[trigger] bv.slots[j]).0 != c || bv.slots[j].1 != lod,
                decreases b.slots.len() - i,
            {
                let (d, level, slot) = b.slots[i];
                if d.x == c.x && d.z == c.z && level == lod {
                    proof {
                        let found = self@.batch->0.slots[i as int];
                        assert(found == (c, level, slot));
                        assert(found.0 == c && found.1 == lod as int);
                    }
                    return true;
                }
                i = i + 1;
            }
        }
        false
    }

    /// Gives up the slots of a chunk, but for those that the batch on its way replaces: they are
    /// given up with it.
    fn drop_slots(&mut self, c: ChunkCoord)
        requires
            old(self)@.wf(),
            old(self)@.chunk_allocs.contains_key(c),
        ensures
            final(self)@ == (WorldView {
                chunk_allocs: old(self)@.chunk_allocs.remove(c),
                freed_third: old(self)@.freed_third + slots_in(old(self)@.leaving(c)),
                ..old(self)@
            }),
            final(self)@.wf(),
    {
        let ghost before = self@;
        let ghost a = before.arenas->0;
        assert(allocs_fit(a, before.chunk_allocs[c]));
        let removed = self.chunk_allocs.remove(c);
        let ghost mid = WorldView { chunk_allocs: before.chunk_allocs.remove(c), ..before };
        proof {
            assert(self@ =~= mid);
            assert forall|d: ChunkCoord| mid.chunk_allocs.contains_key(d) implies allocs_fit(
                a,
                #[trigger] mid.chunk_allocs[d],
            ) by {
                assert(allocs_fit(a, before.chunk_allocs[d]));
            }
            assert(mid.wf());
        }
        if let Some(allocs) = removed {
            let mut going: [Option<ChunkSlot>; 3] = [None, None, None];
            let mut lod: usize = 0;
            while lod < 3
                invariant
                    lod <= 3,
                    self@ == mid,
                    mid.batch == before.batch,
                    forall|j: int|
                        0 <= j < lod ==> #[trigger] going[j] == (if before.on_its_way(c, j) {
                            None
                        } else {
                            allocs[j]
                        }),
                    forall|j: int| lod <= j < 3 ==> #[trigger] going[j] is None,
                decreases 3 - lod,
            {
                assert(mid.on_its_way(c, lod as int) == before.on_its_way(c, lod as int));
                if !self.is_on_its_way(c, lod) {
                    going[lod] = allocs[lod];
                }
                lod = lod + 1;
            }
            assert(going =~= before.leaving(c));
            let ghost slots = slots_in(going);
            if let Some(s) = going[0] {
                self.defer_free(s);
            }
            if let Some(s) = going[1] {
                self.defer_free(s);
            }
            if let Some(s) = going[2] {
                self.defer_free(s);
            }
            assert(self@.freed_third =~= before.freed_third + slots);
            assert(self@ =~= (WorldView {
                freed_third: before.freed_third + slots_in(before.leaving(c)),
                ..mid
            }));
        }
    }

    /// Unloads the chunks out of sight and gives up their slots.
    fn unload_far(&mut self, cam: ChunkCoord) -> (r: Vec<ChunkCoord>)
        requires
            old(self)@.wf(),
        ensures
            lists(r@, old(self)@.unloaded(cam)),
            final(self)@ == old(self)@.after_unload(cam, r@),
            final(self)@.wf(),
    {
        let ghost w = self@;
        let ghost kept = w.still_loaded(cam);
        let mut gone: Vec<ChunkCoord> = Vec::new();
        let before: usize = self.loaded.len();
        self.loaded.keep_near(cam, self.render_distance as i64);
        assert(self.loaded@ =~= kept);
        let after: usize = self.loaded.len();
        if after == before {
            proof {
                vstd::set_lib::lemma_subset_equality(kept, w.loaded);
                assert(self@ =~= w);
                assert(gone@.to_set() =~= Set::empty());
            }
            return gone;
        }
        assert(kept != w.loaded);
        self.cpu_meshes.keep_in(&self.loaded);
        let mut queue = filter_in(&self.upload_queue, &self.loaded);
        std::mem::swap(&mut queue, &mut self.upload_queue);
        let ghost base = WorldView {
            loaded: kept,
            cpu_meshes: w.cpu_meshes.restrict(kept),
            upload_queue: w.upload_queue.filter(|c: ChunkCoord| kept.contains(c)),
            ..w
        };
        proof {
            assert(self@ =~= base);
            assert(base.slots_fit());
            let keep = |c: ChunkCoord| kept.contains(c);
            assert forall|i: int| 0 <= i < base.upload_queue.len() implies base.cpu_meshes.contains_key(
                #[trigger] base.upload_queue[i],
            ) by {
                lemma_filter_from(w.upload_queue, keep, i);
            }
            assert(base.wf());
        }
        let all = self.chunk_allocs.keys();
        let mut i: usize = 0;
        while i < all.len()
            invariant
                i <= all.len(),
                self@ == base,
                kept == base.loaded,
                all@.no_duplicates(),
                gone@.no_duplicates(),
                forall|c: ChunkCoord|
                    #[trigger] gone@.contains(c) <==> all@.take(i as int).contains(c)
                        && !kept.contains(c),
            decreases all.len() - i,
        {
            let c = all[i];
            let ghost old_gone = gone@;
            proof {
                lemma_take_contains(all@, i as int);
                assert(!all@.take(i as int).contains(c)) by {
                    if all@.take(i as int).contains(c) {
                        let j = choose|j: int| 0 <= j < i && all@.take(i as int)[j] == c;
                        assert(all@[j] == all@[i as int]);
                    }
                }
                assert(!old_gone.contains(c));
            }
            if !self.loaded.contains(c) {
                gone.push(c);
                proof {
                    assert forall|d: ChunkCoord|
                        #[trigger] gone@.contains(d) <==> all@.take(i + 1).contains(d)
                            && !kept.contains(d) by {
                        lemma_push_contains(old_gone, c, d);
                    }
                }
            }
            i = i + 1;
        }
        proof {
            assert(all@.take(i as int) =~= all@);
            assert(gone@.to_set() =~= w.unloaded(cam)) by {
                assert forall|c: ChunkCoord|
                    #[trigger] gone@.to_set().contains(c) <==> w.unloaded(cam).contains(c) by {
                    assert(gone@.to_set().contains(c) <==> gone@.contains(c));
                    assert(all@.to_set().contains(c) <==> all@.contains(c));
                }
            }
        }
        let mut k: usize = 0;
        assert(base.chunk_allocs.remove_keys(gone@.take(0).to_set()) =~= base.chunk_allocs);
        assert(self@ =~= (WorldView {
            chunk_allocs: base.chunk_allocs.remove_keys(gone@.take(0).to_set()),
            freed_third: base.freed_third + slots_to(base.leaving_allocs(), gone@, 0),
            ..base
        }));
        while k < gone.len()
            invariant
                k <= gone.len(),
                gone@.no_duplicates(),
                forall|c: ChunkCoord| #[trigger] gone@.contains(c) ==> base.chunk_allocs.contains_key(c),
                self@ == (WorldView {
                    chunk_allocs: base.chunk_allocs.remove_keys(gone@.take(k as int).to_set()),
                    freed_third: base.freed_third + slots_to(
                        base.leaving_allocs(),
                        gone@,
                        k as int,
                    ),
                    ..base
                }),
                self@.wf(),
            decreases gone.len() - k,
        {
            let c = gone[k];
            let ghost before = self@;
            proof {
                assert(gone@.contains(c));
                lemma_take_contains(gone@, k as int);
                assert(!gone@.take(k as int).contains(c)) by {
                    if gone@.take(k as int).contains(c) {
                        let j = choose|j: int| 0 <= j < k && gone@.take(k as int)[j] == c;
                        assert(gone@[j] == gone@[k as int]);
                    }
                }
                assert(!gone@.take(k as int).to_set().contains(c));
                assert(before.chunk_allocs.contains_key(c));
                assert(before.chunk_allocs[c] == base.chunk_allocs[c]);
                assert(before.batch == base.batch);
                assert(before.leaving(c) =~= base.leaving(c));
            }
            self.drop_slots(c);
            proof {
                let next = WorldView {
                    chunk_allocs: base.chunk_allocs.remove_keys(gone@.take(k + 1).to_set()),
                    freed_third: base.freed_third + slots_to(base.leaving_allocs(), gone@, k + 1),
                    ..base
                };
                assert(gone@.take(k + 1).to_set() =~= gone@.take(k as int).to_set().insert(c)) by {
                    assert forall|d: ChunkCoord|
                        #[trigger] gone@.take(k + 1).to_set().contains(d) <==> gone@.take(
                            k as int,
                        ).to_set().insert(c).contains(d) by {
                        assert(gone@.take(k + 1).to_set().contains(d) <==> gone@.take(
                            k + 1,
                        ).contains(d));
                        assert(gone@.take(k as int).to_set().contains(d) <==> gone@.take(
                            k as int,
                        ).contains(d));
                    }
                }
                assert(self@.chunk_allocs =~= next.chunk_allocs);
                assert(self@.freed_third =~= next.freed_third);
                assert(self@ =~= next);
            }
            k = k + 1;
        }
        proof {
            assert(gone@.take(k as int) =~= gone@);
            assert(self@.chunk_allocs =~= w.chunk_allocs.restrict(kept)) by {
                assert forall|c: ChunkCoord| w.chunk_allocs.contains_key(c) implies (
                gone@.to_set().contains(c) <==> !kept.contains(c)) by {
                    assert(w.unloaded(cam).contains(c) <==> !kept.contains(c));
                }
            }
            assert(base.leaving_allocs() =~= w.leaving_allocs());
            assert(self@ =~= w.after_unload(cam, gone@));
        }
        gone
    }

    /// Forgets what is far away, but for chunks with edits.
    fn forget_far(&mut self, cam: ChunkCoord)
        requires
            old(self)@.wf(),
        ensures
            final(self)@ == old(self)@.after_forget(cam),
            final(self)@.wf(),
    {
        let ghost w = self@;
        let rd: i64 = self.render_distance as i64;
        self.face_data.keep_near(cam, rd + 2);
        self.pending_mesh.keep_near(cam, rd);
        self.pending_chunks.keep_in(&self.pending_mesh);
        self.stored_chunks.keep_near_or_in(cam, INTERACT_RADIUS, &self.modified_set);
        self.gen_in_flight.keep_near(cam, rd + 2);
        let mut queue = filter_near(&self.spawn_queue, cam, rd + 2);
        std::mem::swap(&mut queue, &mut self.spawn_queue);
        self.mesh_in_flight.keep_near(cam, rd + 2);
        proof {
            let after = w.after_forget(cam);
            assert(self@ =~= after);
            let margin = near(cam, w.render_distance + 2);
            lemma_filter_subset(
                w.spawn_queue,
                |c: ChunkCoord| margin.contains(c),
                |c: ChunkCoord| in_world(c),
            );
            assert forall|i: int| 0 <= i < after.spawn_queue.len() implies in_world(
                #[trigger] after.spawn_queue[i],
            ) by {
                let p = |c: ChunkCoord| in_world(c);
                assert(p(after.spawn_queue[i]));
            }
            assert(after.coords_fit());
            lemma_filter_nearest(
                w.spawn_queue,
                |c: ChunkCoord| margin.contains(c),
                w.last_cam,
            );
            assert forall|c: ChunkCoord| after.stored_chunks.contains_key(c) implies (
            #[trigger] after.stored_chunks[c]).wf() by {
                assert(w.stored_chunks[c].wf());
            }
            assert forall|c: ChunkCoord| after.pending_chunks.contains_key(c) implies (
            #[trigger] after.pending_chunks[c]).wf() by {
                assert(w.pending_chunks[c].wf());
            }
            assert(after.slots_fit());
            assert(after.wf());
        }
    }

    /// Whether nothing is being done for a chunk.
    fn is_untouched(&self, c: ChunkCoord) -> (r: bool)
        ensures
            r == self@.untouched(c),
    {
        !self.loaded.contains(c) && !self.gen_in_flight.contains(c) && !self.pending_mesh.contains(
            c,
        ) && !self.mesh_in_flight.contains(c)
    }

    /// The chunks in sight that nothing is being done for, with their squared distances.
    fn find_missing(&self, cam: ChunkCoord) -> (r: Vec<(i64, ChunkCoord)>)
        requires
            self@.wf(),
            sight_fits(cam, self@.render_distance),
        ensures
            forall|i: int, j: int|
                0 <= i < j < r.len() ==> (#[trigger] r[i]).1 != (#[trigger] r[j]).1,
            forall|i: int|
                0 <= i < r.len() ==> self@.missing(cam).contains((#[trigger] r[i]).1) && r[i].0
                    == distance2(r[i].1, cam),
            forall|c: ChunkCoord|
                #[trigger] self@.missing(cam).contains(c) ==> exists|i: int|
                    0 <= i < r.len() && (#[trigger] r[i]).1 == c,
    {
        let rd: i32 = self.render_distance;
        let mut r: Vec<(i64, ChunkCoord)> = Vec::new();
        let mut cx: i32 = cam.x - rd;
        while cx <= cam.x + rd
            invariant
                self@.wf(),
                rd == self@.render_distance,
                sight_fits(cam, rd as int),
                cam.x - rd <= cx <= cam.x + rd + 1,
                found(self@, cam, r@, cx as int, cam.z - rd),
            decreases cam.x + rd + 1 - cx,
        {
            let mut cz: i32 = cam.z - rd;
            while cz <= cam.z + rd
                invariant
                    self@.wf(),
                    rd == self@.render_distance,
                    sight_fits(cam, rd as int),
                    cam.x - rd <= cx <= cam.x + rd,
                    cam.z - rd <= cz <= cam.z + rd + 1,
                    found(self@, cam, r@, cx as int, cz as int),
                decreases cam.z + rd + 1 - cz,
            {
                let c = ChunkCoord { x: cx, z: cz };
                let ghost before = r@;
                if self.is_untouched(c) {
                    let dx: i64 = cx as i64 - cam.x as i64;
                    let dz: i64 = cz as i64 - cam.z as i64;
                    assert(0 <= dx * dx <= 0x4000_0000 && 0 <= dz * dz <= 0x4000_0000)
                        by (nonlinear_arith)
                        requires
                            -32767 <= dx <= 32767,
                            -32767 <= dz <= 32767,
                    ;
                    r.push((dx * dx + dz * dz, c));
                    assert(r@[before.len() as int].1 == c);
                }
                proof {
                    lemma_found_step(self@, cam, before, r@, cx as int, cz as int);
                }
                cz = cz + 1;
            }
            proof {
                lemma_found_row(self@, cam, r@, cx as int);
            }
            cx = cx + 1;
        }
        proof {
            assert forall|c: ChunkCoord| #[trigger] self@.missing(cam).contains(c) implies exists|
                i: int,
            |
                0 <= i < r.len() && (#[trigger] r[i]).1 == c by {
                assert(passed(self@, cam, c, cx as int, cam.z - rd));
                assert(listed(r@, c));
            }
        }
        r
    }

    /// The chunks that wait to be generated, with their squared distances.
    fn keyed_queue(&self, cam: ChunkCoord) -> (r: Vec<(i64, ChunkCoord)>)
        requires
            self@.wf(),
            self@.queue_near(cam),
        ensures
            coords_of(r@) == self@.spawn_queue,
            keyed(r@, cam),
    {
        let mut r: Vec<(i64, ChunkCoord)> = Vec::new();
        let mut i: usize = 0;
        while i < self.spawn_queue.len()
            invariant
                self@.wf(),
                self@.queue_near(cam),
                i <= self.spawn_queue.len(),
                coords_of(r@) == self@.spawn_queue.take(i as int),
                keyed(r@, cam),
            decreases self.spawn_queue.len() - i,
        {
            let c = self.spawn_queue[i];
            let ghost before = r@;
            assert(self@.spawn_queue[i as int] == c);
            let dx: i64 = c.x as i64 - cam.x as i64;
            let dz: i64 = c.z as i64 - cam.z as i64;
            assert(0 <= dx * dx <= 0x5000_0000 && 0 <= dz * dz <= 0x5000_0000)
                by (nonlinear_arith)
                requires
                    -32769 <= dx <= 32769,
                    -32769 <= dz <= 32769,
            ;
            r.push((dx * dx + dz * dz, c));
            proof {
                assert(coords_of(r@) =~= coords_of(before).push(c));
                assert(self@.spawn_queue.take(i + 1) =~= self@.spawn_queue.take(i as int).push(c));
            }
            i = i + 1;
        }
        assert(self@.spawn_queue.take(i as int) =~= self@.spawn_queue);
        r
    }

    /// Queues the chunks in sight that nothing is being done for, and puts the queue into the
    /// order of the distance to where the camera is now. New chunks count as being generated from
    /// now on, so that their neighbours wait for them.
    fn queue_missing(&mut self, cam: ChunkCoord) -> (r: Vec<ChunkCoord>)
        requires
            old(self)@.wf(),
            old(self)@.queue_near(cam),
            sight_fits(cam, old(self)@.render_distance),
        ensures
            lists(r@, old(self)@.missing(cam)),
            old(self)@.queue_ok(cam, r@, final(self)@.spawn_queue),
            final(self)@ == old(self)@.after_queueing(cam, r@, final(self)@.spawn_queue),
            final(self)@.wf(),
    {
        let ghost w = self@;
        let list = self.find_missing(cam);
        let mut all = self.keyed_queue(cam);
        let ghost waiting = all@;
        let mut r: Vec<ChunkCoord> = Vec::new();
        let mut i: usize = 0;
        assert(w.gen_in_flight.union(Seq::<ChunkCoord>::empty().to_set()) =~= w.gen_in_flight);
        assert(self@ =~= (WorldView { gen_in_flight: w.gen_in_flight.union(r@.to_set()), ..w }));
        assert(coords_of(all@) =~= w.spawn_queue + r@);
        while i < list.len()
            invariant
                i <= list.len(),
                r@ == coords_of(list@.take(i as int)),
                keyed(list@, cam),
                keyed(all@, cam),
                coords_of(all@) == w.spawn_queue + r@,
                self@ == (WorldView { gen_in_flight: w.gen_in_flight.union(r@.to_set()), ..w }),
            decreases list.len() - i,
        {
            let (d, c) = list[i];
            let ghost before = r@;
            let ghost was = all@;
            assert(list@[i as int].1 == c);
            self.gen_in_flight.insert(c);
            all.push((d, c));
            r.push(c);
            proof {
                assert(list@.take(i + 1) =~= list@.take(i as int).push(list@[i as int]));
                assert(r@ =~= coords_of(list@.take(i + 1)));
                assert(coords_of(all@) =~= coords_of(was).push(c));
                assert(coords_of(all@) =~= w.spawn_queue + r@);
                assert(r@.to_set() =~= before.to_set().insert(c)) by {
                    assert forall|e: ChunkCoord|
                        #[trigger] r@.to_set().contains(e) <==> before.to_set().insert(c).contains(
                            e,
                        ) by {
                        lemma_push_contains(before, c, e);
                        assert(r@.to_set().contains(e) <==> r@.contains(e));
                        assert(before.to_set().contains(e) <==> before.contains(e));
                    }
                }
                assert(w.gen_in_flight.union(r@.to_set()) =~= w.gen_in_flight.union(
                    before.to_set(),
                ).insert(c));
                assert(self@ =~= (WorldView {
                    gen_in_flight: w.gen_in_flight.union(r@.to_set()),
                    ..w
                }));
            }
            i = i + 1;
        }
        assert(list@.take(i as int) =~= list@);
        let ordered = sort_by_key(&all);
        let mut queue: VecDeque<ChunkCoord> = VecDeque::new();
        let mut k: usize = 0;
        assert(queue@ =~= coords_of(ordered@.take(0)));
        while k < ordered.len()
            invariant
                k <= ordered.len(),
                queue@ == coords_of(ordered@.take(k as int)),
            decreases ordered.len() - k,
        {
            queue.push_back(ordered[k].1);
            assert(ordered@.take(k + 1) =~= ordered@.take(k as int).push(ordered@[k as int]));
            assert(queue@ =~= coords_of(ordered@.take(k + 1)));
            k = k + 1;
        }
        assert(ordered@.take(k as int) =~= ordered@);
        let ghost line = queue@;
        std::mem::swap(&mut queue, &mut self.spawn_queue);
        self.last_cam_chunk = cam;
        proof {
            lemma_coords_multiset(all@, ordered@);
            lemma_keyed_same(all@, ordered@, cam);
            assert(nearest_first(line, cam)) by {
                assert forall|i: int, j: int| 0 <= i <= j < line.len() implies distance2(
                    #[trigger] line[i],
                    cam,
                ) <= distance2(#[trigger] line[j], cam) by {
                    assert(ordered@[i].0 <= ordered@[j].0);
                    assert(ordered@[i].0 == distance2(ordered@[i].1, cam));
                    assert(ordered@[j].0 == distance2(ordered@[j].1, cam));
                }
            }
            let after = w.after_queueing(cam, r@, line);
            assert(self@ =~= after);
            lemma_missing_listed(w, cam, list@, r@);
            assert forall|k: int| 0 <= k < line.len() implies in_world(#[trigger] line[k]) by {
                lemma_same_multiset(line, w.spawn_queue + r@, k);
                let m = choose|m: int|
                    0 <= m < (w.spawn_queue + r@).len() && #[trigger] (w.spawn_queue + r@)[m]
                        == line[k];
                if m < w.spawn_queue.len() {
                    assert(in_world(w.spawn_queue[m]));
                } else {
                    let c = r@[m - w.spawn_queue.len()];
                    assert(r@.to_set().contains(c));
                    assert(w.missing(cam).contains(c));
                }
            }
            assert(after.coords_fit());
            assert(after.slots_fit());
            assert(after.wf());
        }
        r
    }

    /// Queues the chunks that are so near that their full mesh is needed, but is not on the GPU.
    fn queue_detail(&mut self, cam: ChunkCoord) -> (r: Vec<ChunkCoord>)
        requires
            old(self)@.wf(),
        ensures
            lists(r@, old(self)@.undetailed(cam)),
            final(self)@ == (WorldView {
                upload_queue: old(self)@.upload_queue + r@,
                ..old(self)@
            }),
            final(self)@.wf(),
    {
        let ghost w = self@;
        let all = self.chunk_allocs.keys();
        let mut r: Vec<ChunkCoord> = Vec::new();
        let mut i: usize = 0;
        proof {
            assert forall|c: ChunkCoord| #[trigger] all@.contains(c) <==> w.chunk_allocs.contains_key(
                c,
            ) by {
                assert(all@.to_set().contains(c) <==> all@.contains(c));
            }
        }
        assert(self@ =~= (WorldView { upload_queue: w.upload_queue + r@, ..w }));
        while i < all.len()
            invariant
                i <= all.len(),
                w.wf(),
                all@.no_duplicates(),
                r@.no_duplicates(),
                forall|c: ChunkCoord|
                    #[trigger] all@.contains(c) <==> w.chunk_allocs.contains_key(c),
                forall|c: ChunkCoord|
                    #[trigger] r@.contains(c) <==> all@.take(i as int).contains(c)
                        && w.undetailed(cam).contains(c),
                self@ == (WorldView { upload_queue: w.upload_queue + r@, ..w }),
            decreases all.len() - i,
        {
            let c = all[i];
            let ghost before = r@;
            proof {
                lemma_take_contains(all@, i as int);
                assert(all@.contains(c));
                assert(!all@.take(i as int).contains(c)) by {
                    if all@.take(i as int).contains(c) {
                        let j = choose|j: int| 0 <= j < i && all@.take(i as int)[j] == c;
                        assert(all@[j] == all@[i as int]);
                    }
                }
                assert(!before.contains(c));
            }
            let missing = match self.chunk_allocs.get(c) {
                Some(allocs) => allocs[0].is_none(),
                None => false,
            };
            if missing && distance(c, cam) < self.lod1_dist as i64 && self.cpu_meshes.contains_key(
                c,
            ) {
                assert(w.undetailed(cam).contains(c));
                self.upload_queue.push(c);
                r.push(c);
                proof {
                    assert forall|d: ChunkCoord|
                        #[trigger] r@.contains(d) <==> all@.take(i + 1).contains(d)
                            && w.undetailed(cam).contains(d) by {
                        lemma_push_contains(before, c, d);
                    }
                    assert(self@ =~= (WorldView { upload_queue: w.upload_queue + r@, ..w }));
                }
            } else {
                assert(!w.undetailed(cam).contains(c));
            }
            i = i + 1;
        }
        proof {
            assert(all@.take(i as int) =~= all@);
            assert(r@.to_set() =~= w.undetailed(cam)) by {
                assert forall|c: ChunkCoord|
                    #[trigger] r@.to_set().contains(c) <==> w.undetailed(cam).contains(c) by {
                    assert(r@.to_set().contains(c) <==> r@.contains(c));
                }
            }
            let queue = w.upload_queue + r@;
            assert forall|i: int| 0 <= i < queue.len() implies w.cpu_meshes.contains_key(
                #[trigger] queue[i],
            ) by {
                if i < w.upload_queue.len() {
                    assert(queue[i] == w.upload_queue[i]);
                } else {
                    assert(r@.to_set().contains(r@[i - w.upload_queue.len()]));
                }
            }
        }
        r
    }

    /// What is done when the camera has entered another chunk: what is out of sight is unloaded,
    /// what is far away is forgotten, and what is missing is queued.
    pub fn camera_moved<F: Fn(i32, i32) -> HeightField>(&mut self, terrain: &F, cam: ChunkCoord) -> (r:
        Option<Moved>)
        requires
            old(self)@.wf(),
            deterministic(*terrain),
            sight_fits(cam, old(self)@.render_distance),
        ensures
            r is Some <==> cam != old(self)@.last_cam,
            r is None ==> final(self)@ == old(self)@,
            r matches Some(m) ==> {
                let w = old(self)@;
                let before = w.before_unblock(cam, m.gone@);
                let mid = w.before_queueing(cam, m.gone@);
                let queue = final(self)@.spawn_queue;
                &&& lists(m.gone@, w.unloaded(cam))
                &&& before.gives_out(
                    *terrain,
                    before.unblocked().difference(before.mesh_in_flight),
                    task_views(m.tasks@),
                )
                &&& lists(m.missing@, mid.missing(cam))
                &&& mid.queue_ok(cam, m.missing@, queue)
                &&& lists(m.detail@, mid.after_queueing(cam, m.missing@, queue).undetailed(cam))
                &&& final(self)@ == w.after_move(cam, m.gone@, m.missing@, queue, m.detail@)
                &&& nearest_first(queue, cam)
                &&& forall|i: int| 0 <= i < m.tasks.len() ==> (#[trigger] m.tasks[i]).chunk@.wf()
            },
            final(self)@.wf(),
    {
        if cam == self.last_cam_chunk {
            return None;
        }
        let ghost w0 = self@;
        let gone = self.unload_far(cam);
        self.forget_far(cam);
        proof {
            let margin = near(cam, w0.render_distance + 2);
            let keep = |c: ChunkCoord| margin.contains(c);
            let unloaded = w0.after_unload(cam, gone@);
            assert forall|i: int| 0 <= i < self@.spawn_queue.len() implies chebyshev(
                #[trigger] self@.spawn_queue[i],
                cam,
            ) <= self@.render_distance + 2 by {
                lemma_filter_from(unloaded.spawn_queue, keep, i);
            }
        }
        let tasks = self.unblock(terrain);
        let missing = self.queue_missing(cam);
        let detail = self.queue_detail(cam);
        assert(self@ =~= w0.after_move(cam, gone@, missing@, self@.spawn_queue, detail@));
        Some(Moved { gone, tasks, missing, detail })
    }
}

/// The chunks of a list of chunks with their distances.
spec fn coords_of(list: Seq<(i64, ChunkCoord)>) -> Seq<ChunkCoord> {
    list.map_values(|x: (i64, ChunkCoord)| x.1)
}

/// Chunks have their squared distances to the camera with them.
spec fn keyed(list: Seq<(i64, ChunkCoord)>, cam: ChunkCoord) -> bool {
    forall|i: int| 0 <= i < list.len() ==> (#[trigger] list[i]).0 == distance2(list[i].1, cam)
}

/// Lists with the same elements have the same chunks.
proof fn lemma_coords_multiset(a: Seq<(i64, ChunkCoord)>, b: Seq<(i64, ChunkCoord)>)
    requires
        a.to_multiset() == b.to_multiset(),
    ensures
        coords_of(a).to_multiset() == coords_of(b).to_multiset(),
    decreases a.len(),
{
    broadcast use vstd::seq_lib::group_to_multiset_ensures;

    assert(a.len() == a.to_multiset().len());
    assert(b.len() == b.to_multiset().len());
    if a.len() == 0 {
        assert(coords_of(a) =~= coords_of(b));
    } else {
        let x = a.last();
        let n = a.len() - 1;
        assert(a[n] == x);
        assert(a.contains(x));
        assert(b.to_multiset().count(x) > 0);
        assert(b.contains(x));
        let k = choose|k: int| 0 <= k < b.len() && b[k] == x;
        let c = a.remove(n);
        let d = b.remove(k);
        assert(c.to_multiset() == a.to_multiset().remove(x));
        assert(d.to_multiset() == b.to_multiset().remove(x));
        lemma_coords_multiset(c, d);
        assert(coords_of(c) =~= coords_of(a).remove(n));
        assert(coords_of(d) =~= coords_of(b).remove(k));
        let ma = coords_of(a).to_multiset();
        let mb = coords_of(b).to_multiset();
        assert(coords_of(a)[n] == x.1);
        assert(coords_of(b)[k] == x.1);
        assert(ma.remove(x.1) == mb.remove(x.1));
        assert(coords_of(a).contains(x.1));
        assert(coords_of(b).contains(x.1));
        assert(ma.count(x.1) > 0);
        assert(mb.count(x.1) > 0);
        assert(ma =~= ma.remove(x.1).insert(x.1));
        assert(mb =~= mb.remove(x.1).insert(x.1));
    }
}

proof fn lemma_keyed_same(a: Seq<(i64, ChunkCoord)>, b: Seq<(i64, ChunkCoord)>, cam: ChunkCoord)
    requires
        a.to_multiset() == b.to_multiset(),
        keyed(a, cam),
    ensures
        keyed(b, cam),
{
    broadcast use vstd::seq_lib::group_to_multiset_ensures;

    assert forall|i: int| 0 <= i < b.len() implies (#[trigger] b[i]).0 == distance2(
        b[i].1,
        cam,
    ) by {
        assert(b.contains(b[i]));
        assert(b.to_multiset().count(b[i]) > 0);
        assert(a.contains(b[i]));
        let k = choose|k: int| 0 <= k < a.len() && a[k] == b[i];
        assert(a[k].0 == distance2(a[k].1, cam));
    }
}

/// What is in one of two lists with the same elements is in the other.
proof fn lemma_same_multiset(a: Seq<ChunkCoord>, b: Seq<ChunkCoord>, i: int)
    requires
        a.to_multiset() == b.to_multiset(),
        0 <= i < a.len(),
    ensures
        exists|k: int| 0 <= k < b.len() && #[trigger] b[k] == a[i],
{
    broadcast use vstd::seq_lib::group_to_multiset_ensures;

    assert(a.contains(a[i]));
    assert(a.to_multiset().count(a[i]) > 0);
    assert(b.contains(a[i]));
}

proof fn lemma_missing_listed(
    w: WorldView,
    cam: ChunkCoord,
    list: Seq<(i64, ChunkCoord)>,
    r: Seq<ChunkCoord>,
)
    requires
        r == coords_of(list),
        forall|i: int, j: int|
            0 <= i < j < list.len() ==> (#[trigger] list[i]).1 != (#[trigger] list[j]).1,
        forall|i: int| 0 <= i < list.len() ==> w.missing(cam).contains((#[trigger] list[i]).1),
        forall|c: ChunkCoord|
            #[trigger] w.missing(cam).contains(c) ==> exists|i: int|
                0 <= i < list.len() && (#[trigger] list[i]).1 == c,
    ensures
        lists(r, w.missing(cam)),
{
    assert forall|a: int, b: int| 0 <= a < r.len() && 0 <= b < r.len() && a != b implies r[a]
        != r[b] by {
        if a < b {
            assert(list[a].1 != list[b].1);
        } else {
            assert(list[b].1 != list[a].1);
        }
    }
    assert(r.to_set() =~= w.missing(cam)) by {
        assert forall|c: ChunkCoord| #[trigger] r.to_set().contains(c) <==> w.missing(cam).contains(
            c,
        ) by {
            assert(r.to_set().contains(c) <==> r.contains(c));
            if r.contains(c) {
                let k = choose|k: int| 0 <= k < r.len() && r[k] == c;
                assert(w.missing(cam).contains(list[k].1));
            }
            if w.missing(cam).contains(c) {
                let k = choose|k: int| 0 <= k < list.len() && (#[trigger] list[k]).1 == c;
                assert(r[k] == c);
            }
        }
    }
}

/// A chunk is in a list of chunks with their distances.
spec fn listed(list: Seq<(i64, ChunkCoord)>, c: ChunkCoord) -> bool {
    exists|i: int| 0 <= i < list.len() && (#[trigger] list[i]).1 == c
}

/// A chunk comes before the place (x, z) of the search.
spec fn passed(w: WorldView, cam: ChunkCoord, c: ChunkCoord, x: int, z: int) -> bool {
    w.missing(cam).contains(c) && (c.x < x || (c.x == x && c.z < z))
}

/// The list holds the missing chunks before the place (x, z) of the search.
spec fn found(w: WorldView, cam: ChunkCoord, list: Seq<(i64, ChunkCoord)>, x: int, z: int) -> bool {
    &&& forall|i: int|
        0 <= i < list.len() ==> passed(w, cam, (#[trigger] list[i]).1, x, z) && list[i].0
            == distance2(list[i].1, cam)
    &&& forall|c: ChunkCoord| #[trigger] passed(w, cam, c, x, z) ==> listed(list, c)
    &&& forall|i: int, j: int|
        0 <= i < j < list.len() ==> (#[trigger] list[i]).1 != (#[trigger] list[j]).1
}

proof fn lemma_found_step(
    w: WorldView,
    cam: ChunkCoord,
    before: Seq<(i64, ChunkCoord)>,
    after: Seq<(i64, ChunkCoord)>,
    x: int,
    z: int,
)
    requires
        found(w, cam, before, x, z),
        cam.x - w.render_distance <= x <= cam.x + w.render_distance,
        cam.z - w.render_distance <= z <= cam.z + w.render_distance,
        i32::MIN <= x <= i32::MAX,
        i32::MIN <= z <= i32::MAX,
        ({
            let c = ChunkCoord { x: x as i32, z: z as i32 };
            if w.untouched(c) {
                after.len() == before.len() + 1 && after.drop_last() =~= before && after.last().1 == c
                    && after.last().0 == distance2(c, cam)
            } else {
                after == before
            }
        }),
    ensures
        found(w, cam, after, x, z + 1),
{
    let c = ChunkCoord { x: x as i32, z: z as i32 };
    assert forall|i: int| 0 <= i < after.len() implies passed(
        w,
        cam,
        (#[trigger] after[i]).1,
        x,
        z + 1,
    ) && after[i].0 == distance2(after[i].1, cam) by {
        if i < before.len() {
            assert(after[i] == before[i]);
            assert(passed(w, cam, before[i].1, x, z));
        } else {
            assert(after[i] == after.last());
        }
    }
    assert forall|d: ChunkCoord| #[trigger] passed(w, cam, d, x, z + 1) implies listed(
        after,
        d,
    ) by {
        if d == c {
            assert(w.untouched(c));
            assert(after[after.len() - 1].1 == d);
        } else {
            assert(passed(w, cam, d, x, z));
            assert(listed(before, d));
            let i = choose|i: int| 0 <= i < before.len() && (#[trigger] before[i]).1 == d;
            assert(after[i] == before[i]);
        }
    }
    assert forall|i: int, j: int| 0 <= i < j < after.len() implies (#[trigger] after[i]).1 != (
    #[trigger] after[j]).1 by {
        assert(after[i] == before[i]);
        assert(passed(w, cam, before[i].1, x, z));
        if j < before.len() {
            assert(after[j] == before[j]);
        }
    }
}

proof fn lemma_found_row(w: WorldView, cam: ChunkCoord, list: Seq<(i64, ChunkCoord)>, x: int)
    requires
        found(w, cam, list, x, cam.z + w.render_distance + 1),
    ensures
        found(w, cam, list, x + 1, cam.z - w.render_distance),
{
    let z0 = cam.z + w.render_distance + 1;
    let z1 = cam.z - w.render_distance;
    assert forall|c: ChunkCoord| #[trigger] passed(w, cam, c, x + 1, z1) implies listed(
        list,
        c,
    ) by {
        assert(passed(w, cam, c, x, z0));
    }
    assert forall|i: int| 0 <= i < list.len() implies passed(
        w,
        cam,
        (#[trigger] list[i]).1,
        x + 1,
        z1,
    ) && list[i].0 == distance2(list[i].1, cam) by {
        assert(passed(w, cam, list[i].1, x, z0));
    }
}

} // verus!
