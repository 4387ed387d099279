//! Reading and changing single blocks.

use super::stream::{build_neighbor_masks, chunk_origin, masks_at, neighbour, neighbour_of};
use super::World;
use crate::meshing::lods::{lods_of, LodMeshes};
use crate::world::block::{is_opaque, opaque, BlockId};
use crate::world::chunk::{Chunk, ChunkView, CHUNK_HEIGHT};
use crate::world::coords::{
    chunk_of, floor_div, floor_mod, in_world, origin_of, BlockPos, ChunkCoord,
};
use crate::world::grid::{lemma_filter_from, lemma_push_contains, lemma_take_contains};
use crate::world::neighbor::{faces_of, ChunkFaceData};
use crate::world::state::WorldView;
use crate::world::terrain::{deterministic, generate, generated, HeightField};
use vstd::prelude::*;

verus! {

/// The axis along which a ray enters the next block.
#[derive(Clone, Copy, Debug, PartialEq, Eq, Structural)]
pub enum Axis {
    X,
    Y,
    Z,
}

/// A level inside the world.
pub open spec fn in_height(y: int) -> bool {
    0 <= y < CHUNK_HEIGHT
}

/// The block at a position in the chunk that holds it.
pub open spec fn block_in(c: ChunkView, p: BlockPos) -> BlockId {
    c.at(p.x as int % 32, p.y as int, p.z as int % 32)
}

/// The chunk that holds a position.
pub open spec fn home(p: BlockPos) -> ChunkCoord {
    chunk_of(p.x as int, p.z as int)
}

/// A block is on the side of its chunk that faces the `k`-th neighbour.
pub open spec fn on_side(p: BlockPos, k: int) -> bool {
    if k == 0 {
        p.x as int % 32 == 31
    } else if k == 1 {
        p.x as int % 32 == 0
    } else if k == 2 {
        p.z as int % 32 == 31
    } else {
        p.z as int % 32 == 0
    }
}

/// The order in which neighbours are meshed again: -X, +X, -Z, +Z.
pub open spec fn side_order(i: int) -> int {
    if i == 0 {
        1
    } else if i == 1 {
        0
    } else if i == 2 {
        3
    } else {
        2
    }
}

/// All chunks but one.
pub open spec fn all_but(c: ChunkCoord) -> spec_fn(ChunkCoord) -> bool {
    |d: ChunkCoord| d != c
}

/// A list of chunks without one of them.
pub open spec fn without(list: Seq<ChunkCoord>, c: ChunkCoord) -> Seq<ChunkCoord> {
    list.filter(all_but(c))
}

impl WorldView {
    /// The blocks of a chunk: those that are kept, else the terrain's.
    pub open spec fn blocks<F: Fn(i32, i32) -> HeightField>(self, f: F, c: ChunkCoord) -> ChunkView {
        if self.stored_chunks.contains_key(c) {
            self.stored_chunks[c]
        } else {
            generated(f, origin_of(c))
        }
    }

    /// The block at a position inside the world's height.
    pub open spec fn block<F: Fn(i32, i32) -> HeightField>(self, f: F, p: BlockPos) -> BlockId {
        block_in(self.blocks(f, home(p)), p)
    }

    /// Whether a position cannot be entered: below the world, or an opaque block of a chunk that
    /// is kept.
    pub open spec fn solid(self, p: BlockPos) -> bool {
        if p.y < 0 {
            true
        } else if p.y >= CHUNK_HEIGHT {
            false
        } else {
            self.stored_chunks.contains_key(home(p)) && opaque(
                block_in(self.stored_chunks[home(p)], p),
            )
        }
    }

    /// The world after a chunk was meshed at once. Its mesh is the next to be uploaded.
    pub open spec fn after_mesh_now<F: Fn(i32, i32) -> HeightField>(self, f: F, c: ChunkCoord)
        -> WorldView {
        let lods = lods_of(self.source(f, c), masks_at(self.face_data, c));
        let others = without(self.upload_queue, c);
        let w = WorldView {
            pending_chunks: self.pending_chunks.remove(c),
            loaded: self.loaded.insert(c),
            ..self
        };
        if lods.full.vertices.len() > 0 {
            WorldView {
                cpu_meshes: w.cpu_meshes.insert(c, lods),
                upload_queue: seq![c] + others,
                ..w
            }
        } else {
            WorldView { upload_queue: others, ..w }
        }
    }

    /// The world after it was arranged that a chunk is meshed again: at once, or when the mesh
    /// that is being made is done. The old mesh stays visible until the new one is uploaded.
    pub open spec fn after_remesh<F: Fn(i32, i32) -> HeightField>(self, f: F, c: ChunkCoord)
        -> WorldView {
        let w = WorldView {
            upload_queue: without(self.upload_queue, c),
            ..self
        };
        if self.mesh_in_flight.contains(c) {
            WorldView { pending_remesh: w.pending_remesh.insert(c), ..w }
        } else {
            w.after_mesh_now(f, c)
        }
    }

    /// The world after a block was put into the blocks that are kept.
    pub open spec fn after_put<F: Fn(i32, i32) -> HeightField>(self, f: F, p: BlockPos, id: BlockId)
        -> WorldView {
        let c = home(p);
        let chunk = self.blocks(f, c).with_block(
            p.x as int % 32,
            p.y as int,
            p.z as int % 32,
            id,
        );
        WorldView {
            stored_chunks: self.stored_chunks.insert(c, chunk),
            modified: self.modified.insert(c),
            face_data: self.face_data.insert(c, faces_of(chunk)),
            ..self
        }
    }

    /// The world after those of the first `k` neighbours that a block touches are meshed again,
    /// if they are known.
    pub open spec fn after_sides<F: Fn(i32, i32) -> HeightField>(self, f: F, p: BlockPos, k: int)
        -> WorldView
        decreases k,
    {
        if k <= 0 {
            self
        } else {
            let w = self.after_sides(f, p, k - 1);
            let n = neighbour_of(home(p), side_order(k - 1));
            if on_side(p, side_order(k - 1)) && w.face_data.contains_key(n) {
                w.after_remesh(f, n)
            } else {
                w
            }
        }
    }

    /// The world after a block was set. Nothing happens outside the world's height.
    pub open spec fn after_set_block<F: Fn(i32, i32) -> HeightField>(
        self,
        f: F,
        p: BlockPos,
        id: BlockId,
    ) -> WorldView {
        if !in_height(p.y as int) {
            self
        } else {
            self.after_put(f, p, id).after_remesh(f, home(p)).after_sides(f, p, 4)
        }
    }

    /// The chunks whose mesh is done and that are to be meshed again.
    pub open spec fn remeshable(self) -> Set<ChunkCoord> {
        self.pending_remesh.difference(self.mesh_in_flight)
    }

    /// The world after the first `k` chunks of a list were meshed again.
    pub open spec fn after_remeshes<F: Fn(i32, i32) -> HeightField>(
        self,
        f: F,
        list: Seq<ChunkCoord>,
        k: int,
    ) -> WorldView
        decreases k,
    {
        if k <= 0 {
            self
        } else {
            let w = self.after_remeshes(f, list, k - 1);
            let c = list[k - 1];
            WorldView { pending_remesh: w.pending_remesh.remove(c), ..w }.after_mesh_now(f, c)
        }
    }

    /// The world after the blocks of the chunks of the first `k` columns are kept, where these
    /// chunks are loaded.
    pub open spec fn after_prep<F: Fn(i32, i32) -> HeightField>(
        self,
        f: F,
        columns: Seq<(i32, i32)>,
        k: int,
    ) -> WorldView
        decreases k,
    {
        if k <= 0 {
            self
        } else {
            let w = self.after_prep(f, columns, k - 1);
            let c = chunk_of(columns[k - 1].0 as int, columns[k - 1].1 as int);
            if w.loaded.contains(c) && !w.stored_chunks.contains_key(c) {
                WorldView {
                    stored_chunks: w.stored_chunks.insert(c, generated(f, origin_of(c))),
                    ..w
                }
            } else {
                w
            }
        }
    }
}

/// One step of a ray.
pub open spec fn stepped(p: BlockPos, step: BlockPos, axis: Axis) -> BlockPos {
    match axis {
        Axis::X => BlockPos { x: (p.x + step.x) as i32, ..p },
        Axis::Y => BlockPos { y: (p.y + step.y) as i32, ..p },
        Axis::Z => BlockPos { z: (p.z + step.z) as i32, ..p },
    }
}

/// Where a ray is after `k` steps.
pub open spec fn ray_at(start: BlockPos, step: BlockPos, path: Seq<Axis>, k: int) -> BlockPos
    decreases k,
{
    if k <= 0 {
        start
    } else {
        stepped(ray_at(start, step, path, k - 1), step, path[k - 1])
    }
}

/// The direction out of the face through which a ray entered after `k` steps; zero at the start.
pub open spec fn entry_normal(step: BlockPos, path: Seq<Axis>, k: int) -> BlockPos {
    if k <= 0 {
        BlockPos { x: 0, y: 0, z: 0 }
    } else {
        match path[k - 1] {
            Axis::X => BlockPos { x: (-step.x) as i32, y: 0, z: 0 },
            Axis::Y => BlockPos { x: 0, y: (-step.y) as i32, z: 0 },
            Axis::Z => BlockPos { x: 0, y: 0, z: (-step.z) as i32 },
        }
    }
}

/// A ray hits an opaque block after `k` steps.
pub open spec fn ray_hits<F: Fn(i32, i32) -> HeightField>(
    w: WorldView,
    f: F,
    start: BlockPos,
    step: BlockPos,
    path: Seq<Axis>,
    k: int,
) -> bool {
    let p = ray_at(start, step, path, k);
    in_height(p.y as int) && opaque(w.block(f, p))
}

/// The coordinates of a ray of `n` steps fit.
pub open spec fn ray_fits(start: BlockPos, step: BlockPos, n: int) -> bool {
    &&& i32::MIN <= start.x - n && start.x + n <= i32::MAX
    &&& i32::MIN <= start.y - n && start.y + n <= i32::MAX
    &&& i32::MIN <= start.z - n && start.z + n <= i32::MAX
    &&& -1 <= step.x <= 1
    &&& -1 <= step.y <= 1
    &&& -1 <= step.z <= 1
}

/// No coordinate of two positions differs by more than `k`.
pub open spec fn off_by(p: BlockPos, q: BlockPos, k: int) -> bool {
    &&& q.x - k <= p.x <= q.x + k
    &&& q.y - k <= p.y <= q.y + k
    &&& q.z - k <= p.z <= q.z + k
}

fn home_of(p: BlockPos) -> (r: ChunkCoord)
    ensures
        r == home(p),
        in_world(r),
{
    ChunkCoord { x: floor_div(p.x, 32), z: floor_div(p.z, 32) }
}

fn read_block(chunk: &Chunk, p: BlockPos) -> (r: BlockId)
    requires
        chunk@.wf(),
        in_height(p.y as int),
    ensures
        r == block_in(chunk@, p),
{
    let x: usize = floor_mod(p.x, 32) as usize;
    let z: usize = floor_mod(p.z, 32) as usize;
    chunk.get(x, p.y as usize, z)
}

/// The chunks of a list but for one, in the same order.
fn filter_out(list: &Vec<ChunkCoord>, c: ChunkCoord) -> (r: Vec<ChunkCoord>)
    ensures
        r@ == without(list@, c),
{
    let mut r: Vec<ChunkCoord> = Vec::new();
    let mut i: usize = 0;
    proof {
        reveal(Seq::filter);
    }
    assert(r@ =~= without(list@.take(0), c));
    while i < list.len()
        invariant
            i <= list.len(),
            r@ == without(list@.take(i as int), c),
        decreases list.len() - i,
    {
        proof {
            reveal(Seq::filter);
            assert(list@.take(i + 1).drop_last() =~= list@.take(i as int));
        }
        let d = list[i];
        if d.x != c.x || d.z != c.z {
            r.push(d);
        }
        i = i + 1;
    }
    assert(list@.take(i as int) =~= list@);
    r
}

proof fn lemma_without(list: Seq<ChunkCoord>, c: ChunkCoord)
    ensures
        forall|i: int|
            0 <= i < without(list, c).len() ==> list.contains(#[trigger] without(list, c)[i]),
{
    let keep = all_but(c);
    let r = list.filter(keep);
    assert forall|i: int| 0 <= i < r.len() implies list.contains(#[trigger] r[i]) by {
        lemma_filter_from(list, keep, i);
    }
}

impl World {
    /// Meshes a chunk at once, so that edits do not wait behind other work, and puts it to the
    /// front of the upload queue.
    fn mesh_chunk_now<F: Fn(i32, i32) -> HeightField>(&mut self, terrain: &F, c: ChunkCoord)
        requires
            old(self)@.wf(),
            deterministic(*terrain),
            in_world(c),
        ensures
            final(self)@ == old(self)@.after_mesh_now(*terrain, c),
            final(self)@.wf(),
    {
        let ghost w = self@;
        let neighbors = build_neighbor_masks(c, &self.face_data);
        let chunk = self.take_source(terrain, c);
        let lods = LodMeshes::build(&chunk, &neighbors);
        self.loaded.insert(c);
        let mut queue = filter_out(&self.upload_queue, c);
        let ghost others = without(w.upload_queue, c);
        if lods.level(0).vertices.len() > 0 {
            self.cpu_meshes.insert(c, lods);
            queue.insert(0, c);
            assert(queue@ =~= seq![c] + others);
        }
        proof {
            lemma_without(w.upload_queue, c);
            assert forall|i: int| 0 <= i < queue@.len() implies c == queue@[i]
                || w.cpu_meshes.contains_key(#[trigger] queue@[i]) by {
                if queue@.len() == others.len() {
                    assert(w.upload_queue.contains(others[i]));
                } else if i > 0 {
                    assert(queue@[i] == others[i - 1]);
                    assert(w.upload_queue.contains(others[i - 1]));
                }
            }
        }
        std::mem::swap(&mut queue, &mut self.upload_queue);
        assert(self@ =~= w.after_mesh_now(*terrain, c));
    }

    /// Arranges that a chunk is meshed again.
    fn remesh_chunk<F: Fn(i32, i32) -> HeightField>(&mut self, terrain: &F, c: ChunkCoord)
        requires
            old(self)@.wf(),
            deterministic(*terrain),
            in_world(c),
        ensures
            final(self)@ == old(self)@.after_remesh(*terrain, c),
            final(self)@.wf(),
    {
        let ghost w = self@;
        let mut queue = filter_out(&self.upload_queue, c);
        std::mem::swap(&mut queue, &mut self.upload_queue);
        let ghost mid = WorldView {
            upload_queue: without(w.upload_queue, c),
            ..w
        };
        proof {
            lemma_without(w.upload_queue, c);
            assert(self@ =~= mid);
            assert(mid.slots_fit());
            assert forall|i: int| 0 <= i < mid.upload_queue.len() implies mid.cpu_meshes.contains_key(
                #[trigger] mid.upload_queue[i],
            ) by {
                assert(w.upload_queue.contains(mid.upload_queue[i]));
            }
            assert(mid.wf());
        }
        if self.mesh_in_flight.contains(c) {
            self.pending_remesh.insert(c);
            assert(self@ =~= w.after_remesh(*terrain, c));
        } else {
            self.mesh_chunk_now(terrain, c);
        }
    }

    /// Puts a block into the blocks that are kept, generating them if need be.
    fn put_block<F: Fn(i32, i32) -> HeightField>(&mut self, terrain: &F, p: BlockPos, id: BlockId)
        requires
            old(self)@.wf(),
            deterministic(*terrain),
            in_height(p.y as int),
        ensures
            final(self)@ == old(self)@.after_put(*terrain, p, id),
            final(self)@.wf(),
    {
        let ghost w = self@;
        let c = home_of(p);
        let mut chunk = match self.stored_chunks.remove(c) {
            Some(chunk) => {
                assert(w.stored_chunks[c].wf());
                chunk
            },
            None => generate(terrain, chunk_origin(c)),
        };
        let x: usize = floor_mod(p.x, 32) as usize;
        let z: usize = floor_mod(p.z, 32) as usize;
        chunk.set(x, p.y as usize, z, id);
        let faces = ChunkFaceData::extract(&chunk);
        self.stored_chunks.insert(c, chunk);
        self.modified_set.insert(c);
        self.face_data.insert(c, faces);
        proof {
            let after = w.after_put(*terrain, p, id);
            assert(self@ =~= after);
            assert forall|d: ChunkCoord| after.stored_chunks.contains_key(d) implies (
            #[trigger] after.stored_chunks[d]).wf() by {
                if d != c {
                    assert(w.stored_chunks[d].wf());
                }
            }
            assert(after.chunks_fit());
            assert(after.slots_fit());
            assert(after.wf());
        }
    }

    /// Places or removes a block and arranges that its chunk is meshed again, and that of a
    /// neighbour which the block touches.
    pub fn set_block<F: Fn(i32, i32) -> HeightField>(&mut self, terrain: &F, p: BlockPos, id: BlockId)
        requires
            old(self)@.wf(),
            deterministic(*terrain),
        ensures
            final(self)@ == old(self)@.after_set_block(*terrain, p, id),
            final(self)@.wf(),
    {
        if p.y < 0 || p.y >= CHUNK_HEIGHT as i32 {
            return;
        }
        let c = home_of(p);
        self.put_block(terrain, p, id);
        self.remesh_chunk(terrain, c);
        let ghost base = self@;
        let x: i32 = floor_mod(p.x, 32);
        let z: i32 = floor_mod(p.z, 32);
        let mut i: usize = 0;
        while i < 4
            invariant
                i <= 4,
                c == home(p),
                in_world(c),
                x == p.x as int % 32,
                z == p.z as int % 32,
                deterministic(*terrain),
                self@ == base.after_sides(*terrain, p, i as int),
                self@.wf(),
            decreases 4 - i,
        {
            let k: usize = if i == 0 {
                1
            } else if i == 1 {
                0
            } else if i == 2 {
                3
            } else {
                2
            };
            let touches = if k == 0 {
                x == 31
            } else if k == 1 {
                x == 0
            } else if k == 2 {
                z == 31
            } else {
                z == 0
            };
            let n = neighbour(c, k);
            if touches && self.face_data.contains_key(n) {
                assert(self@.face_data.contains_key(n));
                self.remesh_chunk(terrain, n);
            }
            i = i + 1;
        }
    }

    /// Meshes the chunks that were edited while a mesh of them was being made, now that it is
    /// done.
    pub fn run_pending_remesh<F: Fn(i32, i32) -> HeightField>(&mut self, terrain: &F) -> (r: Vec<
        ChunkCoord,
    >)
        requires
            old(self)@.wf(),
            deterministic(*terrain),
        ensures
            r@.no_duplicates(),
            r@.to_set() == old(self)@.remeshable(),
            final(self)@ == old(self)@.after_remeshes(*terrain, r@, r.len() as int),
            final(self)@.wf(),
    {
        let ghost w = self@;
        let all = self.pending_remesh.items();
        let mut list: Vec<ChunkCoord> = Vec::new();
        let mut i: usize = 0;
        while i < all.len()
            invariant
                i <= all.len(),
                self@ == w,
                w.wf(),
                all@.no_duplicates(),
                all@.to_set() == w.pending_remesh,
                list@.no_duplicates(),
                forall|c: ChunkCoord|
                    #[trigger] list@.contains(c) <==> all@.take(i as int).contains(c)
                        && !w.mesh_in_flight.contains(c),
            decreases all.len() - i,
        {
            let c = all[i];
            let ghost before = list@;
            proof {
                lemma_take_contains(all@, i as int);
                assert(!all@.take(i as int).contains(c)) by {
                    if all@.take(i as int).contains(c) {
                        let j = choose|j: int| 0 <= j < i && all@.take(i as int)[j] == c;
                        assert(all@[j] == all@[i as int]);
                    }
                }
                assert(!before.contains(c));
            }
            if !self.mesh_in_flight.contains(c) {
                list.push(c);
                proof {
                    assert forall|d: ChunkCoord|
                        #[trigger] list@.contains(d) <==> all@.take(i + 1).contains(d)
                            && !w.mesh_in_flight.contains(d) by {
                        lemma_push_contains(before, c, d);
                    }
                }
            }
            i = i + 1;
        }
        proof {
            assert(all@.take(i as int) =~= all@);
            assert(list@.to_set() =~= w.remeshable()) by {
                assert forall|c: ChunkCoord|
                    #[trigger] list@.to_set().contains(c) <==> w.remeshable().contains(c) by {
                    assert(list@.to_set().contains(c) <==> list@.contains(c));
                    assert(all@.to_set().contains(c) <==> all@.contains(c));
                }
            }
        }
        let mut k: usize = 0;
        while k < list.len()
            invariant
                k <= list.len(),
                w.wf(),
                deterministic(*terrain),
                list@.to_set() == w.remeshable(),
                self@ == w.after_remeshes(*terrain, list@, k as int),
                self@.wf(),
            decreases list.len() - k,
        {
            let c = list[k];
            let ghost before = self@;
            proof {
                assert(list@.to_set().contains(list@[k as int]));
                assert(w.pending_remesh.contains(c));
            }
            self.pending_remesh.remove(c);
            let ghost mid = WorldView {
                pending_remesh: before.pending_remesh.remove(c),
                ..before
            };
            proof {
                assert(self@ =~= mid);
                assert(mid.slots_fit());
                assert(mid.wf());
            }
            self.mesh_chunk_now(terrain, c);
            k = k + 1;
        }
        list
    }

    /// Makes sure that the blocks of every loaded chunk under the given columns are kept, so that
    /// collisions with them are seen. Blocks that were discarded are generated again, which gives
    /// the same blocks.
    pub fn prep_player_collision<F: Fn(i32, i32) -> HeightField>(
        &mut self,
        terrain: &F,
        columns: &Vec<(i32, i32)>,
    )
        requires
            old(self)@.wf(),
            deterministic(*terrain),
        ensures
            final(self)@ == old(self)@.after_prep(*terrain, columns@, columns.len() as int),
            final(self)@.wf(),
    {
        let ghost w = self@;
        let mut i: usize = 0;
        while i < columns.len()
            invariant
                i <= columns.len(),
                deterministic(*terrain),
                self@ == w.after_prep(*terrain, columns@, i as int),
                self@.wf(),
            decreases columns.len() - i,
        {
            let (x, z) = columns[i];
            let c = home_of(BlockPos { x, y: 0, z });
            let ghost before = self@;
            if !self.stored_chunks.contains_key(c) && self.loaded.contains(c) {
                let chunk = generate(terrain, chunk_origin(c));
                self.stored_chunks.insert(c, chunk);
                proof {
                    let after = w.after_prep(*terrain, columns@, i + 1);
                    assert(self@ =~= after);
                    assert forall|d: ChunkCoord| after.stored_chunks.contains_key(d) implies (
                    #[trigger] after.stored_chunks[d]).wf() by {
                        if d != c {
                            assert(before.stored_chunks[d].wf());
                        }
                    }
                    assert(after.slots_fit());
                    assert(after.wf());
                }
            }
            i = i + 1;
        }
    }

    /// Whether a position cannot be entered. What is below the world is solid, what is above it
    /// is open, and so is a chunk whose blocks are not kept.
    pub fn is_solid(&self, p: BlockPos) -> (r: bool)
        requires
            self@.wf(),
        ensures
            r == self@.solid(p),
    {
        if p.y < 0 {
            return true;
        }
        if p.y >= CHUNK_HEIGHT as i32 {
            return false;
        }
        match self.stored_chunks.get(home_of(p)) {
            Some(chunk) => {
                assert(self@.stored_chunks[home(p)].wf());
                is_opaque(read_block(chunk, p))
            },
            None => false,
        }
    }

    /// Follows a ray from block to block. `step` says which way it goes along each axis, and
    /// `path` along which axis it enters the next block, as far as it reaches. Gives the first
    /// opaque block and the direction out of the face through which it was entered.
    pub fn raycast<F: Fn(i32, i32) -> HeightField>(
        &self,
        terrain: &F,
        start: BlockPos,
        step: BlockPos,
        path: &Vec<Axis>,
    ) -> (r: Option<(BlockPos, BlockPos)>)
        requires
            self@.wf(),
            deterministic(*terrain),
            ray_fits(start, step, path.len() as int),
        ensures
            match r {
                Some((p, normal)) => exists|k: int|
                    {
                        &&& 0 <= k <= path.len()
                        &&& #[trigger] ray_hits(self@, *terrain, start, step, path@, k)
                        &&& p == ray_at(start, step, path@, k)
                        &&& normal == entry_normal(step, path@, k)
                        &&& forall|j: int|
                            0 <= j < k ==> !#[trigger] ray_hits(
                                self@,
                                *terrain,
                                start,
                                step,
                                path@,
                                j,
                            )
                    },
                None => forall|j: int|
                    0 <= j <= path.len() ==> !#[trigger] ray_hits(
                        self@,
                        *terrain,
                        start,
                        step,
                        path@,
                        j,
                    ),
            },
    {
        let mut p = start;
        let mut cached: Option<(ChunkCoord, Chunk)> = None;
        let mut k: usize = 0;
        loop
            invariant
                self@.wf(),
                deterministic(*terrain),
                ray_fits(start, step, path.len() as int),
                k <= path.len(),
                p == ray_at(start, step, path@, k as int),
                off_by(p, start, k as int),
                cached matches Some((c, chunk)) ==> in_world(c) && chunk@ == generated(
                    *terrain,
                    origin_of(c),
                ) && chunk@.wf(),
                forall|j: int|
                    0 <= j < k ==> !#[trigger] ray_hits(self@, *terrain, start, step, path@, j),
            decreases path.len() - k,
        {
            if p.y >= 0 && p.y < CHUNK_HEIGHT as i32 {
                let c = home_of(p);
                let id = match self.stored_chunks.get(c) {
                    Some(chunk) => {
                        assert(self@.stored_chunks[c].wf());
                        read_block(chunk, p)
                    },
                    None => {
                        let hit = match &cached {
                            Some((cc, _)) => cc.x == c.x && cc.z == c.z,
                            None => false,
                        };
                        if !hit {
                            cached = Some((c, generate(terrain, chunk_origin(c))));
                        }
                        match &cached {
                            Some((_, chunk)) => read_block(chunk, p),
                            None => BlockId(0),
                        }
                    },
                };
                assert(id == self@.block(*terrain, p));
                if is_opaque(id) {
                    let normal = if k == 0 {
                        BlockPos { x: 0, y: 0, z: 0 }
                    } else {
                        match path[k - 1] {
                            Axis::X => BlockPos { x: -step.x, y: 0, z: 0 },
                            Axis::Y => BlockPos { x: 0, y: -step.y, z: 0 },
                            Axis::Z => BlockPos { x: 0, y: 0, z: -step.z },
                        }
                    };
                    assert(ray_hits(self@, *terrain, start, step, path@, k as int));
                    return Some((p, normal));
                }
            }
            assert(!ray_hits(self@, *terrain, start, step, path@, k as int));
            if k == path.len() {
                return None;
            }
            match path[k] {
                Axis::X => {
                    p = BlockPos { x: p.x + step.x, y: p.y, z: p.z };
                },
                Axis::Y => {
                    p = BlockPos { x: p.x, y: p.y + step.y, z: p.z };
                },
                Axis::Z => {
                    p = BlockPos { x: p.x, y: p.y, z: p.z + step.z };
                },
            }
            k = k + 1;
        }
    }
}

} // verus!
