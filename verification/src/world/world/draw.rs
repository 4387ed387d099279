//! Choosing what is drawn.

use super::World;
use crate::render::mesh::{draw_of, ChunkSlot, DrawCommand};
use crate::world::coords::{chebyshev, ChunkCoord};
use crate::world::grid::distance;
use crate::world::state::WorldView;
use vstd::arithmetic::power2::pow2;
use vstd::prelude::*;

verus! {

/// The slot that is drawn for the ground of a chunk: the full mesh near the camera and the
/// surface far away, or the other one while that is not there.
pub open spec fn ground_slot(allocs: [Option<ChunkSlot>; 3], near: bool) -> Option<ChunkSlot> {
    if near {
        if allocs[0] is Some {
            allocs[0]
        } else {
            allocs[1]
        }
    } else if allocs[1] is Some {
        allocs[1]
    } else {
        allocs[0]
    }
}

impl WorldView {
    /// The command that draws the ground of a chunk.
    pub open spec fn ground_draw(self, cam: ChunkCoord, c: ChunkCoord) -> Option<DrawCommand> {
        if self.cpu_meshes.contains_key(c) && self.chunk_allocs.contains_key(c) {
            match ground_slot(self.chunk_allocs[c], chebyshev(c, cam) < self.lod1_dist) {
                Some(s) => Some(draw_of(s)),
                None => None,
            }
        } else {
            None
        }
    }

    /// The command that draws the water of a chunk.
    pub open spec fn water_draw(self, c: ChunkCoord) -> Option<DrawCommand> {
        if self.cpu_meshes.contains_key(c) && self.chunk_allocs.contains_key(c) {
            match self.chunk_allocs[c][2] {
                Some(s) => Some(draw_of(s)),
                None => None,
            }
        } else {
            None
        }
    }

    /// The commands that draw the ground of the first `k` chunks of a list.
    pub open spec fn ground_draws(self, cam: ChunkCoord, list: Seq<ChunkCoord>, k: int) -> Seq<
        DrawCommand,
    >
        decreases k,
    {
        if k <= 0 {
            Seq::empty()
        } else {
            match self.ground_draw(cam, list[k - 1]) {
                Some(d) => self.ground_draws(cam, list, k - 1).push(d),
                None => self.ground_draws(cam, list, k - 1),
            }
        }
    }

    /// The commands that draw the water of the first `k` chunks of a list.
    pub open spec fn water_draws(self, list: Seq<ChunkCoord>, k: int) -> Seq<DrawCommand>
        decreases k,
    {
        if k <= 0 {
            Seq::empty()
        } else {
            match self.water_draw(list[k - 1]) {
                Some(d) => self.water_draws(list, k - 1).push(d),
                None => self.water_draws(list, k - 1),
            }
        }
    }
}

/// The size that a buffer for `cap` draw commands grows to so that it holds `needed`, if it has to.
pub open spec fn indirect_cap(cap: int, needed: int) -> Option<u64> {
    if needed <= cap {
        None
    } else {
        Some(crate::render::arena::power_of_two_above(needed) as u64)
    }
}

/// The size that a buffer for `cap` draw commands has to grow to so that it holds `count`, of
/// which there is always room for one.
pub fn indirect_growth(cap: u64, count: u64) -> (r: Option<u64>)
    requires
        count <= 0x8000_0000_0000_0000,
    ensures
        r == indirect_cap(cap as int, if count < 1 {
            1
        } else {
            count as int
        }),
        r matches Some(n) ==> cap < n && count <= n,
{
    let needed: u64 = if count < 1 {
        1
    } else {
        count
    };
    if needed <= cap {
        None
    } else {
        Some(crate::render::arena::next_power_of_two(needed))
    }
}

impl World {
    /// The chunks that have meshes, in any order.
    pub fn meshed_chunks(&self) -> (r: Vec<ChunkCoord>)
        ensures
            r@.no_duplicates(),
            r@.to_set() == self@.cpu_meshes.dom(),
    {
        self.cpu_meshes.keys()
    }

    /// The draw commands for the ground and for the water of the visible chunks.
    pub fn cull_draws(&self, visible: &Vec<ChunkCoord>, cam: ChunkCoord) -> (r: (
        Vec<DrawCommand>,
        Vec<DrawCommand>,
    ))
        ensures
            r.0@ == self@.ground_draws(cam, visible@, visible.len() as int),
            r.1@ == self@.water_draws(visible@, visible.len() as int),
    {
        let mut ground: Vec<DrawCommand> = Vec::new();
        let mut water: Vec<DrawCommand> = Vec::new();
        let mut i: usize = 0;
        while i < visible.len()
            invariant
                i <= visible.len(),
                ground@ == self@.ground_draws(cam, visible@, i as int),
                water@ == self@.water_draws(visible@, i as int),
            decreases visible.len() - i,
        {
            let c = visible[i];
            if self.cpu_meshes.contains_key(c) {
                if let Some(allocs) = self.chunk_allocs.get(c) {
                    let first: usize = if distance(c, cam) < self.lod1_dist as i64 {
                        0
                    } else {
                        1
                    };
                    let slot: Option<ChunkSlot> = if allocs[first].is_some() {
                        allocs[first]
                    } else if allocs[0].is_some() {
                        allocs[0]
                    } else {
                        allocs[1]
                    };
                    if let Some(s) = slot {
                        ground.push(DrawCommand::of(s));
                    }
                    if let Some(s) = allocs[2] {
                        water.push(DrawCommand::of(s));
                    }
                }
            }
            i = i + 1;
        }
        (ground, water)
    }

    /// Begins a new draw list: goes on to the other of the two draw buffers, so that the one that
    /// the GPU may be reading is not written, and gives its number.
    pub fn flush_indirect(&mut self, count: usize) -> (r: usize)
        requires
            old(self)@.wf(),
        ensures
            final(self)@ == (WorldView {
                draw_slot: 1 - old(self)@.draw_slot,
                draw_count: count as u32,
                ..old(self)@
            }),
            r == final(self)@.draw_slot,
            final(self)@.wf(),
    {
        let ghost w = self@;
        self.draw_slot = 1 - self.draw_slot;
        self.last_draw_count = count as u32;
        assert(self@ =~= (WorldView {
            draw_slot: 1 - w.draw_slot,
            draw_count: count as u32,
            ..w
        }));
        self.draw_slot
    }

    /// Notes the length of the draw list for water, and gives the number of its draw buffer.
    pub fn flush_indirect_water(&mut self, count: usize) -> (r: usize)
        requires
            old(self)@.wf(),
        ensures
            final(self)@ == (WorldView { water_draw_count: count as u32, ..old(self)@ }),
            r == old(self)@.draw_slot,
            final(self)@.wf(),
    {
        let ghost w = self@;
        self.water_last_draw_count = count as u32;
        assert(self@ =~= (WorldView { water_draw_count: count as u32, ..w }));
        self.draw_slot
    }

    /// The draw buffer in use and how many commands are in it.
    pub fn indirect_draw(&self) -> (r: (usize, u32))
        ensures
            r.0 == self@.draw_slot,
            r.1 == self@.draw_count,
    {
        (self.draw_slot, self.last_draw_count)
    }

    /// The draw buffer for water in use and how many commands are in it.
    pub fn indirect_draw_water(&self) -> (r: (usize, u32))
        ensures
            r.0 == self@.draw_slot,
            r.1 == self@.water_draw_count,
    {
        (self.draw_slot, self.water_last_draw_count)
    }

    /// The meshes of a chunk, if it has any.
    pub fn lods(&self, c: ChunkCoord) -> (r: Option<&crate::meshing::lods::LodMeshes>)
        ensures
            r is Some <==> self@.cpu_meshes.contains_key(c),
            r matches Some(m) ==> m@ == self@.cpu_meshes[c],
    {
        self.cpu_meshes.get(c)
    }
}

/// A buffer for draw commands grows only if it has to, and then to twice what is needed at most.
pub proof fn law_indirect(cap: int, needed: int)
    requires
        1 <= needed <= 0x8000_0000_0000_0000,
    ensures
        indirect_cap(cap, needed) is None <==> needed <= cap,
        indirect_cap(cap, needed) matches Some(n) ==> needed <= n && (n < 2 * needed) && exists|
            k: nat,
        | #[trigger] pow2(k) == n,
{
    crate::render::arena::law_power_of_two(needed);
}

} // verus!
