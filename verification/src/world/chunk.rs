//! The blocks of a chunk.

use crate::world::block::{BlockId, AIR};
use crate::world::coords::BlockPos;
use vstd::prelude::*;

verus! {

/// Blocks along the X and Z sides of a chunk.
pub const CHUNK_SIZE: usize = 32;

/// Blocks in a chunk column.
pub const CHUNK_HEIGHT: usize = 256;

/// Blocks in a chunk.
pub const CHUNK_VOLUME: usize = 262144;

/// What a chunk is: its place, the blocks in it, and how far up it has to be looked at.
#[verifier::ext_equal]
pub struct ChunkView {
    pub origin: BlockPos,
    /// Set whenever a block was put in.
    pub dirty: bool,
    /// The highest level that contains any block but air; 0 where there is none.
    pub max_height: int,
    /// All blocks, at `cell_index`.
    pub cells: Seq<BlockId>,
}

/// Blocks are stored layer by layer: first along X, then along Z, then up.
pub open spec fn cell_index(x: int, y: int, z: int) -> int {
    x + z * 32 + y * 1024
}

/// Whether there is nothing but air at level `k`.
pub open spec fn level_empty(cells: Seq<BlockId>, k: int) -> bool {
    forall|i: int| 1024 * k <= i < 1024 * k + 1024 ==> #[trigger] cells[i] == BlockId(AIR)
}

/// The highest level up to `k` that contains any block but air; 0 where there is none.
pub open spec fn top_level(cells: Seq<BlockId>, k: int) -> int
    decreases k,
{
    if k <= 0 {
        0
    } else if level_empty(cells, k) {
        top_level(cells, k - 1)
    } else {
        k
    }
}

impl ChunkView {
    /// The block at (x, y, z), counted from the corner of the chunk.
    pub open spec fn at(self, x: int, y: int, z: int) -> BlockId {
        self.cells[cell_index(x, y, z)]
    }

    /// The chunk after `id` was put at (x, y, z).
    pub open spec fn with_block(self, x: int, y: int, z: int, id: BlockId) -> ChunkView {
        let i = cell_index(x, y, z);
        let cells = self.cells.update(i, id);
        ChunkView {
            origin: self.origin,
            dirty: true,
            max_height: if id == BlockId(AIR) {
                top_level(cells, self.max_height)
            } else if i / 1024 > self.max_height {
                i / 1024
            } else {
                self.max_height
            },
            cells,
        }
    }

    /// There is a block in every cell, and `max_height` is the highest level that contains any
    /// but air.
    pub open spec fn wf(self) -> bool {
        &&& self.cells.len() == CHUNK_VOLUME
        &&& 0 <= self.max_height < CHUNK_HEIGHT
        &&& self.max_height > 0 ==> !level_empty(self.cells, self.max_height)
        &&& forall|x: int, y: int, z: int|
            0 <= x < CHUNK_SIZE && self.max_height < y < CHUNK_HEIGHT && 0 <= z < CHUNK_SIZE
                ==> #[trigger] self.at(x, y, z) == BlockId(AIR)
    }
}

/// A chunk of air.
pub open spec fn air_chunk(origin: BlockPos) -> ChunkView {
    ChunkView {
        origin,
        dirty: true,
        max_height: 0,
        cells: Seq::new(CHUNK_VOLUME as nat, |i: int| BlockId(AIR)),
    }
}

/// Storage for the blocks of a 32 x 256 x 32 column of the world.
pub struct Chunk {
    origin: BlockPos,
    dirty: bool,
    /// The highest level that contains any block but air. Used to skip empty height in meshing.
    max_height: usize,
    blocks: Vec<BlockId>,
}

impl View for Chunk {
    type V = ChunkView;

    closed spec fn view(&self) -> ChunkView {
        ChunkView {
            origin: self.origin,
            dirty: self.dirty,
            max_height: self.max_height as int,
            cells: self.blocks@,
        }
    }
}

impl Clone for Chunk {
    fn clone(&self) -> (r: Chunk)
        ensures
            r@ == self@,
    {
        let blocks = self.blocks.clone();
        assert(blocks@ =~= self.blocks@);
        Chunk { origin: self.origin, dirty: self.dirty, max_height: self.max_height, blocks }
    }
}

impl Chunk {
    /// The position of the lowest corner block.
    pub fn origin(&self) -> (r: BlockPos)
        ensures
            r == self@.origin,
    {
        self.origin
    }

    /// Whether a block was put in.
    pub fn dirty(&self) -> (r: bool)
        ensures
            r == self@.dirty,
    {
        self.dirty
    }

    /// The highest level that contains any block but air; 0 where there is none.
    pub fn max_height(&self) -> (r: usize)
        ensures
            r == self@.max_height,
    {
        self.max_height
    }

    /// A chunk of air.
    pub fn new(origin: BlockPos) -> (r: Chunk)
        ensures
            r@.wf(),
            r@ == air_chunk(origin),
    {
        let blocks: Vec<BlockId> = vec![BlockId(AIR); CHUNK_VOLUME];
        let r = Chunk { origin, dirty: true, max_height: 0, blocks };
        assert(r@ =~= air_chunk(origin));
        r
    }

    /// The block at (x, y, z), counted from the corner of the chunk.
    pub fn get(&self, x: usize, y: usize, z: usize) -> (r: BlockId)
        requires
            cell_index(x as int, y as int, z as int) < self@.cells.len(),
        ensures
            r == self@.at(x as int, y as int, z as int),
    {
        assert(self.blocks.len() <= usize::MAX);
        self.blocks[x + z * CHUNK_SIZE + y * CHUNK_SIZE * CHUNK_SIZE]
    }

    /// Puts a block at (x, y, z).
    pub fn set(&mut self, x: usize, y: usize, z: usize, id: BlockId)
        requires
            old(self)@.wf(),
            cell_index(x as int, y as int, z as int) < old(self)@.cells.len(),
        ensures
            final(self)@ == old(self)@.with_block(x as int, y as int, z as int, id),
            final(self)@.wf(),
    {
        let ghost before = self@;
        let i: usize = x + z * CHUNK_SIZE + y * CHUNK_SIZE * CHUNK_SIZE;
        let level: usize = i / (CHUNK_SIZE * CHUNK_SIZE);
        self.blocks[i] = id;
        self.dirty = true;
        if id.0 == AIR {
            self.lower();
        } else if level > self.max_height {
            self.max_height = level;
        }
        proof {
            assert(self@ =~= before.with_block(x as int, y as int, z as int, id));
            lemma_with_block(before, x as int, y as int, z as int, id);
        }
    }

    /// Lowers `max_height` to where the next block is.
    fn lower(&mut self)
        requires
            old(self)@.cells.len() == CHUNK_VOLUME,
            old(self)@.max_height < CHUNK_HEIGHT,
        ensures
            final(self)@ == (ChunkView {
                max_height: top_level(old(self)@.cells, old(self)@.max_height),
                ..old(self)@
            }),
    {
        let ghost before = self@;
        while self.max_height > 0 && self.level_empty(self.max_height)
            invariant
                0 <= self.max_height < CHUNK_HEIGHT,
                before.cells.len() == CHUNK_VOLUME,
                self@ == (ChunkView { max_height: self.max_height as int, ..before }),
                top_level(before.cells, self.max_height as int) == top_level(
                    before.cells,
                    before.max_height,
                ),
            decreases self.max_height,
        {
            self.max_height = self.max_height - 1;
        }
    }

    /// Whether there is nothing but air at level `k`.
    fn level_empty(&self, k: usize) -> (r: bool)
        requires
            self@.cells.len() == CHUNK_VOLUME,
            k < CHUNK_HEIGHT,
        ensures
            r == level_empty(self@.cells, k as int),
    {
        let mut i: usize = 1024 * k;
        while i < 1024 * k + 1024
            invariant
                1024 * k <= i <= 1024 * k + 1024,
                k < CHUNK_HEIGHT,
                self@.cells.len() == CHUNK_VOLUME,
                forall|j: int| 1024 * k <= j < i ==> #[trigger] self@.cells[j] == BlockId(AIR),
            decreases 1024 * k + 1024 - i,
        {
            if self.blocks[i].0 != AIR {
                assert(self@.cells[i as int] != BlockId(AIR));
                return false;
            }
            i = i + 1;
        }
        true
    }
}

/// Above `top_level` there is nothing but air, and at it there is something else.
proof fn lemma_top_level(cells: Seq<BlockId>, k: int)
    ensures
        0 <= top_level(cells, k) <= if k > 0 {
            k
        } else {
            0
        },
        top_level(cells, k) > 0 ==> !level_empty(cells, top_level(cells, k)),
        forall|j: int| top_level(cells, k) < j <= k ==> #[trigger] level_empty(cells, j),
    decreases k,
{
    if k > 0 {
        lemma_top_level(cells, k - 1);
    }
}

proof fn lemma_with_block(c: ChunkView, x: int, y: int, z: int, id: BlockId)
    requires
        c.wf(),
        0 <= cell_index(x, y, z) < CHUNK_VOLUME,
    ensures
        c.with_block(x, y, z, id).wf(),
{
    let i = cell_index(x, y, z);
    let after = c.with_block(x, y, z, id);
    lemma_top_level(after.cells, c.max_height);
    if id != BlockId(AIR) {
        assert(after.cells[i] != BlockId(AIR));
        if i / 1024 > c.max_height {
            assert(!level_empty(after.cells, i / 1024));
        } else if c.max_height > 0 {
            let j = choose|j: int|
                1024 * c.max_height <= j < 1024 * c.max_height + 1024 && #[trigger] c.cells[j]
                    != BlockId(AIR);
            assert(after.cells[j] != BlockId(AIR));
        }
    }
    assert forall|x2: int, y2: int, z2: int|
        0 <= x2 < CHUNK_SIZE && after.max_height < y2 < CHUNK_HEIGHT && 0 <= z2
            < CHUNK_SIZE implies #[trigger] after.at(x2, y2, z2) == BlockId(AIR) by {
        let k = cell_index(x2, y2, z2);
        if y2 > c.max_height {
            assert(c.at(x2, y2, z2) == BlockId(AIR));
            assert(k / 1024 == y2);
        } else {
            assert(level_empty(after.cells, y2));
            assert(after.cells[k] == BlockId(AIR));
        }
    }
}

/// A block put into a cell is read back from it, and no other cell changes.
pub proof fn law_set_get(
    c: ChunkView,
    x: int,
    y: int,
    z: int,
    id: BlockId,
    x2: int,
    y2: int,
    z2: int,
)
    requires
        c.wf(),
        0 <= x < CHUNK_SIZE,
        0 <= y < CHUNK_HEIGHT,
        0 <= z < CHUNK_SIZE,
        0 <= x2 < CHUNK_SIZE,
        0 <= y2 < CHUNK_HEIGHT,
        0 <= z2 < CHUNK_SIZE,
    ensures
        ({
            let after = c.with_block(x, y, z, id);
            after.at(x2, y2, z2) == if x2 == x && y2 == y && z2 == z {
                id
            } else {
                c.at(x2, y2, z2)
            }
        }),
{
}

/// A block that was put in marks the chunk as changed and leaves it where it is. There is nothing
/// but air above the highest level, at which there is something else.
pub proof fn law_set_marks(c: ChunkView, x: int, y: int, z: int, id: BlockId)
    requires
        c.wf(),
        0 <= x < CHUNK_SIZE,
        0 <= y < CHUNK_HEIGHT,
        0 <= z < CHUNK_SIZE,
    ensures
        ({
            let after = c.with_block(x, y, z, id);
            &&& after.dirty
            &&& after.origin == c.origin
            &&& forall|a: int, b: int, h: int|
                0 <= a < 32 && 0 <= b < 32 && after.max_height < h < 256
                    ==> (#[trigger] after.at(a, h, b)).0 == 0
            &&& after.max_height > 0 ==> exists|a: int, b: int|
                0 <= a < 32 && 0 <= b < 32 && (#[trigger] after.at(a, after.max_height, b)).0 != 0
        }),
{
    let after = c.with_block(x, y, z, id);
    lemma_with_block(c, x, y, z, id);
    if after.max_height > 0 {
        let h = after.max_height;
        let i = choose|i: int|
            1024 * h <= i < 1024 * h + 1024 && #[trigger] after.cells[i] != BlockId(AIR);
        let a = i % 32;
        let b = (i / 32) % 32;
        assert(cell_index(a, h, b) == i);
        assert(after.at(a, h, b).0 != 0);
    }
}

/// A new chunk is all air, and counts as changed.
pub proof fn law_air_chunk(origin: BlockPos, x: int, y: int, z: int)
    requires
        0 <= x < CHUNK_SIZE,
        0 <= y < CHUNK_HEIGHT,
        0 <= z < CHUNK_SIZE,
    ensures
        air_chunk(origin).at(x, y, z).0 == 0,
        air_chunk(origin).origin == origin,
        air_chunk(origin).max_height == 0,
        air_chunk(origin).dirty,
{
}

} // verus!
