//! From the heights of the land to the blocks of a chunk.

use crate::world::block::{BlockId, AIR, DIRT, STONE, WATER};
use crate::world::chunk::{
    cell_index, Chunk, ChunkView, CHUNK_HEIGHT, CHUNK_SIZE, CHUNK_VOLUME,
};
use crate::world::coords::BlockPos;
use vstd::prelude::*;

verus! {

/// The level of the surface of the sea.
pub const SEA_LEVEL: usize = 120;

/// Columns of a chunk.
pub const CHUNK_AREA: usize = 1024;

/// Heights are sampled every few blocks and interpolated in between.
pub const GRID_STRIDE: usize = 4;

/// Sample points along a side of a chunk.
pub const GRID_DIM: usize = 9;

/// A level that a column can have: there is always ground, and it stays below the top.
pub open spec fn column_level(n: int) -> int {
    if n < 1 {
        1
    } else if n > 255 {
        255
    } else {
        n
    }
}

/// The heights of the columns of a chunk, along X first, and whether they are below the sea.
#[verifier::ext_equal]
pub struct HeightView {
    pub surface: Seq<u16>,
    pub ocean: Seq<bool>,
}

impl HeightView {
    pub open spec fn wf(self) -> bool {
        &&& self.surface.len() == CHUNK_AREA
        &&& self.ocean.len() == CHUNK_AREA
        &&& forall|i: int| 0 <= i < CHUNK_AREA ==> 1 <= #[trigger] self.surface[i] <= 255
    }

    /// The level of the highest block of column `i`.
    pub open spec fn top(self, i: int) -> int {
        if self.ocean[i] && self.surface[i] < SEA_LEVEL {
            SEA_LEVEL as int
        } else {
            self.surface[i] as int
        }
    }

    /// The highest of the first `k` columns.
    pub open spec fn top_to(self, k: int) -> int
        decreases k,
    {
        if k <= 0 {
            0
        } else if self.top(k - 1) > self.top_to(k - 1) {
            self.top(k - 1)
        } else {
            self.top_to(k - 1)
        }
    }

    /// The highest dry column among the first `k`, or the sea.
    pub open spec fn dry_top_to(self, k: int) -> int
        decreases k,
    {
        if k <= 0 {
            SEA_LEVEL as int
        } else if !self.ocean[k - 1] && self.surface[k - 1] > self.dry_top_to(k - 1) {
            self.surface[k - 1] as int
        } else {
            self.dry_top_to(k - 1)
        }
    }

    /// The block at level `y` of column `i`: stone below the surface, which is grown over on dry
    /// land, and water above it up to the sea.
    pub open spec fn block(self, i: int, y: int) -> BlockId {
        if y < self.surface[i] {
            BlockId(STONE)
        } else if y == self.surface[i] {
            if self.ocean[i] {
                BlockId(STONE)
            } else {
                BlockId(DIRT)
            }
        } else if self.ocean[i] && y <= SEA_LEVEL {
            BlockId(WATER)
        } else {
            BlockId(AIR)
        }
    }
}

/// The chunk at `origin` with land of the given heights.
pub open spec fn land_chunk(origin: BlockPos, h: HeightView) -> ChunkView {
    ChunkView {
        origin,
        dirty: true,
        max_height: h.top_to(CHUNK_AREA as int),
        cells: Seq::new(CHUNK_VOLUME as nat, |i: int| h.block(i % 1024, i / 1024)),
    }
}

/// The heights of the columns of a chunk.
pub struct HeightField {
    surface: Vec<u16>,
    ocean: Vec<bool>,
}

impl View for HeightField {
    type V = HeightView;

    closed spec fn view(&self) -> HeightView {
        HeightView { surface: self.surface@, ocean: self.ocean@ }
    }
}

impl HeightField {
    #[verifier::type_invariant]
    spec fn inv(self) -> bool {
        self@.wf()
    }

    /// Heights that are well formed, as all of this type are.
    pub fn checked(&self)
        ensures
            self@.wf(),
    {
        proof {
            use_type_invariant(self);
        }
    }

    /// Makes heights of the rounded levels of the columns.
    pub fn new(levels: &Vec<usize>, ocean: &Vec<bool>) -> (r: HeightField)
        requires
            levels.len() == CHUNK_AREA,
            ocean.len() == CHUNK_AREA,
        ensures
            r@.wf(),
            r@.ocean == ocean@,
            forall|i: int|
                0 <= i < CHUNK_AREA ==> #[trigger] r@.surface[i] == column_level(levels[i] as int),
    {
        let mut surface: Vec<u16> = Vec::new();
        let mut flags: Vec<bool> = Vec::new();
        let mut i: usize = 0;
        while i < CHUNK_AREA
            invariant
                levels.len() == CHUNK_AREA,
                ocean.len() == CHUNK_AREA,
                i <= CHUNK_AREA,
                surface.len() == i,
                flags@ == ocean@.take(i as int),
                forall|j: int|
                    0 <= j < i ==> #[trigger] surface[j] == column_level(levels[j] as int),
            decreases CHUNK_AREA - i,
        {
            let n: usize = levels[i];
            let level: u16 = if n < 1 {
                1
            } else if n > 255 {
                255
            } else {
                n as u16
            };
            surface.push(level);
            flags.push(ocean[i]);
            assert(flags@ =~= ocean@.take(i + 1));
            i = i + 1;
        }
        assert(ocean@.take(i as int) =~= ocean@);
        let ghost v = HeightView { surface: surface@, ocean: flags@ };
        assert(v.wf());
        HeightField { surface, ocean: flags }
    }

    /// The level of the surface of column `i`.
    pub fn surface(&self, i: usize) -> (r: usize)
        requires
            i < CHUNK_AREA,
        ensures
            r == self@.surface[i as int],
            1 <= r <= 255,
    {
        proof {
            use_type_invariant(self);
        }
        let r = self.surface[i];
        assert(1 <= self@.surface[i as int] <= 255);
        r as usize
    }

    /// Whether column `i` is below the sea.
    pub fn is_ocean(&self, i: usize) -> (r: bool)
        requires
            i < CHUNK_AREA,
        ensures
            r == self@.ocean[i as int],
    {
        proof {
            use_type_invariant(self);
        }
        self.ocean[i]
    }

    /// The level of the highest dry land, or of the sea if that is higher.
    pub fn max_level(&self) -> (r: usize)
        ensures
            r == self@.dry_top_to(CHUNK_AREA as int),
    {
        let mut max: usize = SEA_LEVEL;
        let mut i: usize = 0;
        while i < CHUNK_AREA
            invariant
                i <= CHUNK_AREA,
                max == self@.dry_top_to(i as int),
            decreases CHUNK_AREA - i,
        {
            let s = self.surface(i);
            if !self.is_ocean(i) && s > max {
                max = s;
            }
            i = i + 1;
        }
        max
    }
}

/// Where column `x` of a chunk lies between the sample points: the ones before and after it, and
/// how many blocks it is away from the first.
pub fn grid_cell(x: usize) -> (r: (usize, usize, usize))
    requires
        x < CHUNK_SIZE,
    ensures
        r.0 * GRID_STRIDE + r.2 == x,
        r.2 < GRID_STRIDE,
        r.1 == r.0 + 1,
        r.1 < GRID_DIM,
{
    let g: usize = x / GRID_STRIDE;
    let next: usize = if g + 1 < GRID_DIM - 1 {
        g + 1
    } else {
        GRID_DIM - 1
    };
    (g, next, x % GRID_STRIDE)
}

/// The position of sample point `g` along one axis of the chunk that starts at `origin`.
pub fn grid_position(origin: i32, g: usize) -> (r: i32)
    requires
        g < GRID_DIM,
        origin + 4 * g <= i32::MAX,
    ensures
        r == origin + GRID_STRIDE * g,
{
    origin + (g * GRID_STRIDE) as i32
}

/// A terrain that gives the same heights for a place every time.
pub open spec fn deterministic<F: Fn(i32, i32) -> HeightField>(f: F) -> bool {
    &&& forall|x: i32, z: i32| #[trigger] call_requires(f, (x, z))
    &&& forall|x: i32, z: i32, a: HeightField, b: HeightField|
        #[trigger] call_ensures(f, (x, z), a) && #[trigger] call_ensures(f, (x, z), b) ==> a@ == b@
}

/// The heights that a terrain gives for the chunk that starts at (x, z).
pub open spec fn heights_at<F: Fn(i32, i32) -> HeightField>(f: F, x: i32, z: i32) -> HeightView {
    (choose|h: HeightField| call_ensures(f, (x, z), h))@
}

/// The chunk that a terrain gives at `origin`.
pub open spec fn generated<F: Fn(i32, i32) -> HeightField>(f: F, origin: BlockPos) -> ChunkView {
    land_chunk(origin, heights_at(f, origin.x, origin.z))
}

/// The blocks of a chunk when those of the first `k` columns, and those below `y` in column `k`,
/// are in place.
spec fn partly_filled(cells: Seq<BlockId>, h: HeightView, k: int, y: int) -> bool {
    &&& cells.len() == CHUNK_VOLUME
    &&& forall|i: int|
        0 <= i < CHUNK_VOLUME ==> #[trigger] cells[i] == if i % 1024 < k || (i % 1024 == k && i
            / 1024 < y) {
            h.block(i % 1024, i / 1024)
        } else {
            BlockId(AIR)
        }
}

/// Builds the chunk at `origin` from its heights.
pub fn fill_chunk(origin: BlockPos, heights: &HeightField) -> (chunk: Chunk)
    ensures
        chunk@ == land_chunk(origin, heights@),
        chunk@.wf(),
{
    let ghost h = heights@;
    heights.checked();
    let mut chunk = Chunk::new(origin);
    let mut k: usize = 0;
    while k < CHUNK_AREA
        invariant
            k <= CHUNK_AREA,
            h == heights@,
            h.wf(),
            chunk@.wf(),
            chunk@.origin == origin,
            chunk@.dirty,
            chunk@.max_height == h.top_to(k as int),
            partly_filled(chunk@.cells, h, k as int, 0),
        decreases CHUNK_AREA - k,
    {
        let s = heights.surface(k);
        let ocean = heights.is_ocean(k);
        let x: usize = k % CHUNK_SIZE;
        let z: usize = k / CHUNK_SIZE;
        let top: usize = if ocean && s < SEA_LEVEL {
            SEA_LEVEL
        } else {
            s
        };
        let mut y: usize = 0;
        while y <= top
            invariant
                k < CHUNK_AREA,
                h == heights@,
                h.wf(),
                s == h.surface[k as int],
                ocean == h.ocean[k as int],
                top == h.top(k as int),
                top < CHUNK_HEIGHT,
                x == k % 32,
                z == k / 32,
                y <= top + 1,
                chunk@.wf(),
                chunk@.origin == origin,
                chunk@.dirty,
                chunk@.max_height == if y > h.top_to(k as int) {
                    y - 1
                } else {
                    h.top_to(k as int)
                },
                partly_filled(chunk@.cells, h, k as int, y as int),
            decreases top + 1 - y,
        {
            let id: u16 = if y < s {
                STONE
            } else if y == s {
                if ocean {
                    STONE
                } else {
                    DIRT
                }
            } else {
                WATER
            };
            let ghost before = chunk@.cells;
            let ghost at = cell_index(x as int, y as int, z as int);
            chunk.set(x, y, z, BlockId(id));
            proof {
                assert(at == k + y * 1024);
                assert(at % 1024 == k && at / 1024 == y);
                assert(BlockId(id) == h.block(k as int, y as int));
                assert forall|i: int| 0 <= i < CHUNK_VOLUME implies #[trigger] chunk@.cells[i]
                    == if i % 1024 < k || (i % 1024 == k && i / 1024 < y + 1) {
                    h.block(i % 1024, i / 1024)
                } else {
                    BlockId(AIR)
                } by {
                    if i != at {
                        assert(chunk@.cells[i] == before[i]);
                        assert(!(i % 1024 == k && i / 1024 == y));
                    }
                }
            }
            y = y + 1;
        }
        proof {
            assert forall|i: int| 0 <= i < CHUNK_VOLUME implies #[trigger] chunk@.cells[i] == if i
                % 1024 < k + 1 {
                h.block(i % 1024, i / 1024)
            } else {
                BlockId(AIR)
            } by {}
        }
        k = k + 1;
    }
    assert(chunk@.cells =~= land_chunk(origin, h).cells);
    chunk
}

/// Builds the chunk at `origin` from what the terrain is there.
pub fn generate<F: Fn(i32, i32) -> HeightField>(terrain: &F, origin: BlockPos) -> (chunk: Chunk)
    requires
        deterministic(*terrain),
    ensures
        chunk@ == generated(*terrain, origin),
        chunk@.wf(),
{
    let heights = terrain(origin.x, origin.z);
    assert(call_ensures(*terrain, (origin.x, origin.z), heights));
    fill_chunk(origin, &heights)
}

// ── What the land is like ────────────────────────────────────────────────────

/// The heights of a chunk are given along X first: column (x, z) has the height at x + 32 z. Below
/// it there is stone; at it there is dirt, or stone under the sea; above it there is water up to
/// level 120 where the sea is, and air elsewhere.
pub proof fn law_land(origin: BlockPos, h: HeightView, x: int, y: int, z: int)
    requires
        h.wf(),
        0 <= x < 32,
        0 <= y < 256,
        0 <= z < 32,
    ensures
        ({
            let level = h.surface[x + 32 * z];
            let sea = h.ocean[x + 32 * z];
            let c = land_chunk(origin, h);
            &&& c.origin == origin && c.dirty
            &&& y < level ==> c.at(x, y, z).0 == 2
            &&& y == level ==> c.at(x, y, z).0 == if sea {
                2u16
            } else {
                1u16
            }
            &&& y > level && sea && y <= 120 ==> c.at(x, y, z).0 == 4
            &&& y > level && (!sea || y > 120) ==> c.at(x, y, z).0 == 0
        }),
{
    let i = x + 32 * z + 1024 * y;
    assert(cell_index(x, y, z) == i);
    assert(i % 1024 == x + 32 * z && i / 1024 == y);
}

/// A chunk is made of the heights that the terrain gives for the column of its origin.
pub proof fn law_generated<F: Fn(i32, i32) -> HeightField>(
    f: F,
    origin: BlockPos,
    h: HeightField,
)
    requires
        deterministic(f),
        call_ensures(f, (origin.x, origin.z), h),
    ensures
        generated(f, origin) == land_chunk(origin, h@),
{
}

/// Levels that a column can have stay as they are, and others go to the nearest one.
pub proof fn law_column_level(n: int)
    ensures
        1 <= column_level(n) <= 255,
        1 <= n <= 255 ==> column_level(n) == n,
        n < 1 ==> column_level(n) == 1,
        n > 255 ==> column_level(n) == 255,
{
}

/// No dry column is higher than the highest land, which is a dry column or the level of the sea.
pub proof fn law_max_level(h: HeightView, k: int, i: int)
    requires
        0 <= k <= 1024,
    ensures
        h.dry_top_to(k) >= 120,
        0 <= i < k && !h.ocean[i] ==> h.surface[i] <= h.dry_top_to(k),
        h.dry_top_to(k) == 120 || exists|j: int|
            0 <= j < k && !h.ocean[j] && #[trigger] h.surface[j] == h.dry_top_to(k),
    decreases k,
{
    if k > 0 {
        law_max_level(h, k - 1, i);
        if !h.ocean[k - 1] && h.surface[k - 1] > h.dry_top_to(k - 1) {
            assert(h.surface[k - 1] == h.dry_top_to(k));
        } else if h.dry_top_to(k) != 120 {
            let j = choose|j: int|
                0 <= j < k - 1 && !h.ocean[j] && #[trigger] h.surface[j] == h.dry_top_to(k - 1);
            assert(h.surface[j] == h.dry_top_to(k));
        }
    }
}

} // verus!
