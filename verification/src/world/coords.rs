//! Positions of blocks and chunks.

use vstd::prelude::*;

verus! {

/// A position in whole blocks.
#[derive(Clone, Copy, PartialEq, Eq, Structural, Debug)]
pub struct BlockPos {
    pub x: i32,
    pub y: i32,
    pub z: i32,
}

/// A chunk column, counted in chunks.
#[derive(Clone, Copy, PartialEq, Eq, Structural, Debug)]
pub struct ChunkCoord {
    pub x: i32,
    pub z: i32,
}

/// A chunk whose blocks all have positions that an `i32` can hold.
pub open spec fn in_world(c: ChunkCoord) -> bool {
    -0x400_0000 <= c.x < 0x400_0000 && -0x400_0000 <= c.z < 0x400_0000
}

/// The chunk that holds the block column (x, z).
pub open spec fn chunk_of(x: int, z: int) -> ChunkCoord {
    ChunkCoord { x: (x / 32) as i32, z: (z / 32) as i32 }
}

/// The position of the lowest corner block of a chunk.
pub open spec fn origin_of(c: ChunkCoord) -> BlockPos {
    BlockPos { x: (c.x * 32) as i32, y: 0, z: (c.z * 32) as i32 }
}

pub open spec fn abs_diff(a: int, b: int) -> int {
    if a >= b {
        a - b
    } else {
        b - a
    }
}

/// Distance of two chunks, counted in king's moves.
pub open spec fn chebyshev(a: ChunkCoord, b: ChunkCoord) -> int {
    let dx = abs_diff(a.x as int, b.x as int);
    let dz = abs_diff(a.z as int, b.z as int);
    if dx >= dz {
        dx
    } else {
        dz
    }
}

/// Squared distance of two chunks.
pub open spec fn distance2(a: ChunkCoord, b: ChunkCoord) -> int {
    (a.x - b.x) * (a.x - b.x) + (a.z - b.z) * (a.z - b.z)
}

/// Quotient of `x` by a positive number, rounded down.
pub fn floor_div(x: i32, n: i32) -> (r: i32)
    requires
        n > 0,
    ensures
        r as int == x as int / n as int,
{
    if x >= 0 {
        x / n
    } else {
        let y: i32 = -1 - x;
        let q: i32 = y / n;
        proof {
            let nn: int = n as int;
            vstd::arithmetic::div_mod::lemma_fundamental_div_mod(y as int, nn);
            vstd::arithmetic::div_mod::lemma_div_pos_is_pos(y as int, nn);
            assert(x as int == nn * (-1 - q as int) + (nn - 1 - y as int % nn)) by (nonlinear_arith)
                requires
                    y as int == nn * (q as int) + y as int % nn,
                    x as int == -1 - y as int,
            ;
            vstd::arithmetic::div_mod::lemma_fundamental_div_mod_converse(
                x as int,
                nn,
                -1 - q as int,
                nn - 1 - y as int % nn,
            );
        }
        -1 - q
    }
}

/// Remainder of that division: how far `x` is above the multiple of `n` below it.
pub fn floor_mod(x: i32, n: i32) -> (r: i32)
    requires
        n > 0,
    ensures
        r as int == x as int % n as int,
        0 <= r < n,
{
    if x >= 0 {
        x % n
    } else {
        let y: i32 = -1 - x;
        let m: i32 = y % n;
        proof {
            let nn: int = n as int;
            vstd::arithmetic::div_mod::lemma_fundamental_div_mod(y as int, nn);
            let q = y as int / nn;
            assert(x as int == nn * (-1 - q) + (nn - 1 - m)) by (nonlinear_arith)
                requires
                    y as int == nn * q + m as int,
                    x as int == -1 - y as int,
            ;
            vstd::arithmetic::div_mod::lemma_fundamental_div_mod_converse(
                x as int,
                nn,
                -1 - q,
                nn - 1 - m,
            );
        }
        n - 1 - m
    }
}

// ── What they mean ───────────────────────────────────────────────────────────

/// The chunk that holds a column begins at a multiple of 32 no farther than 31 blocks before it,
/// and that is where its origin is.
pub proof fn law_chunk_of(x: i32, z: i32)
    ensures
        ({
            let c = chunk_of(x as int, z as int);
            let o = origin_of(c);
            &&& 32 * c.x <= x < 32 * c.x + 32
            &&& 32 * c.z <= z < 32 * c.z + 32
            &&& in_world(c)
            &&& o.x == 32 * c.x
            &&& o.y == 0
            &&& o.z == 32 * c.z
        }),
{
}

/// The distance of two chunks is that along the axis where they are farther apart.
pub proof fn law_chebyshev(a: ChunkCoord, b: ChunkCoord, r: int)
    ensures
        chebyshev(a, b) <= r <==> -r <= a.x - b.x <= r && -r <= a.z - b.z <= r,
        chebyshev(a, b) >= 0,
        chebyshev(a, b) == chebyshev(b, a),
        chebyshev(a, b) == 0 <==> a == b,
{
}

/// The squared distance of two chunks is the sum of the squares along both axes.
pub proof fn law_distance2(a: ChunkCoord, b: ChunkCoord, dx: int, dz: int)
    requires
        a.x == b.x + dx,
        a.z == b.z + dz,
    ensures
        distance2(a, b) == dx * dx + dz * dz,
{
}

} // verus!
