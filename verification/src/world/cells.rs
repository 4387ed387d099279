//! The cells that the world is divided into, each with random numbers of its own.

use crate::world::coords::floor_div;
use vstd::prelude::*;

verus! {

/// Blocks along the side of a cell that holds a continent.
pub const CELL_SIZE: i32 = 4000;

/// Blocks along the side of a cell that has rock of one hardness.
pub const HARDNESS_CELL_SIZE: i32 = 400;

/// The cell that is `i`-th among the nine around the one that holds (wx, wz).
pub open spec fn cell_around(wx: int, wz: int, size: int, i: int) -> (int, int) {
    (wx / size - 1 + i / 3, wz / size - 1 + i % 3)
}

/// The cell that holds (wx, wz) and the eight around it.
pub fn cell_neighbourhood(wx: i32, wz: i32, size: i32) -> (r: Vec<(i32, i32)>)
    requires
        2 <= size,
    ensures
        r.len() == 9,
        forall|i: int|
            0 <= i < 9 ==> ((#[trigger] r[i]).0 as int, r[i].1 as int) == cell_around(
                wx as int,
                wz as int,
                size as int,
                i,
            ),
{
    let qx = floor_div(wx, size);
    let qz = floor_div(wz, size);
    proof {
        lemma_quotient_small(wx as int, size as int);
        lemma_quotient_small(wz as int, size as int);
    }
    let base_cx: i32 = qx - 1;
    let base_cz: i32 = qz - 1;
    let mut r: Vec<(i32, i32)> = Vec::new();
    let mut i: usize = 0;
    while i < 9
        invariant
            i <= 9,
            r.len() == i,
            base_cx == wx as int / size as int - 1,
            base_cz == wz as int / size as int - 1,
            -0x4000_0001 <= base_cx <= 0x4000_0000,
            -0x4000_0001 <= base_cz <= 0x4000_0000,
            forall|j: int|
                0 <= j < i ==> ((#[trigger] r[j]).0 as int, r[j].1 as int) == cell_around(
                    wx as int,
                    wz as int,
                    size as int,
                    j,
                ),
        decreases 9 - i,
    {
        r.push((base_cx + (i / 3) as i32, base_cz + (i % 3) as i32));
        i = i + 1;
    }
    r
}

proof fn lemma_quotient_small(x: int, n: int)
    requires
        2 <= n,
        -0x8000_0000 <= x < 0x8000_0000,
    ensures
        -0x4000_0000 <= x / n <= 0x4000_0000,
{
    let q = x / n;
    vstd::arithmetic::div_mod::lemma_fundamental_div_mod(x, n);
    assert(-0x4000_0000 <= q <= 0x4000_0000) by (nonlinear_arith)
        requires
            2 <= n,
            -0x8000_0000 <= x < 0x8000_0000,
            x == n * q + x % n,
            0 <= x % n < n,
    ;
}

/// All columns of a chunk lie in the same continent cell, so that one neighbourhood serves them
/// all.
pub proof fn law_chunk_in_one_cell(chunk_x: int, x: int)
    requires
        0 <= x < 32,
    ensures
        (chunk_x * 32 + x) / (CELL_SIZE as int) == (chunk_x * 32) / (CELL_SIZE as int),
{
    let a = chunk_x * 32;
    let r = a % 4000;
    assert(r % 32 == 0);
    assert(r <= 4000 - 32);
}

/// One round of mixing.
pub open spec fn mixed(h: u64, shift: u64, factor: u64) -> u64 {
    (h ^ (h >> shift)).wrapping_mul(factor)
}

/// A number that looks random, for a cell and one of its streams.
pub open spec fn hash_of(cx: i32, cz: i32, stream: u64) -> u64 {
    let h0 = (cx as u64).wrapping_mul(0x9e3779b97f4a7c15) ^ (cz as u64).wrapping_mul(
        0x6c62272e07bb0142,
    ) ^ stream.wrapping_mul(0xbf58476d1ce4e5b9);
    let h1 = mixed(h0, 30, 0xbf58476d1ce4e5b9);
    let h2 = mixed(h1, 27, 0x94d049bb133111eb);
    (h2 ^ (h2 >> 31u64)) >> 11u64
}

/// A number below 2^53 that looks random, for a cell and one of its streams. Divided by 2^53 it
/// gives a fraction below one.
pub fn cell_hash(cx: i32, cz: i32, stream: u64) -> (r: u64)
    ensures
        r == hash_of(cx, cz, stream),
        r < 0x20_0000_0000_0000,
{
    let mut h: u64 = (cx as u64).wrapping_mul(0x9e3779b97f4a7c15) ^ (cz as u64).wrapping_mul(
        0x6c62272e07bb0142,
    ) ^ stream.wrapping_mul(0xbf58476d1ce4e5b9);
    h = (h ^ (h >> 30u64)).wrapping_mul(0xbf58476d1ce4e5b9);
    h = (h ^ (h >> 27u64)).wrapping_mul(0x94d049bb133111eb);
    h = h ^ (h >> 31u64);
    assert(h >> 11u64 < 0x20_0000_0000_0000) by (bit_vector);
    h >> 11u64
}

/// The nine cells are those that touch the one that holds the position, which is in their middle,
/// and that one, in the order of x and then of z.
pub proof fn law_cells_around(wx: int, wz: int, size: int, dx: int, dz: int)
    requires
        0 < size,
        -1 <= dx <= 1,
        -1 <= dz <= 1,
    ensures
        ({
            let own = cell_around(wx, wz, size, 4);
            let c = cell_around(wx, wz, size, 4 + 3 * dx + dz);
            &&& size * own.0 <= wx < size * own.0 + size
            &&& size * own.1 <= wz < size * own.1 + size
            &&& c.0 == own.0 + dx
            &&& c.1 == own.1 + dz
        }),
{
    vstd::arithmetic::div_mod::lemma_fundamental_div_mod(wx, size);
    vstd::arithmetic::div_mod::lemma_fundamental_div_mod(wz, size);
    vstd::arithmetic::div_mod::lemma_mod_bound(wx, size);
    vstd::arithmetic::div_mod::lemma_mod_bound(wz, size);
    assert((4 + 3 * dx + dz) / 3 == 1 + dx);
    assert((4 + 3 * dx + dz) % 3 == 1 + dz);
}

} // verus!
