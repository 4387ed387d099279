//! What a chunk knows of its neighbours.

use crate::world::block::{is_opaque, opaque};
use crate::world::chunk::{Chunk, ChunkView, CHUNK_HEIGHT, CHUNK_SIZE};
use vstd::prelude::*;

verus! {

/// One bit for each (y, lateral) pair on a chunk face; lateral is z for X-faces, x for Z-faces.
/// The bit index is y * CHUNK_SIZE + lateral.
pub const FACE_BYTES: usize = 1024;

/// Which blocks on the four vertical sides of a chunk are opaque.
/// Neighbours use it to leave out the quads that it hides.
#[derive(Clone, Copy)]
pub struct ChunkFaceData {
    /// Blocks (0, y, z).
    pub neg_x: [u8; FACE_BYTES],
    /// Blocks (CHUNK_SIZE - 1, y, z).
    pub pos_x: [u8; FACE_BYTES],
    /// Blocks (x, y, 0).
    pub neg_z: [u8; FACE_BYTES],
    /// Blocks (x, y, CHUNK_SIZE - 1).
    pub pos_z: [u8; FACE_BYTES],
}

/// The neighbours' masks on the four sides of a chunk; `None` where the neighbour is not loaded.
#[derive(Clone, Copy)]
pub struct NeighborMasks {
    /// neg_x face of the +X neighbour
    pub pos_x: Option<[u8; FACE_BYTES]>,
    /// pos_x face of the -X neighbour
    pub neg_x: Option<[u8; FACE_BYTES]>,
    /// neg_z face of the +Z neighbour
    pub pos_z: Option<[u8; FACE_BYTES]>,
    /// pos_z face of the -Z neighbour
    pub neg_z: Option<[u8; FACE_BYTES]>,
}

/// Bit `k` of a byte.
pub open spec fn bit(byte: u8, k: int) -> bool {
    (byte >> (k as u8)) & 1u8 != 0
}

/// The bit of a mask for (y, lateral).
pub open spec fn solid_in(mask: [u8; FACE_BYTES], y: int, lateral: int) -> bool {
    bit(mask[(y * 32 + lateral) / 8], (y * 32 + lateral) % 8)
}

/// `mask` holds the opacity of a chunk's blocks at x = `x`.
pub open spec fn masks_x_side(mask: [u8; FACE_BYTES], c: ChunkView, x: int) -> bool {
    forall|y: int, z: int|
        0 <= y < CHUNK_HEIGHT && 0 <= z < CHUNK_SIZE ==> #[trigger] solid_in(mask, y, z)
            == opaque(c.at(x, y, z))
}

/// `mask` holds the opacity of a chunk's blocks at z = `z`.
pub open spec fn masks_z_side(mask: [u8; FACE_BYTES], c: ChunkView, z: int) -> bool {
    forall|y: int, x: int|
        0 <= y < CHUNK_HEIGHT && 0 <= x < CHUNK_SIZE ==> #[trigger] solid_in(mask, y, x)
            == opaque(c.at(x, y, z))
}

/// The face data that belongs to a chunk.
pub open spec fn face_data_of(d: ChunkFaceData, c: ChunkView) -> bool {
    &&& masks_x_side(d.neg_x, c, 0)
    &&& masks_x_side(d.pos_x, c, 31)
    &&& masks_z_side(d.neg_z, c, 0)
    &&& masks_z_side(d.pos_z, c, 31)
}

/// The face data of a chunk.
pub open spec fn faces_of(c: ChunkView) -> ChunkFaceData {
    choose|d: ChunkFaceData| face_data_of(d, c)
}

proof fn lemma_byte_bits(a: u8, b: u8)
    requires
        forall|k: int| 0 <= k < 8 ==> #[trigger] bit(a, k) == bit(b, k),
    ensures
        a == b,
{
    assert(bit(a, 0) == bit(b, 0));
    assert(bit(a, 1) == bit(b, 1));
    assert(bit(a, 2) == bit(b, 2));
    assert(bit(a, 3) == bit(b, 3));
    assert(bit(a, 4) == bit(b, 4));
    assert(bit(a, 5) == bit(b, 5));
    assert(bit(a, 6) == bit(b, 6));
    assert(bit(a, 7) == bit(b, 7));
    assert(a == b) by (bit_vector)
        requires
            ((a >> 0u8) & 1u8 != 0) == ((b >> 0u8) & 1u8 != 0),
            ((a >> 1u8) & 1u8 != 0) == ((b >> 1u8) & 1u8 != 0),
            ((a >> 2u8) & 1u8 != 0) == ((b >> 2u8) & 1u8 != 0),
            ((a >> 3u8) & 1u8 != 0) == ((b >> 3u8) & 1u8 != 0),
            ((a >> 4u8) & 1u8 != 0) == ((b >> 4u8) & 1u8 != 0),
            ((a >> 5u8) & 1u8 != 0) == ((b >> 5u8) & 1u8 != 0),
            ((a >> 6u8) & 1u8 != 0) == ((b >> 6u8) & 1u8 != 0),
            ((a >> 7u8) & 1u8 != 0) == ((b >> 7u8) & 1u8 != 0),
    ;
}

/// Masks with the same bits are the same.
proof fn lemma_mask_unique(a: [u8; FACE_BYTES], b: [u8; FACE_BYTES])
    requires
        forall|y: int, l: int|
            0 <= y < CHUNK_HEIGHT && 0 <= l < CHUNK_SIZE ==> #[trigger] solid_in(a, y, l)
                == solid_in(b, y, l),
    ensures
        a == b,
{
    assert forall|i: int| 0 <= i < FACE_BYTES implies #[trigger] a[i] == b[i] by {
        assert forall|k: int| 0 <= k < 8 implies #[trigger] bit(a[i], k) == bit(b[i], k) by {
            let n = i * 8 + k;
            let y = n / 32;
            let l = n % 32;
            assert(y * 32 + l == n);
            assert(n / 8 == i && n % 8 == k);
            assert(solid_in(a, y, l) == solid_in(b, y, l));
        }
        lemma_byte_bits(a[i], b[i]);
    }
    assert(a =~= b);
}

/// A chunk has only one face data.
pub proof fn law_face_data_unique(a: ChunkFaceData, b: ChunkFaceData, c: ChunkView)
    requires
        face_data_of(a, c),
        face_data_of(b, c),
    ensures
        a == b,
{
    lemma_mask_unique(a.neg_x, b.neg_x);
    lemma_mask_unique(a.pos_x, b.pos_x);
    lemma_mask_unique(a.neg_z, b.neg_z);
    lemma_mask_unique(a.pos_z, b.pos_z);
}

proof fn lemma_set_bit(byte: u8, k: u8)
    requires
        k < 8,
    ensures
        bit(byte | (1u8 << k), k as int),
        forall|j: int| 0 <= j < 8 && j != k ==> #[trigger] bit(byte | (1u8 << k), j) == bit(byte, j),
{
    assert(((byte | (1u8 << k)) >> k) & 1u8 != 0) by (bit_vector)
        requires
            k < 8,
    ;
    assert forall|j: int| 0 <= j < 8 && j != k implies #[trigger] bit(byte | (1u8 << k), j) == bit(
        byte,
        j,
    ) by {
        let i = j as u8;
        assert(((byte | (1u8 << k)) >> i) & 1u8 == (byte >> i) & 1u8) by (bit_vector)
            requires
                k < 8,
                i < 8,
                i != k,
        ;
    }
}

/// Bits of rows below `y`, and those of row `y` below `lat`, are those of `want`; later bits are 0.
spec fn filled(
    mask: [u8; FACE_BYTES],
    want: spec_fn(int, int) -> bool,
    y: int,
    lat: int,
) -> bool {
    forall|y2: int, l2: int|
        0 <= y2 < CHUNK_HEIGHT && 0 <= l2 < CHUNK_SIZE ==> #[trigger] solid_in(mask, y2, l2) == ((y2
            < y || y2 == y && l2 < lat) && want(y2, l2))
}

fn set_mask_bit(
    mask: &mut [u8; FACE_BYTES],
    y: usize,
    lat: usize,
    on: bool,
    Ghost(want): Ghost<spec_fn(int, int) -> bool>,
)
    requires
        y < CHUNK_HEIGHT,
        lat < CHUNK_SIZE,
        filled(*old(mask), want, y as int, lat as int),
        on == want(y as int, lat as int),
    ensures
        filled(*final(mask), want, y as int, lat + 1),
{
    let bit_index: usize = y * CHUNK_SIZE + lat;
    if on {
        let ghost before = *mask;
        let k: u8 = (bit_index % 8) as u8;
        mask[bit_index / 8] = mask[bit_index / 8] | (1u8 << k);
        proof {
            lemma_set_bit(before[bit_index as int / 8], k);
            assert forall|y2: int, l2: int|
                0 <= y2 < CHUNK_HEIGHT && 0 <= l2 < CHUNK_SIZE implies #[trigger] solid_in(
                *mask,
                y2,
                l2,
            ) == ((y2 < y || y2 == y && l2 < lat + 1) && want(y2, l2)) by {
                assert(solid_in(before, y2, l2) == ((y2 < y || y2 == y && l2 < lat) && want(
                    y2,
                    l2,
                )));
            }
        }
    } else {
        proof {
            assert forall|y2: int, l2: int|
                0 <= y2 < CHUNK_HEIGHT && 0 <= l2 < CHUNK_SIZE implies #[trigger] solid_in(
                *mask,
                y2,
                l2,
            ) == ((y2 < y || y2 == y && l2 < lat + 1) && want(y2, l2)) by {
                assert(solid_in(*old(mask), y2, l2) == ((y2 < y || y2 == y && l2 < lat) && want(
                    y2,
                    l2,
                )));
            }
        }
    }
}

proof fn lemma_next_row(mask: [u8; FACE_BYTES], want: spec_fn(int, int) -> bool, y: int)
    requires
        filled(mask, want, y, 32),
    ensures
        filled(mask, want, y + 1, 0),
{
    assert forall|y2: int, l2: int|
        0 <= y2 < CHUNK_HEIGHT && 0 <= l2 < CHUNK_SIZE implies #[trigger] solid_in(mask, y2, l2)
        == ((y2 < y + 1 || y2 == y + 1 && l2 < 0) && want(y2, l2)) by {
        assert(solid_in(mask, y2, l2) == ((y2 < y || y2 == y && l2 < 32) && want(y2, l2)));
    }
}

impl ChunkFaceData {
    /// Records which blocks on the four sides of a chunk are opaque.
    pub fn extract(chunk: &Chunk) -> (r: ChunkFaceData)
        requires
            chunk@.wf(),
        ensures
            face_data_of(r, chunk@),
            r == faces_of(chunk@),
    {
        let mut neg_x = [0u8; FACE_BYTES];
        let mut pos_x = [0u8; FACE_BYTES];
        let mut neg_z = [0u8; FACE_BYTES];
        let mut pos_z = [0u8; FACE_BYTES];
        let ghost c = chunk@;
        let ghost want_nx = |y: int, l: int| opaque(c.at(0, y, l));
        let ghost want_px = |y: int, l: int| opaque(c.at(31, y, l));
        let ghost want_nz = |y: int, l: int| opaque(c.at(l, y, 0));
        let ghost want_pz = |y: int, l: int| opaque(c.at(l, y, 31));
        proof {
            assert forall|k: int| 0 <= k < 8 implies !#[trigger] bit(0u8, k) by {
                let i = k as u8;
                assert((0u8 >> i) & 1u8 == 0) by (bit_vector);
            }
        }
        for y in 0..CHUNK_HEIGHT
            invariant
                chunk@.wf(),
                c == chunk@,
                want_nx == (|y: int, l: int| opaque(c.at(0, y, l))),
                want_px == (|y: int, l: int| opaque(c.at(31, y, l))),
                want_nz == (|y: int, l: int| opaque(c.at(l, y, 0))),
                want_pz == (|y: int, l: int| opaque(c.at(l, y, 31))),
                filled(neg_x, want_nx, y as int, 0),
                filled(pos_x, want_px, y as int, 0),
                filled(neg_z, want_nz, y as int, 0),
                filled(pos_z, want_pz, y as int, 0),
        {
            for z in 0..CHUNK_SIZE
                invariant
                    chunk@.wf(),
                    c == chunk@,
                    y < CHUNK_HEIGHT,
                    want_nx == (|y: int, l: int| opaque(c.at(0, y, l))),
                    want_px == (|y: int, l: int| opaque(c.at(31, y, l))),
                    filled(neg_x, want_nx, y as int, z as int),
                    filled(pos_x, want_px, y as int, z as int),
            {
                set_mask_bit(&mut neg_x, y, z, is_opaque(chunk.get(0, y, z)), Ghost(want_nx));
                set_mask_bit(
                    &mut pos_x,
                    y,
                    z,
                    is_opaque(chunk.get(CHUNK_SIZE - 1, y, z)),
                    Ghost(want_px),
                );
            }
            for x in 0..CHUNK_SIZE
                invariant
                    chunk@.wf(),
                    c == chunk@,
                    y < CHUNK_HEIGHT,
                    want_nz == (|y: int, l: int| opaque(c.at(l, y, 0))),
                    want_pz == (|y: int, l: int| opaque(c.at(l, y, 31))),
                    filled(neg_z, want_nz, y as int, x as int),
                    filled(pos_z, want_pz, y as int, x as int),
            {
                set_mask_bit(&mut neg_z, y, x, is_opaque(chunk.get(x, y, 0)), Ghost(want_nz));
                set_mask_bit(
                    &mut pos_z,
                    y,
                    x,
                    is_opaque(chunk.get(x, y, CHUNK_SIZE - 1)),
                    Ghost(want_pz),
                );
            }
            proof {
                lemma_next_row(neg_x, want_nx, y as int);
                lemma_next_row(pos_x, want_px, y as int);
                lemma_next_row(neg_z, want_nz, y as int);
                lemma_next_row(pos_z, want_pz, y as int);
            }
        }
        let r = ChunkFaceData { neg_x, pos_x, neg_z, pos_z };
        proof {
            assert(face_data_of(r, c));
            law_face_data_unique(r, faces_of(c), c);
        }
        r
    }
}

/// Is the block at (y, lateral) opaque according to `mask`?
/// lateral is z for X-direction faces, x for Z-direction faces.
pub fn mask_solid(mask: &[u8; FACE_BYTES], y: usize, lateral: usize) -> (r: bool)
    requires
        y * 32 + lateral < 8 * FACE_BYTES,
    ensures
        r == solid_in(*mask, y as int, lateral as int),
{
    let bit_index: usize = y * CHUNK_SIZE + lateral;
    let k: u8 = (bit_index % 8) as u8;
    (mask[bit_index / 8] >> k) & 1 != 0
}

/// A side of a chunk is kept in four bytes for each level of height, and a byte holds eight blocks
/// beside each other, the first in its lowest bit.
pub proof fn law_mask_bits(mask: [u8; FACE_BYTES], y: int, b: int)
    requires
        0 <= y < 256,
        0 <= b < 4,
    ensures
        ({
            let byte = mask[4 * y + b] as int;
            &&& solid_in(mask, y, 8 * b) <==> byte % 2 == 1
            &&& solid_in(mask, y, 8 * b + 1) <==> byte / 2 % 2 == 1
            &&& solid_in(mask, y, 8 * b + 2) <==> byte / 4 % 2 == 1
            &&& solid_in(mask, y, 8 * b + 3) <==> byte / 8 % 2 == 1
            &&& solid_in(mask, y, 8 * b + 4) <==> byte / 16 % 2 == 1
            &&& solid_in(mask, y, 8 * b + 5) <==> byte / 32 % 2 == 1
            &&& solid_in(mask, y, 8 * b + 6) <==> byte / 64 % 2 == 1
            &&& solid_in(mask, y, 8 * b + 7) <==> byte / 128 % 2 == 1
        }),
{
    let v = mask[4 * y + b];
    assert(((v >> 0u8) & 1u8 != 0) == (v % 2 == 1) && ((v >> 1u8) & 1u8 != 0) == (v / 2 % 2 == 1)
        && ((v >> 2u8) & 1u8 != 0) == (v / 4 % 2 == 1) && ((v >> 3u8) & 1u8 != 0) == (v / 8 % 2
        == 1) && ((v >> 4u8) & 1u8 != 0) == (v / 16 % 2 == 1) && ((v >> 5u8) & 1u8 != 0) == (v / 32
        % 2 == 1) && ((v >> 6u8) & 1u8 != 0) == (v / 64 % 2 == 1) && ((v >> 7u8) & 1u8 != 0) == (v
        / 128 % 2 == 1)) by (bit_vector);
    let n = y * 32 + 8 * b;
    assert(n / 8 == 4 * y + b && n % 8 == 0);
}

/// The sides of a chunk are its outermost blocks, and a block counts if it is neither air nor water.
pub proof fn law_face_data(d: ChunkFaceData, c: ChunkView, y: int, l: int)
    requires
        face_data_of(d, c),
        0 <= y < 256,
        0 <= l < 32,
    ensures
        solid_in(d.neg_x, y, l) <==> c.at(0, y, l).0 != 0 && c.at(0, y, l).0 != 4,
        solid_in(d.pos_x, y, l) <==> c.at(31, y, l).0 != 0 && c.at(31, y, l).0 != 4,
        solid_in(d.neg_z, y, l) <==> c.at(l, y, 0).0 != 0 && c.at(l, y, 0).0 != 4,
        solid_in(d.pos_z, y, l) <==> c.at(l, y, 31).0 != 0 && c.at(l, y, 31).0 != 4,
{
}

} // verus!
