//! Which faces of a block can be seen, and how much light reaches their corners.

use crate::models::face::{normal_of, FaceDir};
use crate::world::block::{is_opaque, opaque};
use crate::world::chunk::{Chunk, ChunkView, CHUNK_HEIGHT, CHUNK_SIZE};
use crate::world::neighbor::{mask_solid, solid_in, NeighborMasks, FACE_BYTES};
use vstd::prelude::*;

verus! {

/// A position inside a chunk.
pub open spec fn in_chunk(x: int, y: int, z: int) -> bool {
    0 <= x < CHUNK_SIZE && 0 <= y < CHUNK_HEIGHT && 0 <= z < CHUNK_SIZE
}

/// The faces of one direction are meshed slice by slice. This gives the number of slices and
/// the size of a slice along its two axes, for a chunk of which `mh` layers are looked at.
pub open spec fn dims_of(dir: FaceDir, mh: int) -> (int, int, int) {
    match dir {
        FaceDir::PosX | FaceDir::NegX => (32, mh, 32),
        FaceDir::PosY | FaceDir::NegY => (mh, 32, 32),
        FaceDir::PosZ | FaceDir::NegZ => (32, 32, mh),
    }
}

/// The position of cell (u, v) of slice `d`.
pub open spec fn xyz_of(dir: FaceDir, d: int, u: int, v: int) -> (int, int, int) {
    match dir {
        FaceDir::PosX | FaceDir::NegX => (d, u, v),
        FaceDir::PosY | FaceDir::NegY => (u, d, v),
        FaceDir::PosZ | FaceDir::NegZ => (u, v, d),
    }
}

/// A mask that may be missing says that a block is opaque.
pub open spec fn known_solid(mask: Option<[u8; FACE_BYTES]>, y: int, lateral: int) -> bool {
    match mask {
        Some(m) => solid_in(m, y, lateral),
        None => false,
    }
}

/// Whether the block at (x, y, z), which may lie in a neighbour chunk, takes light away. What is
/// below the world does; what is above it, diagonally across, or not loaded does not.
pub open spec fn takes_light(c: ChunkView, n: NeighborMasks, x: int, y: int, z: int) -> bool {
    let out_x = x < 0 || x >= 32;
    let out_z = z < 0 || z >= 32;
    if y < 0 {
        true
    } else if y >= 256 {
        false
    } else if out_x && out_z {
        false
    } else if out_x {
        known_solid(
            if x < 0 {
                n.neg_x
            } else {
                n.pos_x
            },
            y,
            z,
        )
    } else if out_z {
        known_solid(
            if z < 0 {
                n.neg_z
            } else {
                n.pos_z
            },
            y,
            x,
        )
    } else {
        opaque(c.at(x, y, z))
    }
}

/// The first axis of the slices of a direction.
pub open spec fn u_axis(dir: FaceDir) -> (int, int, int) {
    match dir {
        FaceDir::PosX | FaceDir::NegX => (0, 1, 0),
        _ => (1, 0, 0),
    }
}

/// The second axis of the slices of a direction.
pub open spec fn v_axis(dir: FaceDir) -> (int, int, int) {
    match dir {
        FaceDir::PosZ | FaceDir::NegZ => (0, 1, 0),
        _ => (0, 0, 1),
    }
}

/// Whether corner `i` of a face lies at the end (1) or at the start (-1) of the first axis.
pub open spec fn u_side(i: int) -> int {
    if i == 0 || i == 3 {
        1
    } else {
        -1
    }
}

/// Whether corner `i` of a face lies at the end (1) or at the start (-1) of the second axis.
pub open spec fn v_side(i: int) -> int {
    if i <= 1 {
        -1
    } else {
        1
    }
}

/// The way from a block to one of those in front of its face: one step out, `su` steps along the
/// first axis and `sv` steps along the second.
pub open spec fn front_offset(dir: FaceDir, su: int, sv: int) -> (int, int, int) {
    let n = normal_of(dir);
    let u = u_axis(dir);
    let v = v_axis(dir);
    (n[0] + su * u.0 + sv * v.0, n[1] + su * u.1 + sv * v.1, n[2] + su * u.2 + sv * v.2)
}

/// Whether the block at that offset takes light away.
pub open spec fn front_dark(
    c: ChunkView,
    n: NeighborMasks,
    x: int,
    y: int,
    z: int,
    dir: FaceDir,
    su: int,
    sv: int,
) -> bool {
    let o = front_offset(dir, su, sv);
    takes_light(c, n, x + o.0, y + o.1, z + o.2)
}

/// Light at corner `i` of a face, in thirds: less where one of the three blocks in front of the
/// face that meet there takes it away.
pub open spec fn light_at(
    c: ChunkView,
    n: NeighborMasks,
    x: int,
    y: int,
    z: int,
    dir: FaceDir,
    i: int,
) -> u8 {
    if front_dark(c, n, x, y, z, dir, u_side(i), 0) || front_dark(c, n, x, y, z, dir, 0, v_side(i))
        || front_dark(c, n, x, y, z, dir, u_side(i), v_side(i)) {
        2
    } else {
        3
    }
}

/// Light at the four corners of a face.
pub open spec fn face_light(
    c: ChunkView,
    n: NeighborMasks,
    x: int,
    y: int,
    z: int,
    dir: FaceDir,
) -> [u8; 4] {
    [
        light_at(c, n, x, y, z, dir, 0),
        light_at(c, n, x, y, z, dir, 1),
        light_at(c, n, x, y, z, dir, 2),
        light_at(c, n, x, y, z, dir, 3),
    ]
}

/// Whether the face of a block towards `dir` can be seen. At the sides of the chunk the
/// neighbour's mask decides, and a face towards a chunk that is not loaded counts as seen; above
/// and below the chunk there is nothing that could hide it.
pub open spec fn exposed(
    c: ChunkView,
    n: NeighborMasks,
    x: int,
    y: int,
    z: int,
    dir: FaceDir,
) -> bool {
    let m = normal_of(dir);
    if in_chunk(x + m[0], y + m[1], z + m[2]) {
        !opaque(c.at(x + m[0], y + m[1], z + m[2]))
    } else {
        match dir {
            FaceDir::PosX => !known_solid(n.pos_x, y, z),
            FaceDir::NegX => !known_solid(n.neg_x, y, z),
            FaceDir::PosZ => !known_solid(n.pos_z, y, x),
            FaceDir::NegZ => !known_solid(n.neg_z, y, x),
            FaceDir::PosY | FaceDir::NegY => true,
        }
    }
}

/// Three integers are those of an offset.
pub open spec fn is_offset(t: (i32, i32, i32), o: (int, int, int)) -> bool {
    t.0 == o.0 && t.1 == o.1 && t.2 == o.2
}

pub proof fn lemma_front_offset(dir: FaceDir, su: int, sv: int)
    ensures
        front_offset(dir, su, sv) == match dir {
            FaceDir::PosX => (1int, su, sv),
            FaceDir::NegX => (-1int, su, sv),
            FaceDir::PosY => (su, 1int, sv),
            FaceDir::NegY => (su, -1int, sv),
            FaceDir::PosZ => (su, sv, 1int),
            FaceDir::NegZ => (su, sv, -1int),
        },
{
    assert(su * 1 == su && su * 0 == 0 && sv * 1 == sv && sv * 0 == 0) by (nonlinear_arith);
}

/// The three blocks in front of each corner of a face: (side, side, corner) for the corners
/// u-end/v-start, u-start/v-start, u-start/v-end, u-end/v-end.
pub fn ao_offsets(dir: FaceDir) -> (r: [((i32, i32, i32), (i32, i32, i32), (i32, i32, i32)); 4])
    ensures
        forall|i: int|
            #![trigger r[i]]
            0 <= i < 4 ==> {
                &&& is_offset(r[i].0, front_offset(dir, u_side(i), 0))
                &&& is_offset(r[i].1, front_offset(dir, 0, v_side(i)))
                &&& is_offset(r[i].2, front_offset(dir, u_side(i), v_side(i)))
            },
{
    let r: [((i32, i32, i32), (i32, i32, i32), (i32, i32, i32)); 4] = match dir {
        FaceDir::PosY => [
            ((1, 1, 0), (0, 1, -1), (1, 1, -1)),
            ((-1, 1, 0), (0, 1, -1), (-1, 1, -1)),
            ((-1, 1, 0), (0, 1, 1), (-1, 1, 1)),
            ((1, 1, 0), (0, 1, 1), (1, 1, 1)),
        ],
        FaceDir::NegY => [
            ((1, -1, 0), (0, -1, -1), (1, -1, -1)),
            ((-1, -1, 0), (0, -1, -1), (-1, -1, -1)),
            ((-1, -1, 0), (0, -1, 1), (-1, -1, 1)),
            ((1, -1, 0), (0, -1, 1), (1, -1, 1)),
        ],
        FaceDir::PosX => [
            ((1, 1, 0), (1, 0, -1), (1, 1, -1)),
            ((1, -1, 0), (1, 0, -1), (1, -1, -1)),
            ((1, -1, 0), (1, 0, 1), (1, -1, 1)),
            ((1, 1, 0), (1, 0, 1), (1, 1, 1)),
        ],
        FaceDir::NegX => [
            ((-1, 1, 0), (-1, 0, -1), (-1, 1, -1)),
            ((-1, -1, 0), (-1, 0, -1), (-1, -1, -1)),
            ((-1, -1, 0), (-1, 0, 1), (-1, -1, 1)),
            ((-1, 1, 0), (-1, 0, 1), (-1, 1, 1)),
        ],
        FaceDir::PosZ => [
            ((1, 0, 1), (0, -1, 1), (1, -1, 1)),
            ((-1, 0, 1), (0, -1, 1), (-1, -1, 1)),
            ((-1, 0, 1), (0, 1, 1), (-1, 1, 1)),
            ((1, 0, 1), (0, 1, 1), (1, 1, 1)),
        ],
        FaceDir::NegZ => [
            ((1, 0, -1), (0, -1, -1), (1, -1, -1)),
            ((-1, 0, -1), (0, -1, -1), (-1, -1, -1)),
            ((-1, 0, -1), (0, 1, -1), (-1, 1, -1)),
            ((1, 0, -1), (0, 1, -1), (1, 1, -1)),
        ],
    };
    proof {
        assert forall|i: int| #![trigger r[i]] 0 <= i < 4 implies {
            &&& is_offset(r[i].0, front_offset(dir, u_side(i), 0))
            &&& is_offset(r[i].1, front_offset(dir, 0, v_side(i)))
            &&& is_offset(r[i].2, front_offset(dir, u_side(i), v_side(i)))
        } by {
            lemma_front_offset(dir, u_side(i), 0);
            lemma_front_offset(dir, 0, v_side(i));
            lemma_front_offset(dir, u_side(i), v_side(i));
            assert(i == 0 || i == 1 || i == 2 || i == 3);
        }
    }
    r
}

fn ask_solid(mask: &Option<[u8; FACE_BYTES]>, y: usize, lateral: usize) -> (r: bool)
    requires
        y < CHUNK_HEIGHT,
        lateral < CHUNK_SIZE,
    ensures
        r == known_solid(*mask, y as int, lateral as int),
{
    match mask {
        Some(m) => mask_solid(m, y, lateral),
        None => false,
    }
}

/// Whether the block at (x, y, z), which may lie in a neighbour chunk, takes light away.
pub fn ao_solid(chunk: &Chunk, neighbors: &NeighborMasks, x: i32, y: i32, z: i32) -> (r: bool)
    requires
        chunk@.wf(),
    ensures
        r == takes_light(chunk@, *neighbors, x as int, y as int, z as int),
{
    if y < 0 {
        return true;
    }
    if y >= 256 {
        return false;
    }
    let out_x = x < 0 || x >= 32;
    let out_z = z < 0 || z >= 32;
    if out_x && out_z {
        return false;
    }
    if out_x {
        return if x < 0 {
            ask_solid(&neighbors.neg_x, y as usize, z as usize)
        } else {
            ask_solid(&neighbors.pos_x, y as usize, z as usize)
        };
    }
    if out_z {
        return if z < 0 {
            ask_solid(&neighbors.neg_z, y as usize, x as usize)
        } else {
            ask_solid(&neighbors.pos_z, y as usize, x as usize)
        };
    }
    is_opaque(chunk.get(x as usize, y as usize, z as usize))
}

fn corner_ao(
    chunk: &Chunk,
    neighbors: &NeighborMasks,
    x: i32,
    y: i32,
    z: i32,
    dir: FaceDir,
    i: usize,
) -> (r: u8)
    requires
        chunk@.wf(),
        in_chunk(x as int, y as int, z as int),
        i < 4,
    ensures
        r == light_at(chunk@, *neighbors, x as int, y as int, z as int, dir, i as int),
{
    let offsets = ao_offsets(dir);
    let (s1, s2, c) = offsets[i];
    proof {
        assert(offsets[i as int] == (s1, s2, c));
    }
    let side1 = ao_solid(chunk, neighbors, x + s1.0, y + s1.1, z + s1.2);
    let side2 = ao_solid(chunk, neighbors, x + s2.0, y + s2.1, z + s2.2);
    let corner = ao_solid(chunk, neighbors, x + c.0, y + c.1, z + c.2);
    if side1 || side2 || corner {
        2
    } else {
        3
    }
}

/// Light at the four corners of a face, in thirds.
pub fn face_ao(
    chunk: &Chunk,
    neighbors: &NeighborMasks,
    bx: usize,
    by: usize,
    bz: usize,
    dir: FaceDir,
) -> (r: [u8; 4])
    requires
        chunk@.wf(),
        in_chunk(bx as int, by as int, bz as int),
    ensures
        r == face_light(chunk@, *neighbors, bx as int, by as int, bz as int, dir),
{
    let (x, y, z): (i32, i32, i32) = (bx as i32, by as i32, bz as i32);
    [
        corner_ao(chunk, neighbors, x, y, z, dir, 0),
        corner_ao(chunk, neighbors, x, y, z, dir, 1),
        corner_ao(chunk, neighbors, x, y, z, dir, 2),
        corner_ao(chunk, neighbors, x, y, z, dir, 3),
    ]
}

/// The number of slices of a direction, and the size of a slice along its two axes.
pub fn dir_dims(dir: FaceDir, mh: usize) -> (r: (usize, usize, usize))
    ensures
        r.0 == dims_of(dir, mh as int).0,
        r.1 == dims_of(dir, mh as int).1,
        r.2 == dims_of(dir, mh as int).2,
{
    match dir {
        FaceDir::PosX | FaceDir::NegX => (CHUNK_SIZE, mh, CHUNK_SIZE),
        FaceDir::PosY | FaceDir::NegY => (mh, CHUNK_SIZE, CHUNK_SIZE),
        FaceDir::PosZ | FaceDir::NegZ => (CHUNK_SIZE, CHUNK_SIZE, mh),
    }
}

/// The position of cell (u, v) of slice `d`.
pub fn to_xyz(dir: FaceDir, d: usize, u: usize, v: usize) -> (r: (usize, usize, usize))
    ensures
        r.0 == xyz_of(dir, d as int, u as int, v as int).0,
        r.1 == xyz_of(dir, d as int, u as int, v as int).1,
        r.2 == xyz_of(dir, d as int, u as int, v as int).2,
{
    match dir {
        FaceDir::PosX | FaceDir::NegX => (d, u, v),
        FaceDir::PosY | FaceDir::NegY => (u, d, v),
        FaceDir::PosZ | FaceDir::NegZ => (u, v, d),
    }
}

/// Whether the face of a block towards `dir` can be seen.
pub fn is_exposed(
    chunk: &Chunk,
    neighbors: &NeighborMasks,
    x: usize,
    y: usize,
    z: usize,
    dir: FaceDir,
) -> (r: bool)
    requires
        chunk@.wf(),
        in_chunk(x as int, y as int, z as int),
    ensures
        r == exposed(chunk@, *neighbors, x as int, y as int, z as int, dir),
{
    match dir {
        FaceDir::PosX => if x + 1 < CHUNK_SIZE {
            !is_opaque(chunk.get(x + 1, y, z))
        } else {
            !ask_solid(&neighbors.pos_x, y, z)
        },
        FaceDir::NegX => if x > 0 {
            !is_opaque(chunk.get(x - 1, y, z))
        } else {
            !ask_solid(&neighbors.neg_x, y, z)
        },
        FaceDir::PosY => if y + 1 < CHUNK_HEIGHT {
            !is_opaque(chunk.get(x, y + 1, z))
        } else {
            true
        },
        FaceDir::NegY => if y > 0 {
            !is_opaque(chunk.get(x, y - 1, z))
        } else {
            true
        },
        FaceDir::PosZ => if z + 1 < CHUNK_SIZE {
            !is_opaque(chunk.get(x, y, z + 1))
        } else {
            !ask_solid(&neighbors.pos_z, y, x)
        },
        FaceDir::NegZ => if z > 0 {
            !is_opaque(chunk.get(x, y, z - 1))
        } else {
            !ask_solid(&neighbors.neg_z, y, x)
        },
    }
}

} // verus!
