//! What is drawn in a frame, and in which order.

use vstd::prelude::*;

verus! {

/// One part of a frame.
#[derive(Clone, Copy, Debug, PartialEq, Eq, Structural)]
pub enum PassStep {
    /// The ground, with this many commands.
    Ground(u32),
    /// The water, with this many commands. It lies over the ground.
    Water(u32),
    /// The outline of the block that is looked at.
    Outline,
    /// The cross in the middle of the screen.
    Crosshair,
}

/// What is drawn: `ground` and `water` are the lengths of the draw lists, where there are any.
pub open spec fn steps_of(ground: Option<u32>, water: Option<u32>, outline: bool) -> Seq<PassStep> {
    let first = match ground {
        Some(n) => if n > 0 {
            match water {
                Some(m) => if m > 0 {
                    seq![PassStep::Ground(n), PassStep::Water(m)]
                } else {
                    seq![PassStep::Ground(n)]
                },
                None => seq![PassStep::Ground(n)],
            }
        } else {
            Seq::empty()
        },
        None => Seq::empty(),
    };
    let second = if outline {
        seq![PassStep::Outline]
    } else {
        Seq::empty()
    };
    first + second + seq![PassStep::Crosshair]
}

/// The parts of a frame in drawing order.
pub fn frame_steps(ground: Option<u32>, water: Option<u32>, outline: bool) -> (r: Vec<PassStep>)
    ensures
        r@ == steps_of(ground, water, outline),
{
    let mut r: Vec<PassStep> = Vec::new();
    if let Some(n) = ground {
        if n > 0 {
            r.push(PassStep::Ground(n));
            if let Some(m) = water {
                if m > 0 {
                    r.push(PassStep::Water(m));
                }
            }
        }
    }
    if outline {
        r.push(PassStep::Outline);
    }
    r.push(PassStep::Crosshair);
    assert(r@ =~= steps_of(ground, water, outline));
    r
}

/// Water is never drawn without the ground before it, and the cross is always drawn last.
pub proof fn law_drawing_order(ground: Option<u32>, water: Option<u32>, outline: bool, i: int)
    requires
        0 <= i < steps_of(ground, water, outline).len(),
    ensures
        steps_of(ground, water, outline).last() == PassStep::Crosshair,
        steps_of(ground, water, outline)[i] is Water ==> i == 1 && steps_of(
            ground,
            water,
            outline,
        )[0] is Ground,
{
}

/// The place of a part of a frame among the others.
pub open spec fn part_order(s: PassStep) -> int {
    match s {
        PassStep::Ground(_) => 0,
        PassStep::Water(_) => 1,
        PassStep::Outline => 2,
        PassStep::Crosshair => 3,
    }
}

/// The ground comes before the water, the water before the outline, and the outline before the
/// cross. Nothing is drawn twice.
pub proof fn law_parts_in_order(ground: Option<u32>, water: Option<u32>, outline: bool, i: int, j: int)
    requires
        0 <= i < j < steps_of(ground, water, outline).len(),
    ensures
        part_order(steps_of(ground, water, outline)[i]) < part_order(
            steps_of(ground, water, outline)[j],
        ),
{
}

/// The ground is drawn if it has commands, the water if both have, the outline if there is one, and
/// the cross always.
pub proof fn law_frame_parts(ground: Option<u32>, water: Option<u32>, outline: bool)
    ensures
        ({
            let steps = steps_of(ground, water, outline);
            &&& steps.len() > 0 && steps.last() == PassStep::Crosshair
            &&& steps.contains(PassStep::Outline) <==> outline
            &&& forall|n: u32| #[trigger]
                steps.contains(PassStep::Ground(n)) <==> ground == Some(n) && n > 0
            &&& forall|m: u32| #[trigger]
                steps.contains(PassStep::Water(m)) <==> water == Some(m) && m > 0 && (
                ground matches Some(n) && n > 0)
        }),
{
    let steps = steps_of(ground, water, outline);
    if outline {
        assert(steps[steps.len() - 2] == PassStep::Outline);
    }
    assert forall|n: u32| #[trigger] steps.contains(PassStep::Ground(n)) <==> ground == Some(n) && n
        > 0 by {
        if ground == Some(n) && n > 0 {
            assert(steps[0] == PassStep::Ground(n));
        }
    }
    assert forall|m: u32| #[trigger] steps.contains(PassStep::Water(m)) <==> water == Some(m) && m
        > 0 && (ground matches Some(n) && n > 0) by {
        if water == Some(m) && m > 0 && (ground matches Some(n) && n > 0) {
            assert(steps[1] == PassStep::Water(m));
        }
    }
}

/// On which side of a block a corner of its outline is, along X, Y and Z.
pub open spec fn corner_sides(k: int) -> (bool, bool, bool) {
    (k % 4 == 1 || k % 4 == 2, k % 4 >= 2, k >= 4)
}

/// On which side of a block a corner of its outline is, along X, Y and Z.
pub fn outline_corner(k: usize) -> (r: (bool, bool, bool))
    requires
        k < 8,
    ensures
        r == corner_sides(k as int),
{
    (k % 4 == 1 || k % 4 == 2, k % 4 >= 2, k >= 4)
}

/// The corners of the edges of an outline, two for each.
pub open spec fn edge_corners() -> [u32; 24] {
    [0, 1, 1, 2, 2, 3, 3, 0, 4, 5, 5, 6, 6, 7, 7, 4, 0, 4, 1, 5, 2, 6, 3, 7]
}

/// The corners of the edges of an outline, two for each.
pub fn outline_indices() -> (r: [u32; 24])
    ensures
        r == edge_corners(),
{
    [0, 1, 1, 2, 2, 3, 3, 0, 4, 5, 5, 6, 6, 7, 7, 4, 0, 4, 1, 5, 2, 6, 3, 7]
}

/// How many coordinates of two corners differ.
pub open spec fn corner_distance(a: int, b: int) -> int {
    let (ax, ay, az) = corner_sides(a);
    let (bx, by, bz) = corner_sides(b);
    (if ax != bx {
        1int
    } else {
        0int
    }) + (if ay != by {
        1int
    } else {
        0int
    }) + (if az != bz {
        1int
    } else {
        0int
    })
}

/// Every edge of an outline runs along one axis, and no two edges are the same.
pub proof fn law_outline_edges(e: int, f: int)
    requires
        0 <= e < 12,
        0 <= f < 12,
    ensures
        corner_distance(edge_corners()[2 * e] as int, edge_corners()[2 * e + 1] as int) == 1,
        e != f ==> !(edge_corners()[2 * e] == edge_corners()[2 * f] && edge_corners()[2 * e + 1]
            == edge_corners()[2 * f + 1]),
        e != f ==> !(edge_corners()[2 * e] == edge_corners()[2 * f + 1] && edge_corners()[2 * e + 1]
            == edge_corners()[2 * f]),
{
    assert(e == 0 || e == 1 || e == 2 || e == 3 || e == 4 || e == 5 || e == 6 || e == 7 || e == 8
        || e == 9 || e == 10 || e == 11);
    assert(f == 0 || f == 1 || f == 2 || f == 3 || f == 4 || f == 5 || f == 6 || f == 7 || f == 8
        || f == 9 || f == 10 || f == 11);
}

/// The word that four bytes stand for, the lowest first.
pub open spec fn word_of(bytes: Seq<u8>, i: int) -> int {
    bytes[4 * i] + 0x100 * bytes[4 * i + 1] + 0x1_0000 * bytes[4 * i + 2] + 0x100_0000 * bytes[4 * i
        + 3]
}

/// The words of a shader. Bytes that are too few for a word are left out.
pub fn shader_words(bytes: &Vec<u8>) -> (r: Vec<u32>)
    ensures
        r.len() == bytes.len() / 4,
        forall|i: int| 0 <= i < r.len() ==> #[trigger] r[i] == word_of(bytes@, i),
{
    let mut r: Vec<u32> = Vec::new();
    let n: usize = bytes.len() / 4;
    let mut i: usize = 0;
    while i < n
        invariant
            n == bytes.len() / 4,
            i <= n,
            r.len() == i,
            forall|j: int| 0 <= j < i ==> #[trigger] r[j] == word_of(bytes@, j),
        decreases n - i,
    {
        let w: u32 = bytes[4 * i] as u32 + 0x100 * (bytes[4 * i + 1] as u32) + 0x1_0000 * (
        bytes[4 * i + 2] as u32) + 0x100_0000 * (bytes[4 * i + 3] as u32);
        r.push(w);
        i = i + 1;
    }
    r
}

/// No two corners of an outline are the same, so that they are those of a block.
pub proof fn law_outline_corners(k: int, l: int)
    requires
        0 <= k < 8,
        0 <= l < 8,
        k != l,
    ensures
        corner_sides(k) != corner_sides(l),
{
}

/// The bytes of a word are found again in it, the lowest first.
pub proof fn law_words(bytes: Seq<u8>, i: int)
    ensures
        ({
            let w = word_of(bytes, i);
            &&& 0 <= w <= u32::MAX
            &&& w % 256 == bytes[4 * i]
            &&& w / 256 % 256 == bytes[4 * i + 1]
            &&& w / 65536 % 256 == bytes[4 * i + 2]
            &&& w / 16777216 == bytes[4 * i + 3]
        }),
{
}

} // verus!
