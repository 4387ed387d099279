//! Maps of the world.

use crate::world::terrain::SEA_LEVEL;
use vstd::prelude::*;

verus! {

/// The colour of a column on a map: water by depth, land by height above the sea.
pub open spec fn map_color(level: int, ocean: bool) -> [u8; 3] {
    if ocean {
        let depth = SEA_LEVEL - level;
        if depth <= 4 {
            [120, 180, 230]
        } else if depth <= 14 {
            [55, 120, 195]
        } else if depth <= 29 {
            [30, 80, 160]
        } else {
            [12, 40, 110]
        }
    } else {
        let above = level - SEA_LEVEL;
        if above <= 5 {
            [215, 205, 135]
        } else if above <= 40 {
            [95, 155, 65]
        } else if above <= 100 {
            [85, 120, 55]
        } else if above <= 180 {
            [105, 100, 80]
        } else {
            [225, 225, 225]
        }
    }
}

/// The colour of a column on a map.
pub fn terrain_color(level: usize, ocean: bool) -> (r: [u8; 3])
    ensures
        r == map_color(level as int, ocean),
{
    if ocean {
        let depth: usize = if level < SEA_LEVEL {
            SEA_LEVEL - level
        } else {
            0
        };
        if depth <= 4 {
            [120, 180, 230]
        } else if depth <= 14 {
            [55, 120, 195]
        } else if depth <= 29 {
            [30, 80, 160]
        } else {
            [12, 40, 110]
        }
    } else {
        let above: usize = if level > SEA_LEVEL {
            level - SEA_LEVEL
        } else {
            0
        };
        if above <= 5 {
            [215, 205, 135]
        } else if above <= 40 {
            [95, 155, 65]
        } else if above <= 100 {
            [85, 120, 55]
        } else if above <= 180 {
            [105, 100, 80]
        } else {
            [225, 225, 225]
        }
    }
}

/// The place in the world that pixel `i` of a square map shows. The map has `px` pixels along
/// its sides, `scale` blocks in a pixel, and (cx, cz) in its middle.
pub open spec fn pixel_place(i: int, px: int, scale: int, cx: int, cz: int) -> (int, int) {
    (cx + (i % px - px / 2) * scale, cz + (i / px - px / 2) * scale)
}

/// A place whose coordinates fit.
pub open spec fn place_fits(p: (int, int)) -> bool {
    i32::MIN <= p.0 <= i32::MAX && i32::MIN <= p.1 <= i32::MAX
}

/// The place in the world that pixel `i` of a square map shows.
pub fn pixel_to_world(i: usize, px: u32, scale: i32, cx: i32, cz: i32) -> (r: (i32, i32))
    requires
        0 < px <= 0xffff,
        i < px * px,
        place_fits(pixel_place(i as int, px as int, scale as int, cx as int, cz as int)),
    ensures
        (r.0 as int, r.1 as int) == pixel_place(
            i as int,
            px as int,
            scale as int,
            cx as int,
            cz as int,
        ),
{
    let w: i64 = px as i64;
    let x: i64 = (i % px as usize) as i64;
    let z: i64 = (i / px as usize) as i64;
    proof {
        assert(i as int / px as int <= px - 1) by (nonlinear_arith)
            requires
                i < px * px,
                0 < px,
        ;
        assert(0 <= i as int / px as int) by (nonlinear_arith)
            requires
                0 < px,
        ;
    }
    let dx: i64 = x - w / 2;
    let dz: i64 = z - w / 2;
    assert(-0x4000_0000_0000 <= dx * scale <= 0x4000_0000_0000 && -0x4000_0000_0000 <= dz * scale
        <= 0x4000_0000_0000) by (nonlinear_arith)
        requires
            -0x8000 <= dx <= 0x8000,
            -0x8000 <= dz <= 0x8000,
            -0x8000_0000 <= scale <= 0x8000_0000,
    ;
    ((cx as i64 + dx * scale as i64) as i32, (cz as i64 + dz * scale as i64) as i32)
}

/// The lowest and the highest of the first `k` levels.
pub open spec fn range_to(levels: Seq<usize>, k: int) -> (usize, usize)
    decreases k,
{
    if k <= 0 {
        (usize::MAX, 0)
    } else {
        let (lo, hi) = range_to(levels, k - 1);
        let n = levels[k - 1];
        (
            if n < lo {
                n
            } else {
                lo
            },
            if n > hi {
                n
            } else {
                hi
            },
        )
    }
}

/// The lowest and the highest level of a map.
pub fn height_range(levels: &Vec<usize>) -> (r: (usize, usize))
    ensures
        r == range_to(levels@, levels.len() as int),
{
    let mut lo: usize = usize::MAX;
    let mut hi: usize = 0;
    let mut i: usize = 0;
    while i < levels.len()
        invariant
            i <= levels.len(),
            (lo, hi) == range_to(levels@, i as int),
        decreases levels.len() - i,
    {
        let n = levels[i];
        if n < lo {
            lo = n;
        }
        if n > hi {
            hi = n;
        }
        i = i + 1;
    }
    (lo, hi)
}

/// The colours of a map as bytes.
pub fn flatten(colors: &Vec<[u8; 3]>) -> (r: Vec<u8>)
    requires
        colors.len() * 3 <= usize::MAX,
    ensures
        r.len() == colors.len() * 3,
        forall|i: int| 0 <= i < r.len() ==> #[trigger] r[i] == colors[i / 3][i % 3],
{
    let mut r: Vec<u8> = Vec::new();
    let mut i: usize = 0;
    while i < colors.len()
        invariant
            i <= colors.len(),
            r.len() == i * 3,
            forall|j: int| 0 <= j < r.len() ==> #[trigger] r[j] == colors[j / 3][j % 3],
        decreases colors.len() - i,
    {
        let c = colors[i];
        r.push(c[0]);
        r.push(c[1]);
        r.push(c[2]);
        i = i + 1;
    }
    r
}

/// A column of a side view: the rows of the natural surface and of the final one.
#[derive(Clone, Copy, Debug)]
pub struct ProfileColumn {
    pub natural: usize,
    pub cliff: usize,
}

/// The row of a surface line, which stays inside the image.
pub open spec fn line_row(row: usize, h: int) -> int {
    if row < h {
        row as int
    } else {
        h - 1
    }
}

/// The colour of a pixel of a side view: the lines of the two surfaces, the natural ground, the
/// ground that a cliff has added, and the line of the sea.
pub open spec fn profile_color(c: ProfileColumn, sea: int, y: int, h: int) -> [u8; 3] {
    if y == line_row(c.cliff, h) {
        [230, 70, 70]
    } else if y == line_row(c.natural, h) {
        [150, 150, 160]
    } else if y >= c.natural {
        [55, 55, 60]
    } else if y >= c.cliff {
        [70, 30, 30]
    } else if y == sea {
        [40, 60, 90]
    } else {
        [0, 0, 0]
    }
}

/// Draws a side view with a column for each entry and `h` rows.
pub fn draw_profile(columns: &Vec<ProfileColumn>, sea: usize, h: usize) -> (r: Vec<[u8; 3]>)
    requires
        0 < h,
        columns.len() * h <= usize::MAX,
    ensures
        r.len() == columns.len() * h,
        forall|y: int, x: int|
            0 <= y < h && 0 <= x < columns.len() ==> r[y * columns.len() + x]
                == #[trigger] profile_color(columns[x], sea as int, y, h as int),
{
    let w: usize = columns.len();
    let mut r: Vec<[u8; 3]> = Vec::new();
    let mut y: usize = 0;
    assert(0 * w == 0);
    while y < h
        invariant
            y <= h,
            0 < h,
            w == columns.len(),
            r.len() == y * w,
            forall|b: int, a: int|
                0 <= b < y && 0 <= a < w ==> r[b * w + a] == #[trigger] profile_color(
                    columns[a],
                    sea as int,
                    b,
                    h as int,
                ),
        decreases h - y,
    {
        let ghost before = r@;
        let mut x: usize = 0;
        while x < w
            invariant
                x <= w,
                y < h,
                0 < h,
                w == columns.len(),
                before.len() == y * w,
                r.len() == y * w + x,
                forall|k: int| 0 <= k < before.len() ==> #[trigger] r[k] == before[k],
                forall|a: int|
                    0 <= a < x ==> r[y * w + a] == #[trigger] profile_color(
                        columns[a],
                        sea as int,
                        y as int,
                        h as int,
                    ),
            decreases w - x,
        {
            let c = columns[x];
            let cliff_row: usize = if c.cliff < h {
                c.cliff
            } else {
                h - 1
            };
            let natural_row: usize = if c.natural < h {
                c.natural
            } else {
                h - 1
            };
            let color: [u8; 3] = if y == cliff_row {
                [230, 70, 70]
            } else if y == natural_row {
                [150, 150, 160]
            } else if y >= c.natural {
                [55, 55, 60]
            } else if y >= c.cliff {
                [70, 30, 30]
            } else if y == sea {
                [40, 60, 90]
            } else {
                [0, 0, 0]
            };
            r.push(color);
            x = x + 1;
        }
        proof {
            assert((y + 1) * w == y * w + w) by (nonlinear_arith);
            assert forall|b: int, a: int| 0 <= b < y + 1 && 0 <= a < w implies r[b * w + a]
                == #[trigger] profile_color(columns[a], sea as int, b, h as int) by {
                if b < y {
                    assert(0 <= b * w && b * w + w <= y * w) by (nonlinear_arith)
                        requires
                            0 <= b < y,
                            0 <= w,
                    ;
                    assert(before[b * w + a] == profile_color(
                        columns[a],
                        sea as int,
                        b,
                        h as int,
                    ));
                }
            }
        }
        y = y + 1;
    }
    assert(y * w == columns.len() * h) by (nonlinear_arith)
        requires
            y == h,
            w == columns.len(),
    ;
    r
}

// ── What maps show ───────────────────────────────────────────────────────────

/// Water gets darker the deeper it is, in four shades. Land goes from sand over two greens and rock
/// to snow.
pub proof fn law_map_color(level: int, ocean: bool)
    ensures
        ({
            let c = map_color(level, ocean);
            let rgb = (c[0] as int, c[1] as int, c[2] as int);
            if ocean {
                &&& level >= 116 ==> rgb == (120int, 180int, 230int)
                &&& 106 <= level < 116 ==> rgb == (55int, 120int, 195int)
                &&& 91 <= level < 106 ==> rgb == (30int, 80int, 160int)
                &&& level < 91 ==> rgb == (12int, 40int, 110int)
            } else {
                &&& level <= 125 ==> rgb == (215int, 205int, 135int)
                &&& 125 < level <= 160 ==> rgb == (95int, 155int, 65int)
                &&& 160 < level <= 220 ==> rgb == (85int, 120int, 55int)
                &&& 220 < level <= 300 ==> rgb == (105int, 100int, 80int)
                &&& level > 300 ==> rgb == (225int, 225int, 225int)
            }
        }),
{
}

/// The pixel in row `b` and column `a` of a map shows what lies so many pixels from its middle,
/// columns along X and rows along Z.
pub proof fn law_pixels(a: int, b: int, px: int, scale: int, cx: int, cz: int)
    requires
        0 <= a < px,
        0 <= b < px,
    ensures
        ({
            let p = pixel_place(b * px + a, px, scale, cx, cz);
            &&& p.0 == cx + (a - px / 2) * scale
            &&& p.1 == cz + (b - px / 2) * scale
        }),
{
    assert(b * px + a == px * b + a) by (nonlinear_arith);
    vstd::arithmetic::div_mod::lemma_fundamental_div_mod_converse(b * px + a, px, b, a);
}

/// No level is outside the range of a map, and both of its ends are among the levels.
pub proof fn law_height_range(levels: Seq<usize>, k: int, i: int)
    requires
        1 <= k <= levels.len(),
        0 <= i < k,
    ensures
        range_to(levels, k).0 <= levels[i] <= range_to(levels, k).1,
        exists|j: int| 0 <= j < k && #[trigger] levels[j] == range_to(levels, k).0,
        exists|j: int| 0 <= j < k && #[trigger] levels[j] == range_to(levels, k).1,
    decreases k,
{
    assert(levels[k - 1] == levels[k - 1]);
    if k > 1 {
        law_height_range(levels, k - 1, if i < k - 1 { i } else { 0 });
        let a = choose|j: int| 0 <= j < k - 1 && #[trigger] levels[j] == range_to(levels, k - 1).0;
        let b = choose|j: int| 0 <= j < k - 1 && #[trigger] levels[j] == range_to(levels, k - 1).1;
        assert(levels[a] == range_to(levels, k - 1).0);
        assert(levels[b] == range_to(levels, k - 1).1);
    } else {
        reveal_with_fuel(range_to, 2);
    }
}

/// A side view has the line of the final surface over that of the natural one, and both stay in
/// the image. Below the natural surface there is ground, and below the final one what the cliff has
/// added. The line of the sea is seen in the sky only.
pub proof fn law_profile(c: ProfileColumn, sea: int, y: int, h: int)
    requires
        0 <= y < h,
    ensures
        ({
            let col = profile_color(c, sea, y, h);
            let rgb = (col[0] as int, col[1] as int, col[2] as int);
            let top = y == c.cliff || (y == h - 1 && c.cliff >= h);
            let low = y == c.natural || (y == h - 1 && c.natural >= h);
            &&& top ==> rgb == (230int, 70int, 70int)
            &&& !top && low ==> rgb == (150int, 150int, 160int)
            &&& !top && !low && y > c.natural ==> rgb == (55int, 55int, 60int)
            &&& !top && !low && y < c.natural && y > c.cliff ==> rgb == (70int, 30int, 30int)
            &&& !top && !low && y < c.natural && y < c.cliff ==> rgb == if y == sea {
                (40int, 60int, 90int)
            } else {
                (0int, 0int, 0int)
            }
        }),
{
}

} // verus!
