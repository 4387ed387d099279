//! Merging equal cells of a grid into rectangles.

use crate::world::block::BlockId;
use vstd::prelude::*;

verus! {

/// What a cell of a mask has to agree on before it is merged with another one.
#[derive(Clone, Copy, Debug)]
pub struct MaskCell {
    pub block: BlockId,
    /// How far along its direction the face lies.
    pub level: usize,
    /// Light at the four corners, in thirds.
    pub ao: [u8; 4],
}

/// A rectangle of equal cells: rows `a` to `a + da`, columns `b` to `b + db`.
#[derive(Clone, Copy, Debug)]
pub struct CellQuad {
    pub a: usize,
    pub b: usize,
    pub da: usize,
    pub db: usize,
    pub cell: MaskCell,
}

/// Only faces with the same light at all corners are merged, so that gradients stay visible.
pub open spec fn uniform(ao: [u8; 4]) -> bool {
    ao[0] == ao[1] && ao[1] == ao[2] && ao[2] == ao[3]
}

/// The cell in row `a` and column `b` of a mask with rows of `b_len` cells.
pub open spec fn cell_of(mask: Seq<Option<MaskCell>>, b_len: int, a: int, b: int) -> Option<
    MaskCell,
> {
    mask[a * b_len + b]
}

/// How many cells from (a, b) on to the end of the row are `c` without a gap.
pub open spec fn row_run(
    mask: Seq<Option<MaskCell>>,
    b_len: int,
    a: int,
    b: int,
    c: MaskCell,
) -> int
    decreases b_len - b,
{
    if b < b_len && cell_of(mask, b_len, a, b) == Some(c) {
        1 + row_run(mask, b_len, a, b + 1, c)
    } else {
        0
    }
}

/// The `db` cells of row `a` from column `b` on are all `c`.
pub open spec fn row_full(
    mask: Seq<Option<MaskCell>>,
    b_len: int,
    a: int,
    b: int,
    db: int,
    c: MaskCell,
) -> bool {
    forall|k: int| b <= k < b + db ==> #[trigger] cell_of(mask, b_len, a, k) == Some(c)
}

/// How many rows from row `a` on have `c` in all of the `db` columns from `b` on.
pub open spec fn col_run(
    mask: Seq<Option<MaskCell>>,
    a_len: int,
    b_len: int,
    a: int,
    b: int,
    db: int,
    c: MaskCell,
) -> int
    decreases a_len - a,
{
    if a < a_len && row_full(mask, b_len, a, b, db, c) {
        1 + col_run(mask, a_len, b_len, a + 1, b, db, c)
    } else {
        0
    }
}

/// The rectangle that starts at (a, b): as wide as the row allows, then as deep as that width
/// allows. A cell with uneven light stays alone.
pub open spec fn quad_from(
    mask: Seq<Option<MaskCell>>,
    a_len: int,
    b_len: int,
    a: int,
    b: int,
) -> CellQuad {
    let c = cell_of(mask, b_len, a, b)->0;
    if uniform(c.ao) {
        let db = row_run(mask, b_len, a, b, c);
        let da = col_run(mask, a_len, b_len, a, b, db, c);
        CellQuad { a: a as usize, b: b as usize, da: da as usize, db: db as usize, cell: c }
    } else {
        CellQuad { a: a as usize, b: b as usize, da: 1, db: 1, cell: c }
    }
}

/// A rectangle holds a cell.
pub open spec fn covers(q: CellQuad, a: int, b: int) -> bool {
    q.a <= a < q.a + q.da && q.b <= b < q.b + q.db
}

/// One of the rectangles holds a cell.
pub open spec fn covered(qs: Seq<CellQuad>, a: int, b: int) -> bool {
    exists|j: int| 0 <= j < qs.len() && #[trigger] covers(qs[j], a, b)
}

/// The rectangles after cell (a, b) was looked at.
pub open spec fn merge_step(
    mask: Seq<Option<MaskCell>>,
    a_len: int,
    b_len: int,
    a: int,
    b: int,
    qs: Seq<CellQuad>,
) -> Seq<CellQuad> {
    if cell_of(mask, b_len, a, b) is None || covered(qs, a, b) {
        qs
    } else {
        qs.push(quad_from(mask, a_len, b_len, a, b))
    }
}

/// The rectangles made of a mask when the cells before (a, b) were looked at, row by row. A new
/// rectangle starts at each cell that is filled and that no earlier rectangle holds.
pub open spec fn merged_to(
    mask: Seq<Option<MaskCell>>,
    a_len: int,
    b_len: int,
    a: int,
    b: int,
) -> Seq<CellQuad>
    decreases a, b,
{
    if b > 0 {
        merge_step(mask, a_len, b_len, a, b - 1, merged_to(mask, a_len, b_len, a, b - 1))
    } else if a > 0 {
        merged_to(mask, a_len, b_len, a - 1, if b_len > 0 { b_len } else { 0 })
    } else {
        Seq::empty()
    }
}

/// The rectangles made of a whole mask.
pub open spec fn merged(mask: Seq<Option<MaskCell>>, a_len: int, b_len: int) -> Seq<CellQuad> {
    merged_to(mask, a_len, b_len, a_len, 0)
}

proof fn lemma_index(a_len: int, b_len: int, a: int, b: int)
    requires
        0 <= a < a_len,
        0 <= b < b_len,
    ensures
        0 <= a * b_len + b < a_len * b_len,
        a * b_len <= a * b_len + b,
        0 <= a * b_len,
{
    assert(0 <= a * b_len && a * b_len + b < a_len * b_len) by (nonlinear_arith)
        requires
            0 <= a < a_len,
            0 <= b < b_len,
    ;
}

proof fn lemma_index_injective(b_len: int, a: int, b: int, a2: int, b2: int)
    requires
        0 <= b < b_len,
        0 <= b2 < b_len,
        a * b_len + b == a2 * b_len + b2,
    ensures
        a == a2,
        b == b2,
{
    assert(a == a2) by (nonlinear_arith)
        requires
            0 <= b < b_len,
            0 <= b2 < b_len,
            a * b_len + b == a2 * b_len + b2,
    ;
}

proof fn lemma_row_run(mask: Seq<Option<MaskCell>>, b_len: int, a: int, b: int, c: MaskCell)
    requires
        b <= b_len,
    ensures
        0 <= row_run(mask, b_len, a, b, c) <= b_len - b,
        row_full(mask, b_len, a, b, row_run(mask, b_len, a, b, c), c),
    decreases b_len - b,
{
    if b < b_len && cell_of(mask, b_len, a, b) == Some(c) {
        lemma_row_run(mask, b_len, a, b + 1, c);
        assert forall|k: int|
            b <= k < b + row_run(mask, b_len, a, b, c) implies #[trigger] cell_of(mask, b_len, a, k)
            == Some(c) by {
            if k > b {
                assert(b + 1 <= k < b + 1 + row_run(mask, b_len, a, b + 1, c));
            }
        }
    }
}

proof fn lemma_col_run(
    mask: Seq<Option<MaskCell>>,
    a_len: int,
    b_len: int,
    a: int,
    b: int,
    db: int,
    c: MaskCell,
)
    requires
        a <= a_len,
    ensures
        0 <= col_run(mask, a_len, b_len, a, b, db, c) <= a_len - a,
        forall|k: int|
            a <= k < a + col_run(mask, a_len, b_len, a, b, db, c) ==> #[trigger] row_full(
                mask,
                b_len,
                k,
                b,
                db,
                c,
            ),
    decreases a_len - a,
{
    if a < a_len && row_full(mask, b_len, a, b, db, c) {
        lemma_col_run(mask, a_len, b_len, a + 1, b, db, c);
        assert forall|k: int|
            a <= k < a + col_run(mask, a_len, b_len, a, b, db, c) implies #[trigger] row_full(
            mask,
            b_len,
            k,
            b,
            db,
            c,
        ) by {
            if k > a {
                assert(a + 1 <= k < a + 1 + col_run(mask, a_len, b_len, a + 1, b, db, c));
            }
        }
    }
}

/// A rectangle lies in the mask, and all its cells are the one it was started at.
pub open spec fn quad_ok(
    mask: Seq<Option<MaskCell>>,
    a_len: int,
    b_len: int,
    q: CellQuad,
) -> bool {
    &&& 1 <= q.da
    &&& 1 <= q.db
    &&& q.a + q.da <= a_len
    &&& q.b + q.db <= b_len
    &&& forall|a: int, b: int| #[trigger]
        covers(q, a, b) ==> cell_of(mask, b_len, a, b) == Some(q.cell)
    &&& !uniform(q.cell.ao) ==> q.da == 1 && q.db == 1
}

proof fn lemma_quad_from(mask: Seq<Option<MaskCell>>, a_len: int, b_len: int, a: int, b: int)
    requires
        0 <= a < a_len <= usize::MAX,
        0 <= b < b_len <= usize::MAX,
        cell_of(mask, b_len, a, b) is Some,
    ensures
        quad_ok(mask, a_len, b_len, quad_from(mask, a_len, b_len, a, b)),
        covers(quad_from(mask, a_len, b_len, a, b), a, b),
        quad_from(mask, a_len, b_len, a, b).a == a,
        quad_from(mask, a_len, b_len, a, b).b == b,
{
    let c = cell_of(mask, b_len, a, b)->0;
    let q = quad_from(mask, a_len, b_len, a, b);
    if uniform(c.ao) {
        let db = row_run(mask, b_len, a, b, c);
        lemma_row_run(mask, b_len, a, b, c);
        lemma_row_run(mask, b_len, a, b + 1, c);
        lemma_col_run(mask, a_len, b_len, a, b, db, c);
        lemma_col_run(mask, a_len, b_len, a + 1, b, db, c);
        assert forall|a2: int, b2: int| #[trigger] covers(q, a2, b2) implies cell_of(
            mask,
            b_len,
            a2,
            b2,
        ) == Some(q.cell) by {
            assert(row_full(mask, b_len, a2, b, db, c));
        }
    }
}

proof fn lemma_covered_push(qs: Seq<CellQuad>, q: CellQuad, a: int, b: int)
    ensures
        covered(qs.push(q), a, b) == (covered(qs, a, b) || covers(q, a, b)),
{
    if covered(qs, a, b) {
        let j = choose|j: int| 0 <= j < qs.len() && #[trigger] covers(qs[j], a, b);
        assert(covers(qs.push(q)[j], a, b));
    }
    if covers(q, a, b) {
        assert(covers(qs.push(q)[qs.len() as int], a, b));
    }
    if covered(qs.push(q), a, b) {
        let j = choose|j: int|
            0 <= j < qs.push(q).len() && #[trigger] covers(qs.push(q)[j], a, b);
        if j < qs.len() {
            assert(covers(qs[j], a, b));
        }
    }
}

/// What holds of the rectangles that were made so far.
spec fn merge_inv(
    mask: Seq<Option<MaskCell>>,
    a_len: int,
    b_len: int,
    a: int,
    b: int,
    qs: Seq<CellQuad>,
) -> bool {
    &&& forall|j: int| 0 <= j < qs.len() ==> quad_ok(mask, a_len, b_len, #[trigger] qs[j])
    &&& forall|a2: int, b2: int|
        0 <= a2 && 0 <= b2 < b_len && (a2 < a || a2 == a && b2 < b) && cell_of(
            mask,
            b_len,
            a2,
            b2,
        ) is Some ==> #[trigger] covered(qs, a2, b2)
    &&& qs.len() <= a * b_len + b
}

proof fn lemma_merge_inv(mask: Seq<Option<MaskCell>>, a_len: int, b_len: int, a: int, b: int)
    requires
        0 <= a_len <= usize::MAX,
        0 <= b_len <= usize::MAX,
        0 <= a < a_len && 0 <= b <= b_len || a == a_len && b == 0,
    ensures
        merge_inv(mask, a_len, b_len, a, b, merged_to(mask, a_len, b_len, a, b)),
    decreases a, b,
{
    let qs = merged_to(mask, a_len, b_len, a, b);
    if b > 0 {
        lemma_merge_inv(mask, a_len, b_len, a, b - 1);
        let prev = merged_to(mask, a_len, b_len, a, b - 1);
        if cell_of(mask, b_len, a, b - 1) is None || covered(prev, a, b - 1) {
            assert(qs == prev);
        } else {
            let q = quad_from(mask, a_len, b_len, a, b - 1);
            lemma_quad_from(mask, a_len, b_len, a, b - 1);
            assert(qs == prev.push(q));
            assert forall|j: int| 0 <= j < qs.len() implies quad_ok(
                mask,
                a_len,
                b_len,
                #[trigger] qs[j],
            ) by {
                if j < prev.len() {
                    assert(qs[j] == prev[j]);
                }
            }
            assert forall|a2: int, b2: int|
                0 <= a2 && 0 <= b2 < b_len && (a2 < a || a2 == a && b2 < b) && cell_of(
                    mask,
                    b_len,
                    a2,
                    b2,
                ) is Some implies #[trigger] covered(qs, a2, b2) by {
                lemma_covered_push(prev, q, a2, b2);
                if a2 == a && b2 == b - 1 {
                } else {
                    assert(covered(prev, a2, b2));
                }
            }
        }
    } else if a > 0 {
        lemma_merge_inv(mask, a_len, b_len, a - 1, b_len);
        assert((a - 1) * b_len + b_len == a * b_len) by (nonlinear_arith);
    }
}

/// The rectangles lie in the mask, each holds equal cells only, and together they hold exactly
/// the filled cells. There are no more of them than cells.
pub proof fn law_merged(mask: Seq<Option<MaskCell>>, a_len: int, b_len: int)
    requires
        0 <= a_len <= usize::MAX,
        0 <= b_len <= usize::MAX,
    ensures
        forall|j: int|
            0 <= j < merged(mask, a_len, b_len).len() ==> quad_ok(
                mask,
                a_len,
                b_len,
                #[trigger] merged(mask, a_len, b_len)[j],
            ),
        forall|a: int, b: int|
            0 <= a < a_len && 0 <= b < b_len ==> (cell_of(mask, b_len, a, b) is Some
                <==> #[trigger] covered(merged(mask, a_len, b_len), a, b)),
        merged(mask, a_len, b_len).len() <= a_len * b_len,
{
    let qs = merged(mask, a_len, b_len);
    lemma_merge_inv(mask, a_len, b_len, a_len, 0);
    assert forall|a: int, b: int| 0 <= a < a_len && 0 <= b < b_len implies (cell_of(
        mask,
        b_len,
        a,
        b,
    ) is Some <==> #[trigger] covered(qs, a, b)) by {
        if covered(qs, a, b) {
            let j = choose|j: int| 0 <= j < qs.len() && #[trigger] covers(qs[j], a, b);
            assert(quad_ok(mask, a_len, b_len, qs[j]));
        }
    }
}

proof fn lemma_run_ends(
    mask: Seq<Option<MaskCell>>,
    a_len: int,
    b_len: int,
    a: int,
    b: int,
    db: int,
    c: MaskCell,
)
    requires
        0 <= a <= a_len,
        0 <= b <= b_len,
    ensures
        ({
            let k = b + row_run(mask, b_len, a, b, c);
            b <= k <= b_len && (k == b_len || cell_of(mask, b_len, a, k) != Some(c))
        }),
        ({
            let k = a + col_run(mask, a_len, b_len, a, b, db, c);
            a <= k <= a_len && (k == a_len || !row_full(mask, b_len, k, b, db, c))
        }),
    decreases (a_len - a) + (b_len - b),
{
    if b < b_len && cell_of(mask, b_len, a, b) == Some(c) {
        lemma_run_ends(mask, a_len, b_len, a, b + 1, db, c);
    }
    if a < a_len && row_full(mask, b_len, a, b, db, c) {
        lemma_run_ends(mask, a_len, b_len, a + 1, b, db, c);
    }
}

proof fn lemma_made(mask: Seq<Option<MaskCell>>, a_len: int, b_len: int, a: int, b: int, j: int)
    requires
        0 <= a <= a_len <= usize::MAX,
        0 <= b <= b_len <= usize::MAX,
        a == a_len ==> b == 0,
        0 <= j < merged_to(mask, a_len, b_len, a, b).len(),
    ensures
        ({
            let q = merged_to(mask, a_len, b_len, a, b)[j];
            &&& q.a < a_len && q.b < b_len
            &&& q == quad_from(mask, a_len, b_len, q.a as int, q.b as int)
            &&& cell_of(mask, b_len, q.a as int, q.b as int) is Some
        }),
    decreases a, b,
{
    if b > 0 {
        let before = merged_to(mask, a_len, b_len, a, b - 1);
        if j < before.len() {
            lemma_made(mask, a_len, b_len, a, b - 1, j);
        } else {
            lemma_quad_from(mask, a_len, b_len, a, b - 1);
        }
    } else if a > 0 {
        lemma_made(mask, a_len, b_len, a - 1, b_len, j);
    }
}

/// Cells are merged as far as they can be: a rectangle of evenly lit cells cannot be made wider in
/// its first row, nor deeper in its full width.
pub proof fn law_merged_greedy(mask: Seq<Option<MaskCell>>, a_len: int, b_len: int, j: int)
    requires
        0 <= a_len <= usize::MAX,
        0 <= b_len <= usize::MAX,
        0 <= j < merged(mask, a_len, b_len).len(),
    ensures
        ({
            let q = merged(mask, a_len, b_len)[j];
            let (a, b, da, db) = (q.a as int, q.b as int, q.da as int, q.db as int);
            let ao = q.cell.ao;
            ao[0] == ao[1] && ao[1] == ao[2] && ao[2] == ao[3] ==> {
                &&& b + db == b_len || cell_of(mask, b_len, a, b + db) != Some(q.cell)
                &&& a + da == a_len || exists|k: int|
                    b <= k < b + db && #[trigger] cell_of(mask, b_len, a + da, k) != Some(q.cell)
            }
        }),
{
    let q = merged(mask, a_len, b_len)[j];
    lemma_made(mask, a_len, b_len, a_len, 0, j);
    let (a, b, da, db) = (q.a as int, q.b as int, q.da as int, q.db as int);
    lemma_quad_from(mask, a_len, b_len, a, b);
    lemma_run_ends(mask, a_len, b_len, a, b, db, q.cell);
    if uniform(q.cell.ao) && a + da < a_len {
        assert(!row_full(mask, b_len, a + da, b, db, q.cell));
        let k = choose|k: int|
            b <= k < b + db && #[trigger] cell_of(mask, b_len, a + da, k) != Some(q.cell);
    }
}

/// Whether a cell of the mask is `c`.
fn cell_is(mask: &Vec<Option<MaskCell>>, i: usize, c: &MaskCell) -> (r: bool)
    requires
        i < mask.len(),
    ensures
        r == (mask[i as int] == Some(*c)),
{
    match &mask[i] {
        Some(m) => {
            let r = m.block == c.block && m.level == c.level && m.ao[0] == c.ao[0] && m.ao[1]
                == c.ao[1] && m.ao[2] == c.ao[2] && m.ao[3] == c.ao[3];
            proof {
                if r {
                    assert(m.ao =~= c.ao);
                }
            }
            r
        },
        None => false,
    }
}

fn measure_row(mask: &Vec<Option<MaskCell>>, a_len: usize, b_len: usize, a: usize, b: usize, c: &MaskCell)
    -> (r: usize)
    requires
        mask.len() == a_len * b_len,
        a < a_len,
        b < b_len,
    ensures
        r == row_run(mask@, b_len as int, a as int, b as int, *c),
{
    let mut k: usize = 0;
    proof {
        lemma_index(a_len as int, b_len as int, a as int, b as int);
    }
    while b + k < b_len
        invariant
            mask.len() == a_len * b_len,
            a < a_len,
            b < b_len,
            b + k <= b_len,
            row_run(mask@, b_len as int, a as int, b as int, *c) == k + row_run(
                mask@,
                b_len as int,
                a as int,
                b + k,
                *c,
            ),
        decreases b_len - b - k,
    {
        proof {
            lemma_index(a_len as int, b_len as int, a as int, b + k);
        }
        if !cell_is(mask, a * b_len + (b + k), c) {
            return k;
        }
        k = k + 1;
    }
    k
}

fn check_row(mask: &Vec<Option<MaskCell>>, a_len: usize, b_len: usize, a: usize, b: usize, db: usize, c: &MaskCell)
    -> (r: bool)
    requires
        mask.len() == a_len * b_len,
        a < a_len,
        b + db <= b_len,
    ensures
        r == row_full(mask@, b_len as int, a as int, b as int, db as int, *c),
{
    let mut k: usize = b;
    while k < b + db
        invariant
            mask.len() == a_len * b_len,
            a < a_len,
            b <= k <= b + db,
            b + db <= b_len,
            forall|j: int| b <= j < k ==> #[trigger] cell_of(mask@, b_len as int, a as int, j) == Some(*c),
        decreases b + db - k,
    {
        proof {
            lemma_index(a_len as int, b_len as int, a as int, k as int);
        }
        if !cell_is(mask, a * b_len + k, c) {
            assert(cell_of(mask@, b_len as int, a as int, k as int) != Some(*c));
            return false;
        }
        k = k + 1;
    }
    true
}

fn measure_rows(mask: &Vec<Option<MaskCell>>, a_len: usize, b_len: usize, a: usize, b: usize, db: usize, c: &MaskCell)
    -> (r: usize)
    requires
        mask.len() == a_len * b_len,
        a < a_len,
        b + db <= b_len,
    ensures
        r == col_run(mask@, a_len as int, b_len as int, a as int, b as int, db as int, *c),
{
    let mut k: usize = 0;
    while a + k < a_len
        invariant
            mask.len() == a_len * b_len,
            a + k <= a_len,
            b + db <= b_len,
            col_run(mask@, a_len as int, b_len as int, a as int, b as int, db as int, *c) == k
                + col_run(mask@, a_len as int, b_len as int, a + k, b as int, db as int, *c),
        decreases a_len - a - k,
    {
        if !check_row(mask, a_len, b_len, a + k, b, db, c) {
            return k;
        }
        k = k + 1;
    }
    k
}

/// The mark of the cell in row `a` and column `b`.
spec fn mark_of(used: Seq<bool>, b_len: int, a: int, b: int) -> bool {
    used[a * b_len + b]
}

/// `used` marks the cells that the rectangles hold.
spec fn marks(used: Seq<bool>, a_len: int, b_len: int, qs: Seq<CellQuad>) -> bool {
    &&& used.len() == a_len * b_len
    &&& forall|a: int, b: int|
        0 <= a < a_len && 0 <= b < b_len ==> #[trigger] mark_of(used, b_len, a, b) == covered(
            qs,
            a,
            b,
        )
}

/// Whether (a, b) comes before row `a1`, column `b1` among the cells of a rectangle.
spec fn marked_before(q: CellQuad, a: int, b: int, a1: int, b1: int) -> bool {
    covers(q, a, b) && (a < a1 || a == a1 && b < b1)
}

fn mark_quad(used: &mut Vec<bool>, a_len: usize, b_len: usize, q: &CellQuad, Ghost(qs): Ghost<Seq<CellQuad>>)
    requires
        marks(old(used)@, a_len as int, b_len as int, qs),
        q.a + q.da <= a_len,
        q.b + q.db <= b_len,
    ensures
        marks(final(used)@, a_len as int, b_len as int, qs.push(*q)),
{
    let mut aa: usize = q.a;
    while aa < q.a + q.da
        invariant
            q.a <= aa <= q.a + q.da,
            q.a + q.da <= a_len,
            q.b + q.db <= b_len,
            used.len() == a_len * b_len,
            forall|a: int, b: int|
                0 <= a < a_len && 0 <= b < b_len ==> #[trigger] mark_of(used@, b_len as int, a, b) == (covered(
                    qs,
                    a,
                    b,
                ) || marked_before(*q, a, b, aa as int, q.b as int)),
        decreases q.a + q.da - aa,
    {
        let mut bb: usize = q.b;
        while bb < q.b + q.db
            invariant
                q.a <= aa < q.a + q.da,
                q.b <= bb <= q.b + q.db,
                q.a + q.da <= a_len,
                q.b + q.db <= b_len,
                used.len() == a_len * b_len,
                forall|a: int, b: int|
                    0 <= a < a_len && 0 <= b < b_len ==> #[trigger] mark_of(used@, b_len as int, a, b) == (
                    covered(qs, a, b) || marked_before(*q, a, b, aa as int, bb as int)),
            decreases q.b + q.db - bb,
        {
            let ghost before = used@;
            proof {
                lemma_index(a_len as int, b_len as int, aa as int, bb as int);
            }
            let i: usize = aa * b_len + bb;
            used[i] = true;
            proof {
                assert forall|a: int, b: int| 0 <= a < a_len && 0 <= b < b_len implies #[trigger] mark_of(used@, b_len as int, a, b) == (covered(qs, a, b) || marked_before(
                    *q,
                    a,
                    b,
                    aa as int,
                    bb + 1,
                )) by {
                    lemma_index(a_len as int, b_len as int, a, b);
                    assert(mark_of(before, b_len as int, a, b) == (covered(qs, a, b) || marked_before(*q, a, b, aa as int, bb as int)));
                    if a * b_len + b == i {
                        lemma_index_injective(b_len as int, a, b, aa as int, bb as int);
                    } else {
                        assert(mark_of(before, b_len as int, a, b) == used@[a * b_len + b]);
                    }
                }
            }
            bb = bb + 1;
        }
        aa = aa + 1;
    }
    proof {
        assert forall|a: int, b: int| 0 <= a < a_len && 0 <= b < b_len implies #[trigger] mark_of(used@, b_len as int, a, b)
            == covered(qs.push(*q), a, b) by {
            lemma_covered_push(qs, *q, a, b);
        }
    }
}

/// Merges the filled cells of a mask with `a_len` rows of `b_len` cells into rectangles.
pub fn merge_cells(mask: &Vec<Option<MaskCell>>, a_len: usize, b_len: usize) -> (r: Vec<CellQuad>)
    requires
        mask.len() == a_len * b_len,
    ensures
        r@ == merged(mask@, a_len as int, b_len as int),
{
    let mut quads: Vec<CellQuad> = Vec::new();
    let mut used: Vec<bool> = vec![false; mask.len()];
    proof {
        assert forall|a: int, b: int| 0 <= a < a_len && 0 <= b < b_len implies #[trigger] mark_of(used@, b_len as int, a, b)
            == covered(quads@, a, b) by {
            lemma_index(a_len as int, b_len as int, a, b);
        }
    }
    let mut a: usize = 0;
    while a < a_len
        invariant
            mask.len() == a_len * b_len,
            a <= a_len,
            quads@ == merged_to(mask@, a_len as int, b_len as int, a as int, 0),
            marks(used@, a_len as int, b_len as int, quads@),
        decreases a_len - a,
    {
        let mut b: usize = 0;
        while b < b_len
            invariant
                mask.len() == a_len * b_len,
                a < a_len,
                b <= b_len,
                quads@ == merged_to(mask@, a_len as int, b_len as int, a as int, b as int),
                marks(used@, a_len as int, b_len as int, quads@),
            decreases b_len - b,
        {
            proof {
                lemma_index(a_len as int, b_len as int, a as int, b as int);
                assert(mark_of(used@, b_len as int, a as int, b as int) == covered(quads@, a as int, b as int));
            }
            let i: usize = a * b_len + b;
            if !used[i] {
                if let Some(cell) = mask[i] {
                    let mut da: usize = 1;
                    let mut db: usize = 1;
                    if cell.ao[0] == cell.ao[1] && cell.ao[1] == cell.ao[2] && cell.ao[2]
                        == cell.ao[3] {
                        db = measure_row(mask, a_len, b_len, a, b, &cell);
                        proof {
                            lemma_row_run(mask@, b_len as int, a as int, b as int, cell);
                        }
                        da = measure_rows(mask, a_len, b_len, a, b, db, &cell);
                    }
                    let q = CellQuad { a, b, da, db, cell };
                    proof {
                        lemma_quad_from(mask@, a_len as int, b_len as int, a as int, b as int);
                        assert(q == quad_from(
                            mask@,
                            a_len as int,
                            b_len as int,
                            a as int,
                            b as int,
                        ));
                    }
                    mark_quad(&mut used, a_len, b_len, &q, Ghost(quads@));
                    quads.push(q);
                }
            }
            b = b + 1;
        }
        a = a + 1;
    }
    quads
}

} // verus!
