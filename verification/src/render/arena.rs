//! Sub-allocation of one large buffer.

use vstd::arithmetic::power2::{lemma2_to64, lemma_pow2_pos, lemma_pow2_unfold, pow2};
use vstd::prelude::*;

verus! {

/// What an arena keeps track of: its size, the size of its units, and the runs of bytes that are
/// free, as (offset, length).
#[verifier::ext_equal]
pub struct ArenaView {
    pub cap: int,
    pub align: int,
    pub free: Seq<(usize, usize)>,
}

/// A number of bytes, rounded up to whole units.
pub open spec fn round_up(n: int, align: int) -> int {
    (n + align - 1) / align * align
}

/// A number of bytes is made of whole units.
#[verifier::opaque]
pub open spec fn whole(n: int, align: int) -> bool {
    n % align == 0
}

/// A byte belongs to one of the runs.
pub open spec fn in_runs(runs: Seq<(usize, usize)>, byte: int) -> bool {
    exists|i: int| 0 <= i < runs.len() && run_has(#[trigger] runs[i], byte)
}

pub open spec fn run_has(run: (usize, usize), byte: int) -> bool {
    run.0 <= byte < run.0 + run.1
}

/// Runs are listed from low to high, and none of them is empty or touches the next.
pub open spec fn tidy(runs: Seq<(usize, usize)>) -> bool {
    &&& forall|i: int| 0 <= i < runs.len() ==> 0 < (#[trigger] runs[i]).1
    &&& forall|i: int, j: int|
        0 <= i < j < runs.len() ==> #[trigger] runs[i].0 + runs[i].1 < (#[trigger] runs[j]).0
}

/// The first run from the `i`-th on that has at least `n` bytes.
pub open spec fn first_fit(runs: Seq<(usize, usize)>, n: int, i: int) -> Option<int>
    decreases runs.len() - i,
{
    if i >= runs.len() {
        None
    } else if runs[i].1 >= n {
        Some(i)
    } else {
        first_fit(runs, n, i + 1)
    }
}

/// The runs after `n` bytes were taken from the start of the `i`-th.
pub open spec fn carved(runs: Seq<(usize, usize)>, i: int, n: int) -> Seq<(usize, usize)> {
    if runs[i].1 > n {
        runs.update(i, ((runs[i].0 + n) as usize, (runs[i].1 - n) as usize))
    } else {
        runs.remove(i)
    }
}

/// How many runs from the `i`-th on come before an offset: where a run with that offset belongs.
pub open spec fn place_of(runs: Seq<(usize, usize)>, offset: int, i: int) -> int
    decreases runs.len() - i,
{
    if i < runs.len() && runs[i].0 < offset {
        place_of(runs, offset, i + 1)
    } else {
        i
    }
}

/// The `i`-th run joined with the next one, where they touch.
pub open spec fn joined(runs: Seq<(usize, usize)>, i: int) -> Seq<(usize, usize)> {
    if 0 <= i && i + 1 < runs.len() && runs[i].0 + runs[i].1 == runs[i + 1].0 {
        runs.remove(i + 1).update(i, (runs[i].0, (runs[i].1 + runs[i + 1].1) as usize))
    } else {
        runs
    }
}

/// The runs after `n` bytes from `offset` on were given back.
#[verifier::opaque]
pub open spec fn released(runs: Seq<(usize, usize)>, offset: int, n: int) -> Seq<(usize, usize)> {
    let at = place_of(runs, offset, 0);
    joined(joined(runs.insert(at, (offset as usize, n as usize)), at), at - 1)
}

impl ArenaView {
    /// All of the buffer is free.
    pub open spec fn fresh(cap: int, align: int) -> ArenaView {
        ArenaView { cap, align, free: seq![(0usize, cap as usize)] }
    }

    /// The same arena with another size and other runs.
    pub open spec fn with(self, cap: int, free: Seq<(usize, usize)>) -> ArenaView {
        ArenaView { cap, align: self.align, free }
    }

    /// No run ends beyond the end of the buffer.
    pub open spec fn bounded(self) -> bool {
        &&& 0 < self.align <= usize::MAX
        &&& 0 <= self.cap <= usize::MAX
        &&& forall|i: int|
            0 <= i < self.free.len() ==> (#[trigger] self.free[i]).0 + self.free[i].1 <= self.cap
    }

    /// Runs are made of whole units, but for the rest of the buffer that is too short for one:
    /// that is always free.
    pub open spec fn aligned(self) -> bool {
        &&& forall|i: int|
            0 <= i < self.free.len() ==> whole((#[trigger] self.free[i]).0 as int, self.align)
        &&& forall|i: int|
            0 <= i < self.free.len() ==> self.ends_whole(#[trigger] self.free[i])
        &&& !whole(self.cap, self.align) ==> self.free.len() > 0 && self.free.last().0
            + self.free.last().1 == self.cap
    }

    /// A run ends with a whole unit or at the end of the buffer.
    pub open spec fn ends_whole(self, run: (usize, usize)) -> bool {
        whole(run.0 + run.1, self.align) || run.0 + run.1 == self.cap
    }

    pub open spec fn wf(self) -> bool {
        self.bounded() && tidy(self.free) && self.aligned()
    }

    /// A byte is free.
    pub open spec fn has(self, byte: int) -> bool {
        in_runs(self.free, byte)
    }

    /// None of `n` bytes from `offset` on is free: they are in use.
    pub open spec fn in_use(self, offset: int, n: int) -> bool {
        forall|b: int| offset <= b < offset + n ==> !#[trigger] self.has(b)
    }

    /// Where `size` bytes are taken from, and the arena after that.
    pub open spec fn after_alloc(self, size: int) -> (Option<usize>, ArenaView) {
        let n = round_up(size, self.align);
        if size == 0 {
            (Some(0), self)
        } else {
            match first_fit(self.free, n, 0) {
                Some(i) => (
                    Some(self.free[i].0),
                    self.with(self.cap, carved(self.free, i, n)),
                ),
                None => (None, self),
            }
        }
    }

    /// The arena after `size` bytes from `offset` on were given back.
    pub open spec fn after_free(self, offset: int, size: int) -> ArenaView {
        if size == 0 {
            self
        } else {
            self.with(self.cap, released(self.free, offset, round_up(size, self.align)))
        }
    }

    /// The arena after its buffer was replaced by a longer one.
    pub open spec fn after_growth(self, cap: int) -> ArenaView {
        if cap <= self.cap {
            self
        } else {
            self.with(cap, released(self.free, self.cap, cap - self.cap))
        }
    }
}

// ── Powers of two ────────────────────────────────────────────────────────────

/// The smallest power of two that is at least `n`, found by doubling `p`.
pub open spec fn doubled_to(p: int, n: int) -> int
    decreases (if n > p { n - p } else { 0 }),
{
    if p <= 0 || p >= n {
        p
    } else {
        doubled_to(2 * p, n)
    }
}

/// The smallest power of two that is at least `n`.
pub open spec fn power_of_two_above(n: int) -> int {
    doubled_to(1, n)
}

pub proof fn lemma_doubled_to(p: int, n: int)
    requires
        0 < p,
    ensures
        n <= doubled_to(p, n),
        p <= doubled_to(p, n),
        doubled_to(p, n) == p || doubled_to(p, n) < 2 * n,
    decreases (if n > p { n - p } else { 0 }),
{
    if p < n {
        lemma_doubled_to(2 * p, n);
    }
}

/// The smallest power of two that is at least `n`.
pub fn next_power_of_two(n: u64) -> (r: u64)
    requires
        n <= 0x8000_0000_0000_0000,
    ensures
        r == power_of_two_above(n as int),
        n <= r,
        1 <= r,
        r == 1 || r < 2 * n,
{
    let mut p: u64 = 1;
    proof {
        lemma_doubled_to(1, n as int);
    }
    while p < n
        invariant
            1 <= p,
            n <= 0x8000_0000_0000_0000,
            doubled_to(p as int, n as int) == power_of_two_above(n as int),
        decreases (if n > p { n - p } else { 0 }),
    {
        p = 2 * p;
    }
    p
}

// ── Lemmas ───────────────────────────────────────────────────────────────────

pub proof fn lemma_round_up(n: int, align: int)
    requires
        0 < align,
        0 <= n,
    ensures
        n <= round_up(n, align) < n + align,
        whole(round_up(n, align), align),
        n > 0 ==> round_up(n, align) > 0,
        whole(n, align) ==> round_up(n, align) == n,
{
    reveal(whole);
    let q = (n + align - 1) / align;
    vstd::arithmetic::div_mod::lemma_fundamental_div_mod(n + align - 1, align);
    vstd::arithmetic::mul::lemma_mul_is_commutative(q, align);
    vstd::arithmetic::div_mod::lemma_mod_multiples_basic(q, align);
    if n % align == 0 {
        vstd::arithmetic::div_mod::lemma_fundamental_div_mod(n, align);
        let k = n / align;
        assert(q == k) by (nonlinear_arith)
            requires
                n == align * k,
                0 < align,
                n + align - 1 == align * q + (n + align - 1) % align,
                0 <= (n + align - 1) % align < align,
        ;
    }
}

pub proof fn lemma_round_zero(align: int)
    requires
        0 < align,
    ensures
        round_up(0, align) == 0,
        whole(0, align),
{
    reveal(whole);
    vstd::arithmetic::div_mod::lemma_small_mod(0, align as nat);
    lemma_round_up(0, align);
}

proof fn lemma_whole_sum(a: int, b: int, align: int)
    requires
        0 < align,
        whole(a, align),
        whole(b, align),
    ensures
        whole(a + b, align),
{
    reveal(whole);
    vstd::arithmetic::div_mod::lemma_add_mod_noop(a, b, align);
    vstd::arithmetic::div_mod::lemma_small_mod(0, align as nat);
}

pub proof fn lemma_first_fit(runs: Seq<(usize, usize)>, n: int, i: int)
    requires
        0 <= i,
    ensures
        match first_fit(runs, n, i) {
            Some(k) => i <= k < runs.len() && runs[k].1 >= n && forall|j: int|
                i <= j < k ==> (#[trigger] runs[j]).1 < n,
            None => forall|j: int| i <= j < runs.len() ==> (#[trigger] runs[j]).1 < n,
        },
    decreases runs.len() - i,
{
    if i < runs.len() && runs[i].1 < n {
        lemma_first_fit(runs, n, i + 1);
    }
}

pub proof fn lemma_place_of(runs: Seq<(usize, usize)>, offset: int, i: int)
    requires
        0 <= i <= runs.len(),
    ensures
        i <= place_of(runs, offset, i) <= runs.len(),
        forall|j: int|
            i <= j < place_of(runs, offset, i) ==> (#[trigger] runs[j]).0 < offset,
        place_of(runs, offset, i) < runs.len() ==> runs[place_of(runs, offset, i)].0 >= offset,
    decreases runs.len() - i,
{
    if i < runs.len() && runs[i].0 < offset {
        lemma_place_of(runs, offset, i + 1);
    }
}

/// Joining runs that touch keeps the bytes. Runs that were tidy but for that become so.
proof fn lemma_joined(runs: Seq<(usize, usize)>, i: int, cap: int)
    requires
        0 <= cap <= usize::MAX,
        forall|k: int|
            0 <= k < runs.len() ==> (#[trigger] runs[k]).0 + runs[k].1 <= cap,
    ensures
        forall|b: int| #[trigger] in_runs(joined(runs, i), b) <==> in_runs(runs, b),
        forall|k: int|
            0 <= k < joined(runs, i).len() ==> (#[trigger] joined(runs, i)[k]).0 + joined(
                runs,
                i,
            )[k].1 <= cap,
{
    let after = joined(runs, i);
    if 0 <= i && i + 1 < runs.len() && runs[i].0 + runs[i].1 == runs[i + 1].0 {
        assert(after.len() == runs.len() - 1);
        assert forall|k: int| 0 <= k < after.len() implies (#[trigger] after[k]).0 + after[k].1
            <= cap by {
            assert(after[k] == if k == i {
                (runs[i].0, (runs[i].1 + runs[i + 1].1) as usize)
            } else if k < i {
                runs[k]
            } else {
                runs[k + 1]
            });
            assert(runs[i + 1].0 + runs[i + 1].1 <= cap);
        }
        assert(runs[i].0 + runs[i].1 + runs[i + 1].1 <= cap);
        assert(after[i].1 == runs[i].1 + runs[i + 1].1);
        assert forall|b: int| #[trigger] in_runs(after, b) implies in_runs(runs, b) by {
            let k = choose|k: int| 0 <= k < after.len() && run_has(#[trigger] after[k], b);
            if k < i {
                assert(run_has(runs[k], b));
            } else if k == i {
                assert(run_has(runs[i], b) || run_has(runs[i + 1], b));
            } else {
                assert(run_has(runs[k + 1], b));
            }
        }
        assert forall|b: int| in_runs(runs, b) implies #[trigger] in_runs(after, b) by {
            let k = choose|k: int| 0 <= k < runs.len() && run_has(#[trigger] runs[k], b);
            if k < i {
                assert(run_has(after[k], b));
            } else if k == i || k == i + 1 {
                assert(run_has(after[i], b));
            } else {
                assert(run_has(after[k - 1], b));
            }
        }
    }
}

/// Giving back bytes that were in use puts one run from `s` to `e` in the place of the runs that
/// it touches: those from the `l`-th up to the `t`-th.
proof fn lemma_released_shape(runs: Seq<(usize, usize)>, offset: int, n: int) -> (r: (
    int,
    int,
    int,
    int,
))
    requires
        tidy(runs),
        0 <= offset,
        0 < n,
        offset + n <= usize::MAX,
        forall|k: int|
            0 <= k < runs.len() ==> (#[trigger] runs[k]).0 + runs[k].1 <= usize::MAX,
        forall|k: int|
            0 <= k < runs.len() ==> (#[trigger] runs[k]).0 + runs[k].1 <= offset || offset + n
                <= runs[k].0,
    ensures
        ({
            let (l, t, s, e) = r;
            let at = place_of(runs, offset, 0);
            &&& 0 <= at <= runs.len()
            &&& (l == at && s == offset && (l > 0 ==> runs[l - 1].0 + runs[l - 1].1 < offset)) || (l
                == at - 1 && 0 <= l && s == runs[l].0 && runs[l].0 + runs[l].1 == offset)
            &&& (t == at && e == offset + n && (t < runs.len() ==> e < runs[t].0)) || (t == at + 1
                && t <= runs.len() && e == runs[at].0 + runs[at].1 && offset + n == runs[at].0)
            &&& released(runs, offset, n) == runs.take(l) + seq![(s as usize, (e - s) as usize)]
                + runs.skip(t)
            &&& s < e <= usize::MAX
        }),
{
    reveal(released);
    let at = place_of(runs, offset, 0);
    lemma_place_of(runs, offset, 0);
    let run = (offset as usize, n as usize);
    let a = runs.insert(at, run);
    let b = joined(a, at);
    let c = joined(b, at - 1);
    let joins_next = at < runs.len() && offset + n == runs[at].0;
    let joins_last = at > 0 && runs[at - 1].0 + runs[at - 1].1 == offset;
    let t = if joins_next {
        at + 1
    } else {
        at
    };
    let e = if joins_next {
        runs[at].0 + runs[at].1
    } else {
        offset + n
    };
    if at < runs.len() {
        assert(a[at + 1] == runs[at]);
        assert(runs[at].0 >= offset);
        assert(0 < runs[at].1);
        assert(offset + n <= runs[at].0);
    }
    assert(a[at] == run);
    assert(b =~= runs.take(at) + seq![(offset as usize, (e - offset) as usize)] + runs.skip(t));
    if at > 0 {
        assert(runs[at - 1].0 < offset);
        assert(runs[at - 1].0 + runs[at - 1].1 <= offset);
        assert(b[at - 1] == runs[at - 1]);
    }
    assert(b[at] == (offset as usize, (e - offset) as usize));
    let l = if joins_last {
        at - 1
    } else {
        at
    };
    let s = if joins_last {
        runs[at - 1].0 as int
    } else {
        offset
    };
    assert(c =~= runs.take(l) + seq![(s as usize, (e - s) as usize)] + runs.skip(t));
    (l, t, s, e)
}

/// Giving back bytes that were in use keeps the list tidy.
proof fn lemma_released_tidy(runs: Seq<(usize, usize)>, offset: int, n: int)
    requires
        tidy(runs),
        0 <= offset,
        0 < n,
        offset + n <= usize::MAX,
        forall|k: int|
            0 <= k < runs.len() ==> (#[trigger] runs[k]).0 + runs[k].1 <= usize::MAX,
        forall|k: int|
            0 <= k < runs.len() ==> (#[trigger] runs[k]).0 + runs[k].1 <= offset || offset + n
                <= runs[k].0,
    ensures
        tidy(released(runs, offset, n)),
{
    let (l, t, s, e) = lemma_released_shape(runs, offset, n);
    let c = released(runs, offset, n);
    assert forall|k: int| 0 <= k < c.len() implies #[trigger] c[k] == (if k < l {
        runs[k]
    } else if k == l {
        (s as usize, (e - s) as usize)
    } else {
        runs[k - l - 1 + t]
    }) by {}
    assert forall|k: int| 0 <= k < l implies (#[trigger] runs[k]).0 + runs[k].1 < s by {
        if k < l - 1 {
            assert(runs[k].0 + runs[k].1 < runs[l - 1].0);
            assert(0 < runs[l - 1].1);
        }
        if l < place_of(runs, offset, 0) {
            assert(runs[k].0 + runs[k].1 < runs[l].0);
        }
    }
    assert forall|k: int| t <= k < runs.len() implies e < (#[trigger] runs[k]).0 by {
        if t > place_of(runs, offset, 0) {
            assert(runs[t - 1].0 + runs[t - 1].1 < runs[k].0);
        } else if k > t {
            assert(runs[t].0 + runs[t].1 < runs[k].0);
        }
    }
    assert forall|i: int, j: int| 0 <= i < j < c.len() implies #[trigger] c[i].0 + c[i].1 < (
    #[trigger] c[j]).0 by {
        if i < l {
            if j < l {
                assert(runs[i].0 + runs[i].1 < runs[j].0);
            } else if j == l {
                assert(runs[i].0 + runs[i].1 < s);
            } else {
                assert(runs[i].0 + runs[i].1 < runs[j - l - 1 + t].0);
            }
        } else if i == l {
            assert(e < runs[j - l - 1 + t].0);
        } else {
            assert(runs[i - l - 1 + t].0 + runs[i - l - 1 + t].1 < runs[j - l - 1 + t].0);
        }
    }
}

/// Giving back bytes makes them free, and no others.
proof fn lemma_released(runs: Seq<(usize, usize)>, offset: int, n: int, cap: int)
    requires
        0 <= cap <= usize::MAX,
        forall|k: int|
            0 <= k < runs.len() ==> (#[trigger] runs[k]).0 + runs[k].1 <= cap,
        0 <= offset,
        0 <= n,
        offset + n <= cap,
    ensures
        forall|k: int|
            0 <= k < released(runs, offset, n).len() ==> (#[trigger] released(
                runs,
                offset,
                n,
            )[k]).0 + released(runs, offset, n)[k].1 <= cap,
        forall|b: int|
            #[trigger] in_runs(released(runs, offset, n), b) <==> in_runs(runs, b) || offset <= b
                < offset + n,
{
    reveal(released);
    let at = place_of(runs, offset, 0);
    lemma_place_of(runs, offset, 0);
    let run = (offset as usize, n as usize);
    let a = runs.insert(at, run);
    assert forall|k: int| 0 <= k < a.len() implies #[trigger] a[k] == if k < at {
        runs[k]
    } else if k == at {
        run
    } else {
        runs[k - 1]
    } by {}
    assert forall|b: int| #[trigger] in_runs(a, b) <==> in_runs(runs, b) || offset <= b < offset
        + n by {
        if in_runs(a, b) {
            let k = choose|k: int| 0 <= k < a.len() && run_has(#[trigger] a[k], b);
            if k < at {
                assert(run_has(runs[k], b));
            } else if k > at {
                assert(run_has(runs[k - 1], b));
            }
        }
        if in_runs(runs, b) {
            let k = choose|k: int| 0 <= k < runs.len() && run_has(#[trigger] runs[k], b);
            if k < at {
                assert(run_has(a[k], b));
            } else {
                assert(run_has(a[k + 1], b));
            }
        }
        if offset <= b < offset + n {
            assert(run_has(a[at], b));
        }
    }
    lemma_joined(a, at, cap);
    lemma_joined(joined(a, at), at - 1, cap);
}

/// Taking bytes from the first run that is long enough makes them used, and no others.
proof fn lemma_carved(a: ArenaView, i: int, n: int)
    requires
        a.wf(),
        0 <= i < a.free.len(),
        0 < n <= a.free[i].1,
        whole(n, a.align),
    ensures
        a.with(a.cap, carved(a.free, i, n)).wf(),
        whole(a.free[i].0 as int, a.align),
        a.free[i].0 + n <= a.cap,
        forall|b: int| a.free[i].0 <= b < a.free[i].0 + n ==> #[trigger] a.has(b),
        forall|b: int|
            #[trigger] in_runs(carved(a.free, i, n), b) <==> a.has(b) && !(a.free[i].0 <= b
                < a.free[i].0 + n),
{
    let runs = a.free;
    let after = carved(runs, i, n);
    let off = runs[i].0;
    let len = runs[i].1;
    assert forall|b: int| off <= b < off + n implies #[trigger] a.has(b) by {
        assert(run_has(runs[i], b));
    }
    lemma_whole_sum(off as int, n, a.align);
    if len > n {
        assert forall|b: int|
            #[trigger] in_runs(after, b) <==> a.has(b) && !(off <= b < off + n) by {
            if in_runs(after, b) {
                let k = choose|k: int| 0 <= k < after.len() && run_has(#[trigger] after[k], b);
                assert(run_has(runs[k], b));
                if k != i {
                    assert(runs[k].0 + runs[k].1 < off || off + len < runs[k].0);
                }
            }
            if a.has(b) && !(off <= b < off + n) {
                let k = choose|k: int| 0 <= k < runs.len() && run_has(#[trigger] runs[k], b);
                assert(run_has(after[k], b));
            }
        }
        let v = a.with(a.cap, after);
        assert forall|j: int, k: int| 0 <= j < k < after.len() implies #[trigger] after[j].0
            + after[j].1 < (#[trigger] after[k]).0 by {
            assert(runs[j].0 + runs[j].1 < runs[k].0);
        }
        assert(v.bounded());
        assert forall|j: int| 0 <= j < after.len() implies whole(
            (#[trigger] after[j]).0 as int,
            a.align,
        ) && v.ends_whole(after[j]) by {
            assert(whole(runs[j].0 as int, a.align));
            assert(a.ends_whole(runs[j]));
        }
        assert(v.aligned());
    } else {
        assert forall|k: int| 0 <= k < after.len() implies #[trigger] after[k] == if k < i {
            runs[k]
        } else {
            runs[k + 1]
        } by {}
        assert forall|b: int|
            #[trigger] in_runs(after, b) <==> a.has(b) && !(off <= b < off + n) by {
            if in_runs(after, b) {
                let k = choose|k: int| 0 <= k < after.len() && run_has(#[trigger] after[k], b);
                let m = if k < i {
                    k
                } else {
                    k + 1
                };
                assert(run_has(runs[m], b));
                assert(runs[m].0 + runs[m].1 < off || off + len < runs[m].0);
            }
            if a.has(b) && !(off <= b < off + n) {
                let k = choose|k: int| 0 <= k < runs.len() && run_has(#[trigger] runs[k], b);
                assert(k != i);
                if k < i {
                    assert(run_has(after[k], b));
                } else {
                    assert(run_has(after[k - 1], b));
                }
            }
        }
        let v = a.with(a.cap, after);
        assert(v.bounded());
        if !whole(a.cap, a.align) {
            assert(runs.last().0 + runs.last().1 == a.cap);
            assert(off + len == off + n);
            assert(i != runs.len() - 1);
            assert(after.last() == runs.last());
        }
        assert forall|j: int| 0 <= j < after.len() implies whole(
            (#[trigger] after[j]).0 as int,
            a.align,
        ) && v.ends_whole(after[j]) by {
            let m = if j < i {
                j
            } else {
                j + 1
            };
            assert(whole(runs[m].0 as int, a.align));
            assert(a.ends_whole(runs[m]));
        }
        assert(v.aligned());
    }
}

/// Two tidy lists with the same bytes are the same list.
pub proof fn law_tidy_unique(a: Seq<(usize, usize)>, b: Seq<(usize, usize)>)
    requires
        tidy(a),
        tidy(b),
        forall|x: int| #[trigger] in_runs(a, x) <==> in_runs(b, x),
    ensures
        a == b,
    decreases a.len(),
{
    if a.len() == 0 {
        if b.len() > 0 {
            assert(run_has(b[0], b[0].0 as int));
            assert(in_runs(b, b[0].0 as int));
            assert(in_runs(a, b[0].0 as int));
        }
        assert(a =~= b);
    } else {
        assert(run_has(a[0], a[0].0 as int));
        assert(in_runs(a, a[0].0 as int));
        assert(in_runs(b, a[0].0 as int));
        assert(run_has(b[0], b[0].0 as int));
        lemma_first_run(a, b);
        lemma_first_run(b, a);
        let ta = a.drop_first();
        let tb = b.drop_first();
        lemma_tail(a);
        lemma_tail(b);
        assert forall|x: int| #[trigger] in_runs(ta, x) <==> in_runs(tb, x) by {
            assert(in_runs(a, x) <==> in_runs(b, x));
        }
        law_tidy_unique(ta, tb);
        assert(a =~= seq![a[0]] + ta);
        assert(b =~= seq![b[0]] + tb);
    }
}

proof fn lemma_tail(a: Seq<(usize, usize)>)
    requires
        tidy(a),
        a.len() > 0,
    ensures
        tidy(a.drop_first()),
        forall|x: int|
            #[trigger] in_runs(a.drop_first(), x) <==> in_runs(a, x) && !run_has(a[0], x),
{
    let t = a.drop_first();
    assert forall|x: int| #[trigger] in_runs(t, x) <==> in_runs(a, x) && !run_has(a[0], x) by {
        if in_runs(t, x) {
            let k = choose|k: int| 0 <= k < t.len() && run_has(#[trigger] t[k], x);
            assert(run_has(a[k + 1], x));
            assert(a[0].0 + a[0].1 < a[k + 1].0);
        }
        if in_runs(a, x) && !run_has(a[0], x) {
            let k = choose|k: int| 0 <= k < a.len() && run_has(#[trigger] a[k], x);
            assert(run_has(t[k - 1], x));
        }
    }
    assert forall|i: int, j: int| 0 <= i < j < t.len() implies #[trigger] t[i].0 + t[i].1 < (
    #[trigger] t[j]).0 by {
        assert(a[i + 1].0 + a[i + 1].1 < a[j + 1].0);
    }
}

/// Half of the comparison of the first runs of two lists with the same bytes.
proof fn lemma_first_run(a: Seq<(usize, usize)>, b: Seq<(usize, usize)>)
    requires
        tidy(a),
        tidy(b),
        a.len() > 0,
        b.len() > 0,
        forall|x: int| #[trigger] in_runs(a, x) <==> in_runs(b, x),
    ensures
        b[0].0 <= a[0].0,
        b[0].0 == a[0].0 ==> b[0].1 <= a[0].1,
{
    let s = a[0].0 as int;
    assert(run_has(a[0], s));
    assert(in_runs(a, s));
    let k = choose|k: int| 0 <= k < b.len() && run_has(#[trigger] b[k], s);
    if k > 0 {
        assert(b[0].0 + b[0].1 < b[k].0);
    }
    if b[0].0 == a[0].0 && b[0].1 > a[0].1 {
        let e = a[0].0 + a[0].1;
        assert(run_has(b[0], e));
        assert(in_runs(b, e));
        assert(in_runs(a, e));
        let m = choose|m: int| 0 <= m < a.len() && run_has(#[trigger] a[m], e);
        if m > 0 {
            assert(a[0].0 + a[0].1 < a[m].0);
        }
    }
}

// ── Laws ─────────────────────────────────────────────────────────────────────

/// What is allocated was free before and is in use afterwards, lies inside the buffer and starts
/// at a whole unit. All other bytes stay as they were, so no two allocations overlap.
pub proof fn law_alloc(a: ArenaView, size: int)
    requires
        a.wf(),
        0 < size,
        a.after_alloc(size).0 is Some,
    ensures
        ({
            let (r, after) = a.after_alloc(size);
            let off = r->0 as int;
            let n = round_up(size, a.align);
            &&& after.wf()
            &&& whole(off, a.align)
            &&& size <= n
            &&& off + n <= a.cap
            &&& forall|b: int| off <= b < off + n ==> #[trigger] a.has(b)
            &&& after.in_use(off, n)
            &&& forall|b: int| #[trigger] after.has(b) <==> a.has(b) && !(off <= b < off + n)
        }),
{
    let n = round_up(size, a.align);
    lemma_round_up(size, a.align);
    lemma_first_fit(a.free, n, 0);
    let i = first_fit(a.free, n, 0)->0;
    lemma_carved(a, i, n);
}

/// An allocation fails only if no run of free bytes is long enough, and changes nothing then.
pub proof fn law_alloc_none(a: ArenaView, size: int)
    requires
        a.wf(),
        0 < size,
    ensures
        a.after_alloc(size).0 is None <==> forall|off: int|
            !#[trigger] all_free(a, off, round_up(size, a.align)),
        a.after_alloc(size).0 is None ==> a.after_alloc(size).1 == a,
{
    let n = round_up(size, a.align);
    lemma_round_up(size, a.align);
    lemma_first_fit(a.free, n, 0);
    match first_fit(a.free, n, 0) {
        Some(i) => {
            let off = a.free[i].0 as int;
            assert forall|b: int| off <= b < off + n implies #[trigger] a.has(b) by {
                assert(run_has(a.free[i], b));
            }
            assert(all_free(a, off, n));
        },
        None => {
            assert forall|off: int| !#[trigger] all_free(a, off, n) by {
                if all_free(a, off, n) {
                    assert(a.has(off));
                    let k = choose|k: int|
                        0 <= k < a.free.len() && run_has(#[trigger] a.free[k], off);
                    let e = a.free[k].0 + a.free[k].1;
                    assert(e < off + n);
                    assert(a.has(e));
                    let m = choose|m: int|
                        0 <= m < a.free.len() && run_has(#[trigger] a.free[m], e);
                    if m > k {
                        assert(a.free[k].0 + a.free[k].1 < a.free[m].0);
                    } else if m < k {
                        assert(a.free[m].0 + a.free[m].1 < a.free[k].0);
                    }
                }
            }
        },
    }
}

/// All of `n` bytes from `off` on are free.
pub open spec fn all_free(a: ArenaView, off: int, n: int) -> bool {
    forall|b: int| off <= b < off + n ==> #[trigger] a.has(b)
}

/// Giving back bytes in use makes exactly these free, and the list stays sorted and coalesced.
pub proof fn law_free(a: ArenaView, offset: int, size: int)
    requires
        a.wf(),
        0 < size,
        0 <= offset,
        whole(offset, a.align),
        offset + round_up(size, a.align) <= a.cap,
        a.in_use(offset, round_up(size, a.align)),
    ensures
        a.after_free(offset, size).wf(),
        forall|b: int|
            #[trigger] a.after_free(offset, size).has(b) <==> a.has(b) || offset <= b < offset
                + round_up(size, a.align),
{
    let n = round_up(size, a.align);
    lemma_round_up(size, a.align);
    lemma_added(a, offset, n, a.cap);
}

/// Bytes in use that are added to the free list, at the end of the buffer or inside it.
proof fn lemma_added(a: ArenaView, offset: int, n: int, cap: int)
    requires
        a.wf(),
        0 < n,
        0 <= offset,
        a.cap <= cap <= usize::MAX,
        offset + n <= cap,
        whole(offset, a.align) || offset == a.cap,
        a.cap == cap ==> whole(offset, a.align) && whole(n, a.align),
        a.cap < cap ==> offset == a.cap && offset + n == cap,
        a.in_use(offset, n),
    ensures
        a.with(cap, released(a.free, offset, n)).wf(),
        forall|b: int|
            #[trigger] in_runs(released(a.free, offset, n), b) <==> a.has(b) || offset <= b
                < offset + n,
{
    let runs = a.free;
    assert forall|k: int| 0 <= k < runs.len() implies (#[trigger] runs[k]).0 + runs[k].1 <= offset
        || offset + n <= runs[k].0 by {
        if runs[k].0 + runs[k].1 > offset && offset + n > runs[k].0 {
            let b = if runs[k].0 > offset {
                runs[k].0 as int
            } else {
                offset
            };
            assert(run_has(runs[k], b));
            assert(a.has(b));
        }
    }
    lemma_released(runs, offset, n, cap);
    lemma_released_tidy(runs, offset, n);
    lemma_released_aligned(a, offset, n, cap);
}

proof fn lemma_released_aligned(a: ArenaView, offset: int, n: int, cap: int)
    requires
        a.wf(),
        0 < n,
        0 <= offset,
        a.cap <= cap <= usize::MAX,
        offset + n <= cap,
        whole(offset, a.align) || offset == a.cap,
        a.cap == cap ==> whole(offset, a.align) && whole(n, a.align),
        a.cap < cap ==> offset == a.cap && offset + n == cap,
        forall|k: int|
            0 <= k < a.free.len() ==> (#[trigger] a.free[k]).0 + a.free[k].1 <= offset || offset + n
                <= a.free[k].0,
    ensures
        a.with(cap, released(a.free, offset, n)).aligned(),
{
    let runs = a.free;
    let (l, t, s, e) = lemma_released_shape(runs, offset, n);
    let at = place_of(runs, offset, 0);
    lemma_place_of(runs, offset, 0);
    let c = released(runs, offset, n);
    assert forall|k: int| 0 <= k < c.len() implies #[trigger] c[k] == (if k < l {
        runs[k]
    } else if k == l {
        (s as usize, (e - s) as usize)
    } else {
        runs[k - l - 1 + t]
    }) by {}
    if a.cap == cap {
        lemma_whole_sum(offset, n, a.align);
    } else {
        // Everything else lies before the new run.
        if at < runs.len() {
            assert(runs[at].0 >= offset);
            assert(runs[at].0 + runs[at].1 <= a.cap);
            assert(0 < runs[at].1);
        }
        assert(at == runs.len());
        assert(t == runs.len());
        // What is left of a unit at the end of the old buffer was free and touches the new run.
        if !whole(offset, a.align) {
            assert(runs.last().0 + runs.last().1 == a.cap);
            assert(runs[at - 1] == runs.last());
            assert(l == at - 1);
        }
        assert forall|k: int| 0 <= k < l implies (#[trigger] runs[k]).0 + runs[k].1 < a.cap by {
            if k < l - 1 {
                assert(runs[k].0 + runs[k].1 < runs[l - 1].0);
                assert(runs[l - 1].0 + runs[l - 1].1 <= a.cap);
            } else if l < at {
                assert(runs[k].0 + runs[k].1 < runs[l].0);
                assert(runs[l].0 + runs[l].1 <= a.cap);
            }
        }
    }
    let v = a.with(cap, c);
    if l < at {
        assert(whole(runs[l].0 as int, a.align));
    }
    if t > at {
        assert(a.ends_whole(runs[at]));
    }
    assert forall|k: int| 0 <= k < c.len() implies whole((#[trigger] c[k]).0 as int, a.align)
        && v.ends_whole(c[k]) by {
        if k < l {
            assert(whole(runs[k].0 as int, a.align));
            assert(a.ends_whole(runs[k]));
        } else if k > l {
            let m = k - l - 1 + t;
            assert(whole(runs[m].0 as int, a.align));
            assert(a.ends_whole(runs[m]));
        }
    }
    if !whole(cap, a.align) {
        if a.cap < cap {
            assert(c.last() == (s as usize, (e - s) as usize));
        } else {
            let z = runs.len() - 1;
            assert(runs[z].0 + runs[z].1 == cap);
            if runs[z].0 < offset {
                assert(runs[z].0 + runs[z].1 <= offset);
            }
            assert(at <= z);
            if t <= z {
                assert(c.last() == runs[z]);
            } else {
                assert(c.last() == (s as usize, (e - s) as usize));
            }
        }
    }
    assert(v.aligned());
}

/// Giving back what was allocated leaves the arena as it was before the allocation.
pub proof fn law_free_undoes_alloc(a: ArenaView, size: int)
    requires
        a.wf(),
        0 < size,
        a.after_alloc(size).0 is Some,
    ensures
        a.after_alloc(size).1.after_free(a.after_alloc(size).0->0 as int, size) == a,
{
    law_alloc(a, size);
    let (r, mid) = a.after_alloc(size);
    let off = r->0 as int;
    law_free(mid, off, size);
    let back = mid.after_free(off, size);
    assert forall|b: int| #[trigger] in_runs(back.free, b) <==> in_runs(a.free, b) by {
        assert(back.has(b) <==> mid.has(b) || off <= b < off + round_up(size, a.align));
        assert(mid.has(b) <==> a.has(b) && !(off <= b < off + round_up(size, a.align)));
        if off <= b < off + round_up(size, a.align) {
            assert(a.has(b));
        }
    }
    law_tidy_unique(back.free, a.free);
}

/// A longer buffer has the bytes of the old one and all new bytes free.
pub proof fn law_growth(a: ArenaView, cap: int)
    requires
        a.wf(),
        a.cap < cap <= usize::MAX,
    ensures
        a.after_growth(cap).wf(),
        forall|b: int|
            #[trigger] a.after_growth(cap).has(b) <==> a.has(b) || a.cap <= b < cap,
{
    assert forall|b: int| a.cap <= b < cap implies !#[trigger] a.has(b) by {
        if a.has(b) {
            let k = choose|k: int| 0 <= k < a.free.len() && run_has(#[trigger] a.free[k], b);
            assert(a.free[k].0 + a.free[k].1 <= a.cap);
        }
    }
    lemma_added(a, a.cap, cap - a.cap, cap);
}

// ── The arena ────────────────────────────────────────────────────────────────

/// Keeps track of which bytes of a large buffer are free. Both vertex and index arenas are of
/// this type; the size of a unit differs.
pub struct ArenaBuffer {
    cap: usize,
    align: usize,
    /// (offset, length), sorted and coalesced.
    free_list: Vec<(usize, usize)>,
}

impl View for ArenaBuffer {
    type V = ArenaView;

    closed spec fn view(&self) -> ArenaView {
        ArenaView { cap: self.cap as int, align: self.align as int, free: self.free_list@ }
    }
}

impl ArenaBuffer {
    /// An arena for a buffer of `cap` bytes, all of them free.
    pub fn new(cap: usize, align: usize) -> (r: ArenaBuffer)
        requires
            0 < cap,
            0 < align,
        ensures
            r@ == ArenaView::fresh(cap as int, align as int),
            r@.wf(),
    {
        let mut free_list: Vec<(usize, usize)> = Vec::new();
        free_list.push((0, cap));
        let r = ArenaBuffer { cap, align, free_list };
        assert(r@.free =~= seq![(0usize, cap)]);
        proof {
            reveal(whole);
            vstd::arithmetic::div_mod::lemma_small_mod(0, align as nat);
        }
        r
    }

    /// The size of the buffer.
    pub fn cap(&self) -> (r: usize)
        ensures
            r == self@.cap,
    {
        self.cap
    }

    /// Takes `size` bytes from the first run that is long enough. Nothing is taken for a size of
    /// zero.
    pub fn allocate(&mut self, size: usize) -> (r: Option<usize>)
        requires
            old(self)@.bounded(),
            size + old(self)@.align <= usize::MAX,
        ensures
            (r, final(self)@) == old(self)@.after_alloc(size as int),
            final(self)@.bounded(),
            old(self)@.wf() ==> final(self)@.wf(),
            r matches Some(off) ==> off + round_up(size as int, old(self)@.align) <= old(
                self,
            )@.cap,
    {
        proof {
            lemma_round_up(size as int, self.align as int);
            lemma_round_zero(self.align as int);
        }
        if size == 0 {
            return Some(0);
        }
        let ghost before = self@;
        let n: usize = (size + self.align - 1) / self.align * self.align;
        let mut i: usize = 0;
        while i < self.free_list.len()
            invariant
                self@ == before,
                before.bounded(),
                n == round_up(size as int, before.align),
                0 < size <= n,
                whole(n as int, before.align),
                i <= self.free_list.len(),
                first_fit(before.free, n as int, i as int) == first_fit(before.free, n as int, 0),
                before == old(self)@,
            decreases self.free_list.len() - i,
        {
            let (off, len) = self.free_list[i];
            assert(before.free[i as int] == (off, len));
            assert(off + len <= self.cap);
            if len >= n {
                if len > n {
                    self.free_list.set(i, (off + n, len - n));
                } else {
                    self.free_list.remove(i);
                }
                proof {
                    assert(self@.free =~= carved(before.free, i as int, n as int));
                    assert forall|k: int| 0 <= k < self@.free.len() implies (
                    #[trigger] self@.free[k]).0 + self@.free[k].1 <= self@.cap by {
                        if len > n || k < i {
                            assert(before.free[k].0 + before.free[k].1 <= before.cap);
                        } else {
                            assert(before.free[k + 1].0 + before.free[k + 1].1 <= before.cap);
                        }
                    }
                    if before.wf() {
                        lemma_carved(before, i as int, n as int);
                    }
                }
                return Some(off);
            }
            i = i + 1;
        }
        None
    }

    /// Joins a run with the next one, where they touch.
    fn join(&mut self, i: usize)
        requires
            old(self)@.bounded(),
            i < old(self)@.free.len(),
        ensures
            final(self)@ == old(self)@.with(old(self)@.cap, joined(old(self)@.free, i as int)),
            final(self)@.bounded(),
    {
        proof {
            lemma_joined(self@.free, i as int, self@.cap);
        }
        let ghost before = self@;
        assert(self.free_list.len() <= usize::MAX);
        if i + 1 < self.free_list.len() {
            let (o, s) = self.free_list[i];
            let (o2, s2) = self.free_list[i + 1];
            assert(before.free[i as int] == (o, s));
            assert(before.free[i + 1] == (o2, s2));
            assert(o + s <= before.cap);
            assert(o2 + s2 <= before.cap);
            if o + s == o2 {
                self.free_list.remove(i + 1);
                self.free_list.set(i, (o, s + s2));
                assert(self@.free =~= joined(before.free, i as int));
            }
        }
    }

    /// Puts a run into the list.
    fn release(&mut self, offset: usize, n: usize)
        requires
            old(self)@.bounded(),
            offset + n <= old(self)@.cap,
        ensures
            final(self)@ == old(self)@.with(
                old(self)@.cap,
                released(old(self)@.free, offset as int, n as int),
            ),
            final(self)@.bounded(),
    {
        proof {
            reveal(released);
        }
        let ghost before = self@;
        let mut at: usize = 0;
        while at < self.free_list.len() && self.free_list[at].0 < offset
            invariant
                self@ == before,
                at <= self.free_list.len(),
                place_of(before.free, offset as int, at as int) == place_of(
                    before.free,
                    offset as int,
                    0,
                ),
            decreases self.free_list.len() - at,
        {
            at = at + 1;
        }
        self.free_list.insert(at, (offset, n));
        let ghost inserted = before.free.insert(at as int, (offset, n));
        proof {
            assert(self@.free =~= inserted);
            assert forall|k: int| 0 <= k < inserted.len() implies (#[trigger] inserted[k]).0
                + inserted[k].1 <= before.cap by {
                if k < at {
                    assert(inserted[k] == before.free[k]);
                } else if k > at {
                    assert(inserted[k] == before.free[k - 1]);
                }
            }
        }
        self.join(at);
        if at > 0 {
            self.join(at - 1);
        } else {
            assert(joined(self@.free, -1) == self@.free);
        }
    }

    /// Gives `size` bytes from `offset` on back. Runs that touch are joined.
    pub fn free(&mut self, offset: usize, size: usize)
        requires
            old(self)@.bounded(),
            size + old(self)@.align <= usize::MAX,
            offset + round_up(size as int, old(self)@.align) <= old(self)@.cap,
        ensures
            final(self)@ == old(self)@.after_free(offset as int, size as int),
            final(self)@.bounded(),
            old(self)@.wf() && whole(offset as int, old(self)@.align) && old(self)@.in_use(
                offset as int,
                round_up(size as int, old(self)@.align),
            ) ==> final(self)@.wf(),
    {
        if size == 0 {
            return;
        }
        let ghost before = self@;
        proof {
            lemma_round_up(size as int, self.align as int);
        }
        let n: usize = (size + self.align - 1) / self.align * self.align;
        self.release(offset, n);
        proof {
            if before.wf() && whole(offset as int, before.align) && before.in_use(
                offset as int,
                n as int,
            ) {
                law_free(before, offset as int, size as int);
            }
        }
    }

    /// The size of a buffer with room for `needed` extra bytes: at least twice as large, or the
    /// next power of two. Where no extra bytes are needed, this one will do.
    pub fn grown_cap(&self, needed: usize) -> (r: Option<usize>)
        requires
            self@.cap + needed <= usize::MAX / 2 + 1,
            self@.cap <= usize::MAX / 2,
        ensures
            r == grown_cap_of(self@.cap, needed as int),
            r is None <==> needed == 0,
            r matches Some(cap) ==> self@.cap + needed <= cap && 2 * self@.cap <= cap,
    {
        if needed == 0 {
            return None;
        }
        let p: usize = next_power_of_two((self.cap + needed) as u64) as usize;
        if p > self.cap * 2 {
            Some(p)
        } else {
            Some(self.cap * 2)
        }
    }

    /// Makes the arena longer. The new bytes are free.
    pub fn grow(&mut self, cap: usize)
        requires
            old(self)@.bounded(),
        ensures
            final(self)@ == old(self)@.after_growth(cap as int),
            final(self)@.bounded(),
            old(self)@.wf() ==> final(self)@.wf(),
    {
        if cap <= self.cap {
            return;
        }
        let ghost before = self@;
        let old_cap: usize = self.cap;
        self.cap = cap;
        assert(self@ =~= before.with(cap as int, before.free));
        self.release(old_cap, cap - old_cap);
        proof {
            if before.wf() {
                law_growth(before, cap as int);
            }
        }
    }

    /// Grows the arena to fit `needed` extra bytes. What was in use stays in use, and all new
    /// bytes are free.
    pub fn ensure_cap(&mut self, needed: usize)
        requires
            old(self)@.bounded(),
            old(self)@.cap + needed <= usize::MAX / 2 + 1,
            old(self)@.cap <= usize::MAX / 2,
        ensures
            final(self)@ == match grown_cap_of(old(self)@.cap, needed as int) {
                Some(cap) => old(self)@.after_growth(cap as int),
                None => old(self)@,
            },
            final(self)@.cap >= old(self)@.cap + needed,
            final(self)@.bounded(),
            old(self)@.wf() ==> final(self)@.wf(),
            old(self)@.wf() ==> forall|b: int| #[trigger]
                final(self)@.has(b) <==> old(self)@.has(b) || old(self)@.cap <= b
                    < final(self)@.cap,
    {
        let ghost before = self@;
        if let Some(cap) = self.grown_cap(needed) {
            self.grow(cap);
            proof {
                if before.wf() {
                    law_growth(before, cap as int);
                }
            }
        }
    }
}

/// The size that a buffer of `cap` bytes grows to so that it fits `needed` extra bytes.
pub open spec fn grown_cap_of(cap: int, needed: int) -> Option<usize> {
    let p = power_of_two_above(cap + needed);
    if needed <= 0 {
        None
    } else if p > 2 * cap {
        Some(p as usize)
    } else {
        Some((2 * cap) as usize)
    }
}

/// Where an arena has grown for bytes that make whole units, there is room for them.
pub proof fn law_grown_room(a: ArenaView, size: int)
    requires
        a.wf(),
        0 < size,
        whole(size, a.align),
        a.cap <= usize::MAX / 2,
        a.cap + size <= usize::MAX / 2 + 1,
    ensures
        grown_cap_of(a.cap, size) matches Some(cap) && a.after_growth(cap as int).after_alloc(
            size,
        ).0 is Some,
{
    lemma_doubled_to(1, a.cap + size);
    let cap = grown_cap_of(a.cap, size)->0 as int;
    assert(a.cap + size <= cap);
    law_growth(a, cap);
    let after = a.after_growth(cap);
    lemma_round_up(size, a.align);
    law_alloc_none(after, size);
    assert forall|b: int| a.cap <= b < a.cap + size implies #[trigger] after.has(b) by {}
    assert(all_free(after, a.cap, size));
}

/// The smallest power of two that is at least a number is one, and half of it is too small.
pub proof fn law_power_of_two(n: int)
    ensures
        power_of_two_above(n) >= n,
        power_of_two_above(n) == 1 || power_of_two_above(n) < 2 * n,
        exists|k: nat| #[trigger] pow2(k) == power_of_two_above(n),
{
    lemma_doubled_to(1, n);
    lemma2_to64();
    lemma_doubled_pow(0, n);
}

proof fn lemma_doubled_pow(j: nat, n: int)
    ensures
        exists|k: nat| #[trigger] pow2(k) == doubled_to(pow2(j) as int, n),
    decreases (if n > pow2(j) { n - pow2(j) } else { 0 }),
{
    lemma_pow2_pos(j);
    if pow2(j) < n {
        lemma_pow2_unfold(j + 1);
        lemma_doubled_pow(j + 1, n);
    } else {
        assert(pow2(j) == doubled_to(pow2(j) as int, n));
    }
}

/// The first run that is long enough is taken: no lower bytes would do.
pub proof fn law_alloc_lowest(a: ArenaView, size: int, low: int)
    requires
        a.wf(),
        0 < size,
        a.after_alloc(size).0 matches Some(off) && low < off,
    ensures
        !all_free(a, low, round_up(size, a.align)),
{
    let n = round_up(size, a.align);
    lemma_round_up(size, a.align);
    lemma_first_fit(a.free, n, 0);
    let i = first_fit(a.free, n, 0)->0;
    if all_free(a, low, n) {
        assert(a.has(low));
        let k = choose|k: int| 0 <= k < a.free.len() && run_has(#[trigger] a.free[k], low);
        if k > i {
            assert(a.free[i].0 + a.free[i].1 < a.free[k].0);
        }
        assert(k < i);
        let e = a.free[k].0 + a.free[k].1;
        assert(a.free[k].1 < n);
        if e < low + n {
            assert(a.has(e));
            let m = choose|m: int| 0 <= m < a.free.len() && run_has(#[trigger] a.free[m], e);
            if m > k {
                assert(a.free[k].0 + a.free[k].1 < a.free[m].0);
            } else if m < k {
                assert(a.free[m].0 + a.free[m].1 < a.free[k].0);
            }
        }
    }
}

/// Sizes are rounded up to whole units, and by less than one.
pub proof fn law_round_up(n: int, align: int)
    requires
        0 < align,
        0 <= n,
    ensures
        n <= round_up(n, align) < n + align,
        round_up(n, align) % align == 0,
{
    lemma_round_up(n, align);
    reveal(whole);
}

} // verus!
