//! How long frames took.

use crate::world::sort::{sort_by_key, sorted};
use vstd::prelude::*;

verus! {

/// Durations of the frames of a period, in microseconds.
#[derive(Clone, Copy, Debug, PartialEq, Eq, Structural)]
pub struct FrameStats {
    pub count: usize,
    pub average: u64,
    pub shortest: u64,
    pub longest: u64,
    /// One in a hundred frames is shorter.
    pub p1: u64,
    /// One in a hundred frames is longer.
    pub p99: u64,
}

/// The sum of the first `k` durations.
pub open spec fn sum_to(times: Seq<u32>, k: int) -> int
    decreases k,
{
    if k <= 0 {
        0
    } else {
        sum_to(times, k - 1) + times[k - 1]
    }
}

/// The shortest of the first `k` durations.
pub open spec fn min_to(times: Seq<u32>, k: int) -> int
    decreases k,
{
    if k <= 1 {
        times[0] as int
    } else if times[k - 1] < min_to(times, k - 1) {
        times[k - 1] as int
    } else {
        min_to(times, k - 1)
    }
}

/// The longest of the first `k` durations.
pub open spec fn max_to(times: Seq<u32>, k: int) -> int
    decreases k,
{
    if k <= 1 {
        times[0] as int
    } else if times[k - 1] > max_to(times, k - 1) {
        times[k - 1] as int
    } else {
        max_to(times, k - 1)
    }
}

/// How many of the first `k` durations are below a limit.
pub open spec fn below_to(times: Seq<u32>, limit: int, k: int) -> int
    decreases k,
{
    if k <= 0 {
        0
    } else {
        below_to(times, limit, k - 1) + if times[k - 1] < limit {
            1int
        } else {
            0int
        }
    }
}

/// `v` is the duration at place `rank` when the durations are put in order: no more than `rank`
/// are below it, and more than `rank` are not above it.
pub open spec fn has_rank(times: Seq<u32>, v: int, rank: int) -> bool {
    let n = times.len() as int;
    below_to(times, v, n) <= rank < below_to(times, v + 1, n)
}

/// How many keys of the first `k` pairs are below a limit.
spec fn keys_below(s: Seq<(i64, u8)>, limit: int, k: int) -> int
    decreases k,
{
    if k <= 0 {
        0
    } else {
        keys_below(s, limit, k - 1) + if s[k - 1].0 < limit {
            1int
        } else {
            0int
        }
    }
}

/// The pairs with keys below a limit, counted through the multiset.
proof fn lemma_keys_below(s: Seq<(i64, u8)>, limit: int)
    ensures
        keys_below(s, limit, s.len() as int) == s.to_multiset().filter(
            |p: (i64, u8)| p.0 < limit,
        ).len(),
    decreases s.len(),
{
    broadcast use {vstd::seq_lib::group_to_multiset_ensures, vstd::multiset::group_multiset_axioms};

    let f = |p: (i64, u8)| p.0 < limit;
    if s.len() == 0 {
        assert(s.to_multiset().filter(f) =~= vstd::multiset::Multiset::empty()) by {
            assert(s.to_multiset().len() == 0);
        }
    } else {
        let t = s.drop_last();
        let x = s.last();
        lemma_keys_below(t, limit);
        assert(s =~= t.push(x));
        lemma_keys_prefix(t, x, limit, t.len() as int);
        let mt = t.to_multiset();
        assert(s.to_multiset() =~= mt.insert(x));
        if f(x) {
            assert(mt.insert(x).filter(f) =~= mt.filter(f).insert(x));
        } else {
            assert(mt.insert(x).filter(f) =~= mt.filter(f));
        }
    }
}

proof fn lemma_keys_prefix(t: Seq<(i64, u8)>, x: (i64, u8), limit: int, k: int)
    requires
        0 <= k <= t.len(),
    ensures
        keys_below(t.push(x), limit, k) == keys_below(t, limit, k),
    decreases k,
{
    if k > 0 {
        lemma_keys_prefix(t, x, limit, k - 1);
    }
}

/// In a sorted list the keys below a limit come first.
proof fn lemma_sorted_below(s: Seq<(i64, u8)>, limit: int, k: int)
    requires
        sorted(s),
        0 <= k <= s.len(),
    ensures
        0 <= keys_below(s, limit, k) <= k,
        forall|j: int| 0 <= j < k ==> ((#[trigger] s[j]).0 < limit <==> j < keys_below(s, limit, k)),
    decreases k,
{
    if k > 0 {
        lemma_sorted_below(s, limit, k - 1);
        if s[k - 1].0 < limit {
            assert forall|j: int| 0 <= j < k implies ((#[trigger] s[j]).0 < limit <==> j
                < keys_below(s, limit, k)) by {
                assert(s[j].0 <= s[k - 1].0);
                if j < k - 1 {
                    assert(j < keys_below(s, limit, k - 1));
                }
            }
            if k > 1 {
                assert(s[k - 2].0 <= s[k - 1].0);
                assert(k - 2 < keys_below(s, limit, k - 1));
            }
        }
    }
}

proof fn lemma_times_below(times: Seq<u32>, pairs: Seq<(i64, u8)>, limit: int, k: int)
    requires
        pairs.len() == times.len(),
        0 <= k <= times.len(),
        forall|i: int| 0 <= i < times.len() ==> #[trigger] pairs[i] == (times[i] as i64, 0u8),
    ensures
        below_to(times, limit, k) == keys_below(pairs, limit, k),
    decreases k,
{
    if k > 0 {
        lemma_times_below(times, pairs, limit, k - 1);
        assert(pairs[k - 1].0 == times[k - 1]);
    }
}

/// What sorting puts at a place has that rank.
proof fn lemma_rank(times: Seq<u32>, pairs: Seq<(i64, u8)>, order: Seq<(i64, u8)>, rank: int)
    requires
        pairs.len() == times.len(),
        order.len() == times.len(),
        forall|i: int| 0 <= i < times.len() ==> #[trigger] pairs[i] == (times[i] as i64, 0u8),
        order.to_multiset() == pairs.to_multiset(),
        sorted(order),
        0 <= rank < times.len(),
    ensures
        has_rank(times, order[rank].0 as int, rank),
{
    let v = order[rank].0 as int;
    let n = times.len() as int;
    lemma_times_below(times, pairs, v, n);
    lemma_times_below(times, pairs, v + 1, n);
    lemma_keys_below(pairs, v);
    lemma_keys_below(pairs, v + 1);
    lemma_keys_below(order, v);
    lemma_keys_below(order, v + 1);
    lemma_sorted_below(order, v, n);
    lemma_sorted_below(order, v + 1, n);
    assert(!(order[rank].0 < v));
    assert(order[rank].0 < v + 1);
}

/// The durations of a period in short.
pub fn frame_stats(times: &Vec<u32>) -> (r: Option<FrameStats>)
    requires
        times.len() <= 0xffff_ffff,
        times.len() * 99 <= usize::MAX,
    ensures
        r is None <==> times.len() == 0,
        r matches Some(s) ==> {
            let n = times.len() as int;
            &&& s.count == n
            &&& s.average == sum_to(times@, n) / n
            &&& s.shortest == min_to(times@, n)
            &&& s.longest == max_to(times@, n)
            &&& has_rank(times@, s.p1 as int, n / 100)
            &&& has_rank(times@, s.p99 as int, n * 99 / 100)
        },
{
    let count: usize = times.len();
    if count == 0 {
        return None;
    }
    let mut sum: u64 = 0;
    let mut shortest: u32 = times[0];
    let mut longest: u32 = times[0];
    let mut pairs: Vec<(i64, u8)> = Vec::new();
    let mut i: usize = 0;
    while i < count
        invariant
            i <= count,
            count == times.len(),
            0 < count <= 0xffff_ffff,
            sum == sum_to(times@, i as int),
            sum <= i * 0xffff_ffff,
            shortest == min_to(times@, i as int),
            longest == max_to(times@, i as int),
            pairs.len() == i,
            forall|j: int| 0 <= j < i ==> #[trigger] pairs[j] == (times[j] as i64, 0u8),
        decreases count - i,
    {
        let t = times[i];
        sum = sum + t as u64;
        if t < shortest {
            shortest = t;
        }
        if t > longest {
            longest = t;
        }
        pairs.push((t as i64, 0u8));
        i = i + 1;
    }
    let order = sort_by_key(&pairs);
    proof {
        assert(count as int / 100 < count);
        assert((count * 99) as int / 100 < count);
        lemma_rank(times@, pairs@, order@, count as int / 100);
        lemma_rank(times@, pairs@, order@, (count * 99) as int / 100);
        assert forall|k: int| 0 <= k < order.len() implies 0 <= (#[trigger] order[k]).0 by {
            broadcast use vstd::seq_lib::group_to_multiset_ensures;

            assert(order@.contains(order@[k]));
            assert(pairs@.to_multiset().count(order@[k]) > 0);
            assert(pairs@.contains(order@[k]));
        }
    }
    let p1 = order[count / 100].0 as u64;
    let p99 = order[count * 99 / 100].0 as u64;
    Some(
        FrameStats {
            count,
            average: sum / count as u64,
            shortest: shortest as u64,
            longest: longest as u64,
            p1,
            p99,
        },
    )
}

// ── What the numbers mean ────────────────────────────────────────────────────

/// The shortest and the longest duration are among the durations, and all others lie between.
pub proof fn law_extremes(times: Seq<u32>, k: int, i: int)
    requires
        1 <= k <= times.len(),
        0 <= i < k,
    ensures
        min_to(times, k) <= times[i] <= max_to(times, k),
        exists|j: int| 0 <= j < k && #[trigger] times[j] == min_to(times, k),
        exists|j: int| 0 <= j < k && #[trigger] times[j] == max_to(times, k),
    decreases k,
{
    if k == 1 {
        assert(times[0] == min_to(times, 1));
    } else {
        law_extremes(times, k - 1, if i < k - 1 { i } else { 0 });
        let a = choose|j: int| 0 <= j < k - 1 && #[trigger] times[j] == min_to(times, k - 1);
        let b = choose|j: int| 0 <= j < k - 1 && #[trigger] times[j] == max_to(times, k - 1);
        assert(times[a] == min_to(times, k - 1));
        assert(times[b] == max_to(times, k - 1));
        assert(times[k - 1] == times[k - 1]);
    }
}

/// Another duration adds to the sum, and counts if it is below a limit. Of no durations both are
/// zero.
pub proof fn law_sums(times: Seq<u32>, t: u32, limit: int)
    ensures
        sum_to(times, 0) == 0,
        below_to(times, limit, 0) == 0,
        sum_to(times.push(t), times.len() + 1int) == sum_to(times, times.len() as int) + t,
        below_to(times.push(t), limit, times.len() + 1int) == below_to(
            times,
            limit,
            times.len() as int,
        ) + if t < limit {
            1int
        } else {
            0int
        },
{
    lemma_same_sums(times, times.push(t), limit, times.len() as int);
}

proof fn lemma_same_sums(a: Seq<u32>, b: Seq<u32>, limit: int, k: int)
    requires
        0 <= k <= a.len(),
        k <= b.len(),
        forall|i: int| 0 <= i < k ==> #[trigger] a[i] == b[i],
    ensures
        sum_to(a, k) == sum_to(b, k),
        below_to(a, limit, k) == below_to(b, limit, k),
    decreases k,
{
    if k > 0 {
        lemma_same_sums(a, b, limit, k - 1);
        assert(a[k - 1] == b[k - 1]);
    }
}

/// A duration has a rank if no more than that many are shorter, and more than that many are no
/// longer.
pub proof fn law_rank(times: Seq<u32>, v: int, rank: int)
    ensures
        has_rank(times, v, rank) <==> below_to(times, v, times.len() as int) <= rank && rank
            < below_to(times, v + 1, times.len() as int),
{
}

} // verus!
