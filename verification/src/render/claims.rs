//! Who uses which bytes of an arena.

use crate::render::arena::{
    law_alloc, law_free, law_growth, lemma_round_up, lemma_round_zero, round_up, whole, ArenaView,
};
use vstd::prelude::*;

verus! {

/// Two ranges, given as (offset, length), have no byte in common.
pub open spec fn apart(r: (int, int), s: (int, int)) -> bool {
    r.1 == 0 || s.1 == 0 || r.0 + r.1 <= s.0 || s.0 + s.1 <= r.0
}

/// A range is made of whole units inside the arena, none of which is free.
pub open spec fn claim_ok(a: ArenaView, r: (int, int)) -> bool {
    &&& 0 <= r.0
    &&& 0 <= r.1
    &&& r.0 + r.1 <= a.cap
    &&& whole(r.0, a.align)
    &&& a.in_use(r.0, r.1)
}

/// The ranges that are in use: each by one user, and none of them free.
pub open spec fn claimed<K>(a: ArenaView, m: Map<K, (int, int)>) -> bool {
    &&& a.wf()
    &&& forall|k: K| #[trigger] m.contains_key(k) ==> claim_ok(a, m[k])
    &&& forall|k: K, l: K|
        k != l && #[trigger] m.contains_key(k) && #[trigger] m.contains_key(l) ==> apart(m[k], m[l])
}

/// What is taken from an arena belongs to nobody else.
pub proof fn law_claim_alloc<K>(a: ArenaView, m: Map<K, (int, int)>, k: K, size: int)
    requires
        claimed(a, m),
        0 <= size,
        !m.contains_key(k),
        a.after_alloc(size).0 is Some,
    ensures
        claimed(
            a.after_alloc(size).1,
            m.insert(k, (a.after_alloc(size).0->0 as int, round_up(size, a.align))),
        ),
{
    let (off, after) = (a.after_alloc(size).0->0 as int, a.after_alloc(size).1);
    let n = round_up(size, a.align);
    let m2 = m.insert(k, (off, n));
    lemma_round_up(size, a.align);
    lemma_round_zero(a.align);
    if size > 0 {
        law_alloc(a, size);
    }
    assert forall|l: K| #[trigger] m2.contains_key(l) implies claim_ok(after, m2[l]) by {
        if l != k {
            assert(m.contains_key(l));
            let r = m[l];
            assert forall|b: int| r.0 <= b < r.0 + r.1 implies !#[trigger] after.has(b) by {
                assert(!a.has(b));
            }
        }
    }
    assert forall|l: K| l != k && #[trigger] m.contains_key(l) implies apart(m[l], (off, n)) by {
        let r = m[l];
        if !apart(r, (off, n)) {
            let b = if r.0 > off {
                r.0
            } else {
                off
            };
            assert(!a.has(b));
            assert(a.has(b));
        }
    }
    assert forall|i: K, j: K|
        i != j && #[trigger] m2.contains_key(i) && #[trigger] m2.contains_key(j) implies apart(
        m2[i],
        m2[j],
    ) by {
        if i != k {
            assert(m.contains_key(i));
        }
        if j != k {
            assert(m.contains_key(j));
        }
    }
}

/// What one user gives back, nobody else loses.
pub proof fn law_claim_free<K>(a: ArenaView, m: Map<K, (int, int)>, k: K, size: int)
    requires
        claimed(a, m),
        m.contains_key(k),
        0 <= size,
        m[k].1 == round_up(size, a.align),
    ensures
        claimed(a.after_free(m[k].0, size), m.remove(k)),
{
    let (off, n) = m[k];
    let after = a.after_free(off, size);
    let m2 = m.remove(k);
    if size > 0 {
        law_free(a, off, size);
    }
    assert forall|l: K| #[trigger] m2.contains_key(l) implies claim_ok(after, m2[l]) by {
        assert(m.contains_key(l));
        let r = m[l];
        assert(apart(m[k], m[l]));
        assert forall|b: int| r.0 <= b < r.0 + r.1 implies !#[trigger] after.has(b) by {
            assert(!a.has(b));
        }
    }
    assert forall|i: K, j: K|
        i != j && #[trigger] m2.contains_key(i) && #[trigger] m2.contains_key(j) implies apart(
        m2[i],
        m2[j],
    ) by {
        assert(m.contains_key(i) && m.contains_key(j));
    }
}

/// Nobody loses anything when an arena grows.
pub proof fn law_claim_growth<K>(a: ArenaView, m: Map<K, (int, int)>, cap: int)
    requires
        claimed(a, m),
        cap <= usize::MAX,
    ensures
        claimed(a.after_growth(cap), m),
{
    if a.cap < cap {
        law_growth(a, cap);
        let after = a.after_growth(cap);
        assert forall|k: K| #[trigger] m.contains_key(k) implies claim_ok(after, m[k]) by {
            let r = m[k];
            assert forall|b: int| r.0 <= b < r.0 + r.1 implies !#[trigger] after.has(b) by {
                assert(!a.has(b));
            }
        }
    }
}

/// Ranges may change hands, as long as none gets two users.
pub proof fn lemma_claims_move<K, L>(
    a: ArenaView,
    m: Map<K, (int, int)>,
    n: Map<L, (int, int)>,
    from: spec_fn(L) -> K,
)
    requires
        claimed(a, m),
        forall|l: L| #[trigger]
            n.contains_key(l) ==> m.contains_key(from(l)) && n[l] == m[from(l)],
        forall|k: L, l: L|
            k != l && #[trigger] n.contains_key(k) && #[trigger] n.contains_key(l) ==> from(k)
                != from(l),
    ensures
        claimed(a, n),
{
    assert forall|k: L, l: L|
        k != l && #[trigger] n.contains_key(k) && #[trigger] n.contains_key(l) implies apart(
        n[k],
        n[l],
    ) by {
        assert(m.contains_key(from(k)) && m.contains_key(from(l)));
    }
}

} // verus!
