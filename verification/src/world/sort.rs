//! Sorting by a number.

use vstd::multiset::Multiset;
use vstd::prelude::*;

verus! {

/// Keys do not decrease.
pub open spec fn sorted<T>(s: Seq<(i64, T)>) -> bool {
    forall|i: int, j: int| 0 <= i <= j < s.len() ==> (#[trigger] s[i]).0 <= (#[trigger] s[j]).0
}

/// Two sorted lists become one.
fn merge<T: Copy>(a: &Vec<(i64, T)>, b: &Vec<(i64, T)>) -> (r: Vec<(i64, T)>)
    requires
        sorted(a@),
        sorted(b@),
        a.len() + b.len() <= usize::MAX,
    ensures
        sorted(r@),
        r@.to_multiset() == a@.to_multiset().add(b@.to_multiset()),
{
    let mut r: Vec<(i64, T)> = Vec::new();
    let mut i: usize = 0;
    let mut j: usize = 0;
    proof {
        broadcast use {vstd::seq_lib::group_to_multiset_ensures, vstd::multiset::group_multiset_axioms};

        assert(a@.take(0) =~= Seq::empty());
        assert(b@.take(0) =~= Seq::empty());
        assert(r@ =~= Seq::empty());
        assert(Seq::<(i64, T)>::empty().to_multiset() =~= Multiset::empty());
        assert(r@.to_multiset() =~= a@.take(0).to_multiset().add(b@.take(0).to_multiset()));
    }
    while i < a.len() || j < b.len()
        invariant
            i <= a.len(),
            j <= b.len(),
            a.len() + b.len() <= usize::MAX,
            sorted(a@),
            sorted(b@),
            sorted(r@),
            forall|k: int, m: int|
                0 <= k < r.len() && i <= m < a.len() ==> (#[trigger] r[k]).0 <= (#[trigger] a[m]).0,
            forall|k: int, m: int|
                0 <= k < r.len() && j <= m < b.len() ==> (#[trigger] r[k]).0 <= (#[trigger] b[m]).0,
            r@.to_multiset() == a@.take(i as int).to_multiset().add(
                b@.take(j as int).to_multiset(),
            ),
        decreases a.len() + b.len() - i - j,
    {
        let from_a = i < a.len() && (j >= b.len() || a[i].0 <= b[j].0);
        let ghost before = r@;
        if from_a {
            let x = a[i];
            r.push(x);
            proof {
                broadcast use {
                    vstd::seq_lib::group_to_multiset_ensures,
                    vstd::multiset::group_multiset_axioms,
                };

                assert(a@.take(i + 1) =~= a@.take(i as int).push(x));
                assert(r@ =~= before.push(x));
                assert(r@.to_multiset() =~= a@.take(i + 1).to_multiset().add(
                    b@.take(j as int).to_multiset(),
                ));
            }
            i = i + 1;
        } else {
            let x = b[j];
            r.push(x);
            proof {
                broadcast use {
                    vstd::seq_lib::group_to_multiset_ensures,
                    vstd::multiset::group_multiset_axioms,
                };

                assert(b@.take(j + 1) =~= b@.take(j as int).push(x));
                assert(r@ =~= before.push(x));
                assert(r@.to_multiset() =~= a@.take(i as int).to_multiset().add(
                    b@.take(j + 1).to_multiset(),
                ));
            }
            j = j + 1;
        }
    }
    assert(a@.take(i as int) =~= a@);
    assert(b@.take(j as int) =~= b@);
    r
}

/// Sorts part of a list.
fn sort_range<T: Copy>(v: &Vec<(i64, T)>, lo: usize, hi: usize) -> (r: Vec<(i64, T)>)
    requires
        lo <= hi <= v.len(),
    ensures
        sorted(r@),
        r@.to_multiset() == v@.subrange(lo as int, hi as int).to_multiset(),
        r.len() == hi - lo,
    decreases hi - lo,
{
    let mut r: Vec<(i64, T)> = Vec::new();
    if lo == hi {
        assert(r@ =~= v@.subrange(lo as int, hi as int));
        return r;
    }
    if hi - lo == 1 {
        r.push(v[lo]);
        assert(r@ =~= v@.subrange(lo as int, hi as int));
        return r;
    }
    let mid: usize = lo + (hi - lo) / 2;
    let a = sort_range(v, lo, mid);
    let b = sort_range(v, mid, hi);
    r = merge(&a, &b);
    proof {
        broadcast use vstd::seq_lib::group_to_multiset_ensures;

        let left = v@.subrange(lo as int, mid as int);
        let right = v@.subrange(mid as int, hi as int);
        vstd::seq_lib::lemma_multiset_commutative(left, right);
        assert(left + right =~= v@.subrange(lo as int, hi as int));
        assert(r@.len() == r@.to_multiset().len());
        assert((left + right).len() == (left + right).to_multiset().len());
    }
    r
}

/// Sorts a list by its keys. What has the same key may come in any order.
pub fn sort_by_key<T: Copy>(v: &Vec<(i64, T)>) -> (r: Vec<(i64, T)>)
    ensures
        sorted(r@),
        r@.to_multiset() == v@.to_multiset(),
        r.len() == v.len(),
{
    let r = sort_range(v, 0, v.len());
    assert(v@.subrange(0, v.len() as int) =~= v@);
    r
}

} // verus!
