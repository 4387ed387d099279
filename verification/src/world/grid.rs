//! Maps and sets of chunks.

use crate::world::coords::{chebyshev, ChunkCoord};
use std::collections::HashMap;
use vstd::prelude::*;
use vstd::std_specs::iter::IteratorSpec;

verus! {

broadcast use vstd::std_specs::hash::group_hash_axioms;

/// Each chunk has a number of its own.
spec fn key_of(c: ChunkCoord) -> u64 {
    ((c.x + 0x8000_0000) * 0x1_0000_0000 + (c.z + 0x8000_0000)) as u64
}

/// The chunk with a number.
spec fn coord_of(k: u64) -> ChunkCoord {
    ChunkCoord {
        x: (k / 0x1_0000_0000 - 0x8000_0000) as i32,
        z: (k % 0x1_0000_0000 - 0x8000_0000) as i32,
    }
}

proof fn lemma_key(c: ChunkCoord)
    ensures
        coord_of(key_of(c)) == c,
{
}

proof fn lemma_coord(k: u64)
    ensures
        key_of(coord_of(k)) == k,
{
}

fn key(c: ChunkCoord) -> (r: u64)
    ensures
        r == key_of(c),
{
    ((c.x as i64 + 0x8000_0000) as u64) * 0x1_0000_0000 + (c.z as i64 + 0x8000_0000) as u64
}

fn coord(k: u64) -> (r: ChunkCoord)
    ensures
        r == coord_of(k),
{
    ChunkCoord {
        x: ((k / 0x1_0000_0000) as i64 - 0x8000_0000) as i32,
        z: ((k % 0x1_0000_0000) as i64 - 0x8000_0000) as i32,
    }
}

/// A map from chunks to values.
pub struct CoordMap<V> {
    m: HashMap<u64, V>,
}

impl<V> View for CoordMap<V> {
    type V = Map<ChunkCoord, V>;

    closed spec fn view(&self) -> Map<ChunkCoord, V> {
        Map::new(|c: ChunkCoord| self.m@.contains_key(key_of(c)), |c: ChunkCoord| self.m@[key_of(c)])
    }
}

impl<V> CoordMap<V> {
    /// A map without chunks.
    pub fn new() -> (r: CoordMap<V>)
        ensures
            r@ == Map::<ChunkCoord, V>::empty(),
    {
        let r = CoordMap { m: HashMap::new() };
        assert(r@ =~= Map::<ChunkCoord, V>::empty());
        r
    }

    proof fn lemma_finite(&self)
        ensures
            self@.dom().finite(),
            self@.dom().len() == self.m@.dom().len(),
    {
        let f = |k: u64| coord_of(k);
        assert forall|a: u64, b: u64| #![trigger f(a), f(b)] f(a) == f(b) implies a == b by {
            lemma_coord(a);
            lemma_coord(b);
        }
        assert(self.m@.dom().map(f) =~= self@.dom()) by {
            assert forall|c: ChunkCoord| #[trigger] self@.dom().contains(c) implies self.m@.dom().map(
                f,
            ).contains(c) by {
                lemma_key(c);
                assert(self.m@.dom().contains(key_of(c)));
                assert(f(key_of(c)) == c);
            }
            assert forall|c: ChunkCoord| #[trigger] self.m@.dom().map(f).contains(c) implies self@.dom().contains(
                c,
            ) by {
                let k = choose|k: u64| self.m@.dom().contains(k) && f(k) == c;
                lemma_coord(k);
            }
        }
        vstd::set_lib::lemma_map_size(self.m@.dom(), self@.dom(), f);
    }

    /// How many chunks the map has.
    pub fn len(&self) -> (r: usize)
        ensures
            r == self@.dom().len(),
            self@.dom().finite(),
    {
        proof {
            self.lemma_finite();
        }
        self.m.len()
    }

    pub fn contains_key(&self, c: ChunkCoord) -> (r: bool)
        ensures
            r == self@.contains_key(c),
    {
        self.m.contains_key(&key(c))
    }

    pub fn get(&self, c: ChunkCoord) -> (r: Option<&V>)
        ensures
            r is Some <==> self@.contains_key(c),
            r matches Some(v) ==> *v == self@[c],
    {
        self.m.get(&key(c))
    }

    pub fn insert(&mut self, c: ChunkCoord, v: V)
        ensures
            final(self)@ == old(self)@.insert(c, v),
    {
        self.m.insert(key(c), v);
        proof {
            assert forall|d: ChunkCoord| key_of(d) == key_of(c) implies d == c by {
                lemma_key(c);
                lemma_key(d);
            }
            assert(self@ =~= old(self)@.insert(c, v));
        }
    }

    /// Takes a chunk out of the map.
    pub fn remove(&mut self, c: ChunkCoord) -> (r: Option<V>)
        ensures
            final(self)@ == old(self)@.remove(c),
            r is Some <==> old(self)@.contains_key(c),
            r matches Some(v) ==> v == old(self)@[c],
    {
        let r = self.m.remove(&key(c));
        proof {
            assert forall|d: ChunkCoord| key_of(d) == key_of(c) implies d == c by {
                lemma_key(c);
                lemma_key(d);
            }
            assert(self@ =~= old(self)@.remove(c));
        }
        r
    }

    /// The chunks of the map, in any order.
    pub fn keys(&self) -> (r: Vec<ChunkCoord>)
        ensures
            r@.no_duplicates(),
            r@.to_set() == self@.dom(),
    {
        let mut r: Vec<ChunkCoord> = Vec::new();
        let ghost all = self.m@.dom();
        for k in it: self.m.keys()
            invariant
                it.seq().unref().to_set() == self.m@.dom(),
                it.seq().no_duplicates(),
                r.len() == it.index(),
                forall|i: int| 0 <= i < r.len() ==> #[trigger] r[i] == coord_of(*it.seq()[i]),
        {
            r.push(coord(*k));
        }
        proof {
            let ks = vstd::std_specs::hash::spec_keys_iter(&self.m).remaining();
            assert forall|i: int, j: int| 0 <= i < r.len() && 0 <= j < r.len() && i != j implies r@[i]
                != r@[j] by {
                lemma_coord(*ks[i]);
                lemma_coord(*ks[j]);
            }
            assert forall|c: ChunkCoord| #[trigger] self@.dom().contains(c) implies r@.to_set().contains(
                c,
            ) by {
                lemma_key(c);
                assert(ks.unref().to_set().contains(key_of(c)));
                let i = choose|i: int| 0 <= i < ks.unref().len() && ks.unref()[i] == key_of(c);
                assert(r@[i] == c);
            }
            assert forall|c: ChunkCoord| #[trigger] r@.to_set().contains(c) implies self@.dom().contains(
                c,
            ) by {
                let i = choose|i: int| 0 <= i < r.len() && r@[i] == c;
                lemma_coord(*ks[i]);
                assert(ks.unref()[i] == *ks[i]);
                assert(ks.unref().to_set().contains(*ks[i]));
            }
            assert(r@.to_set() =~= self@.dom());
        }
        r
    }
}

/// A set of chunks.
pub struct CoordSet {
    m: CoordMap<()>,
}

impl View for CoordSet {
    type V = Set<ChunkCoord>;

    closed spec fn view(&self) -> Set<ChunkCoord> {
        self.m@.dom()
    }
}

impl CoordSet {
    /// A set without chunks.
    pub fn new() -> (r: CoordSet)
        ensures
            r@ == Set::<ChunkCoord>::empty(),
    {
        CoordSet { m: CoordMap::new() }
    }

    /// How many chunks the set has.
    pub fn len(&self) -> (r: usize)
        ensures
            r == self@.len(),
            self@.finite(),
    {
        self.m.len()
    }

    pub fn contains(&self, c: ChunkCoord) -> (r: bool)
        ensures
            r == self@.contains(c),
    {
        self.m.contains_key(c)
    }

    pub fn insert(&mut self, c: ChunkCoord)
        ensures
            final(self)@ == old(self)@.insert(c),
    {
        self.m.insert(c, ());
        assert(self@ =~= old(self)@.insert(c));
    }

    pub fn remove(&mut self, c: ChunkCoord)
        ensures
            final(self)@ == old(self)@.remove(c),
    {
        self.m.remove(c);
        assert(self@ =~= old(self)@.remove(c));
    }

    /// The chunks of the set, in any order.
    pub fn items(&self) -> (r: Vec<ChunkCoord>)
        ensures
            r@.no_duplicates(),
            r@.to_set() == self@,
    {
        self.m.keys()
    }
}

/// The chunks within `r` chunks of `cam`, counted in king's moves.
pub open spec fn near(cam: ChunkCoord, r: int) -> Set<ChunkCoord> {
    Set::new(|c: ChunkCoord| chebyshev(c, cam) <= r)
}

/// Distance of two chunks, counted in king's moves.
pub fn distance(a: ChunkCoord, b: ChunkCoord) -> (r: i64)
    ensures
        r == chebyshev(a, b),
        0 <= r <= 0xffff_ffff,
{
    let dx: i64 = if a.x >= b.x {
        a.x as i64 - b.x as i64
    } else {
        b.x as i64 - a.x as i64
    };
    let dz: i64 = if a.z >= b.z {
        a.z as i64 - b.z as i64
    } else {
        b.z as i64 - a.z as i64
    };
    if dx >= dz {
        dx
    } else {
        dz
    }
}

/// Those of a list of chunks that are more than `r` away from `cam`.
fn far_ones(v: &Vec<ChunkCoord>, cam: ChunkCoord, r: i64) -> (gone: Vec<ChunkCoord>)
    ensures
        forall|c: ChunkCoord|
            #[trigger] gone@.contains(c) <==> v@.contains(c) && !near(cam, r as int).contains(c),
{
    let mut gone: Vec<ChunkCoord> = Vec::new();
    let mut i: usize = 0;
    while i < v.len()
        invariant
            i <= v.len(),
            forall|c: ChunkCoord|
                #[trigger] gone@.contains(c) <==> v@.take(i as int).contains(c) && !near(
                    cam,
                    r as int,
                ).contains(c),
        decreases v.len() - i,
    {
        let c = v[i];
        let ghost before = gone@;
        if distance(c, cam) > r {
            gone.push(c);
        }
        proof {
            lemma_take_contains(v@, i as int);
            assert forall|d: ChunkCoord|
                #[trigger] gone@.contains(d) <==> v@.take(i + 1).contains(d) && !near(
                    cam,
                    r as int,
                ).contains(d) by {
                lemma_push_contains(before, c, d);
                assert(before.contains(d) <==> v@.take(i as int).contains(d) && !near(
                    cam,
                    r as int,
                ).contains(d));
            }
        }
        i = i + 1;
    }
    assert(v@.take(i as int) =~= v@);
    gone
}

pub proof fn lemma_push_contains<T>(s: Seq<T>, a: T, b: T)
    ensures
        s.push(a).contains(b) <==> s.contains(b) || b == a,
{
    if s.contains(b) {
        let i = choose|i: int| 0 <= i < s.len() && s[i] == b;
        assert(s.push(a)[i] == b);
    }
    assert(s.push(a)[s.len() as int] == a);
    if s.push(a).contains(b) {
        let i = choose|i: int| 0 <= i < s.push(a).len() && s.push(a)[i] == b;
        if i < s.len() {
            assert(s[i] == b);
        }
    }
}

pub proof fn lemma_take_contains<T>(s: Seq<T>, i: int)
    requires
        0 <= i < s.len(),
    ensures
        forall|b: T|
            #[trigger] s.take(i + 1).contains(b) <==> s.take(i).contains(b) || b == s[i],
{
    assert(s.take(i + 1) =~= s.take(i).push(s[i]));
    assert forall|b: T|
        #[trigger] s.take(i + 1).contains(b) <==> s.take(i).contains(b) || b == s[i] by {
        lemma_push_contains(s.take(i), s[i], b);
    }
}

/// What holds of any two elements of a list, in their order, holds of those that are picked.
pub proof fn lemma_filter_pairs<T>(s: Seq<T>, keep: spec_fn(T) -> bool, rel: spec_fn(T, T) -> bool)
    requires
        forall|i: int, j: int| 0 <= i < j < s.len() ==> #[trigger] rel(s[i], s[j]),
    ensures
        forall|i: int, j: int|
            0 <= i < j < s.filter(keep).len() ==> #[trigger] rel(
                s.filter(keep)[i],
                s.filter(keep)[j],
            ),
    decreases s.len(),
{
    reveal(Seq::filter);
    if s.len() > 0 {
        let t = s.drop_last();
        assert forall|i: int, j: int| 0 <= i < j < t.len() implies #[trigger] rel(t[i], t[j]) by {
            assert(rel(s[i], s[j]));
        }
        lemma_filter_pairs(t, keep, rel);
        let r = s.filter(keep);
        assert forall|i: int, j: int| 0 <= i < j < r.len() implies #[trigger] rel(r[i], r[j]) by {
            if j < t.filter(keep).len() {
                assert(rel(t.filter(keep)[i], t.filter(keep)[j]));
            } else {
                lemma_filter_from(t, keep, i);
                let k = choose|k: int| 0 <= k < t.len() && #[trigger] t[k] == t.filter(keep)[i];
                assert(rel(s[k], s[s.len() - 1]));
            }
        }
    }
}

/// What is in a list and is to be picked is picked.
pub proof fn lemma_filter_has<T>(s: Seq<T>, keep: spec_fn(T) -> bool, i: int)
    requires
        0 <= i < s.len(),
        keep(s[i]),
    ensures
        s.filter(keep).contains(s[i]),
    decreases s.len(),
{
    reveal(Seq::filter);
    let t = s.drop_last();
    let r = s.filter(keep);
    if i < t.len() {
        lemma_filter_has(t, keep, i);
        let k = choose|k: int| 0 <= k < t.filter(keep).len() && t.filter(keep)[k] == t[i];
        assert(r[k] == s[i]);
    } else {
        assert(r[t.filter(keep).len() as int] == s[i]);
    }
}

/// The elements that are picked from a list are in it.
pub proof fn lemma_filter_from<T>(s: Seq<T>, keep: spec_fn(T) -> bool, i: int)
    requires
        0 <= i < s.filter(keep).len(),
    ensures
        exists|k: int| 0 <= k < s.len() && #[trigger] s[k] == s.filter(keep)[i],
        keep(s.filter(keep)[i]),
    decreases s.len(),
{
    reveal(Seq::filter);
    if s.len() > 0 {
        let t = s.drop_last();
        if i < t.filter(keep).len() {
            lemma_filter_from(t, keep, i);
            let k = choose|k: int| 0 <= k < t.len() && #[trigger] t[k] == t.filter(keep)[i];
            assert(s[k] == s.filter(keep)[i]);
        } else {
            assert(s[s.len() - 1] == s.filter(keep)[i]);
        }
    }
}

impl<V> CoordMap<V> {
    /// Takes all of a list of chunks out of the map.
    pub fn remove_all(&mut self, gone: &Vec<ChunkCoord>)
        ensures
            final(self)@ == old(self)@.remove_keys(gone@.to_set()),
    {
        let ghost before = self@;
        let mut i: usize = 0;
        assert(self@ =~= before.remove_keys(gone@.take(0).to_set()));
        while i < gone.len()
            invariant
                i <= gone.len(),
                self@ == before.remove_keys(gone@.take(i as int).to_set()),
            decreases gone.len() - i,
        {
            self.remove(gone[i]);
            proof {
                lemma_take_contains(gone@, i as int);
                assert(self@ =~= before.remove_keys(gone@.take(i + 1).to_set())) by {
                    assert forall|c: ChunkCoord|
                        #[trigger] gone@.take(i + 1).to_set().contains(c) <==> gone@.take(
                            i as int,
                        ).to_set().contains(c) || c == gone[i as int] by {
                        assert(gone@.take(i + 1).to_set().contains(c) <==> gone@.take(
                            i + 1,
                        ).contains(c));
                        assert(gone@.take(i as int).to_set().contains(c) <==> gone@.take(
                            i as int,
                        ).contains(c));
                    }
                }
            }
            i = i + 1;
        }
        assert(gone@.take(i as int) =~= gone@);
    }

    /// Takes out what is more than `r` chunks away from `cam`.
    pub fn keep_near(&mut self, cam: ChunkCoord, r: i64)
        ensures
            final(self)@ == old(self)@.restrict(near(cam, r as int)),
    {
        let all = self.keys();
        let gone = far_ones(&all, cam, r);
        let ghost before = self@;
        self.remove_all(&gone);
        proof {
            assert forall|c: ChunkCoord| before.contains_key(c) implies (gone@.to_set().contains(c)
                <==> !near(cam, r as int).contains(c)) by {
                assert(all@.to_set().contains(c));
                assert(gone@.contains(c) <==> all@.contains(c) && !near(cam, r as int).contains(c));
            }
            assert(self@ =~= before.restrict(near(cam, r as int)));
        }
    }

    /// Takes out what is not in `set`.
    pub fn keep_in(&mut self, set: &CoordSet)
        ensures
            final(self)@ == old(self)@.restrict(set@),
    {
        let all = self.keys();
        let ghost before = self@;
        let mut i: usize = 0;
        proof {
            assert forall|c: ChunkCoord| #[trigger] before.contains_key(c) implies all@.contains(
                c,
            ) by {
                assert(all@.to_set().contains(c));
            }
        }
        while i < all.len()
            invariant
                i <= all.len(),
                forall|c: ChunkCoord| #[trigger] before.contains_key(c) ==> all@.contains(c),
                forall|c: ChunkCoord|
                    #[trigger] self@.contains_key(c) <==> before.contains_key(c) && (set@.contains(
                        c,
                    ) || !all@.take(i as int).contains(c)),
                forall|c: ChunkCoord| self@.contains_key(c) ==> #[trigger] self@[c] == before[c],
            decreases all.len() - i,
        {
            if !set.contains(all[i]) {
                self.remove(all[i]);
            }
            proof {
                lemma_take_contains(all@, i as int);
            }
            i = i + 1;
        }
        assert(all@.take(i as int) =~= all@);
        assert(self@ =~= before.restrict(set@));
    }
}

impl CoordSet {
    /// Takes out what is more than `r` chunks away from `cam`.
    pub fn keep_near(&mut self, cam: ChunkCoord, r: i64)
        ensures
            final(self)@ == old(self)@.intersect(near(cam, r as int)),
    {
        self.m.keep_near(cam, r);
        assert(self@ =~= old(self)@.intersect(near(cam, r as int)));
    }
}

/// A map from chunks to values that are spoken of by their views.
pub struct ViewMap<T: View> {
    m: CoordMap<T>,
}

impl<T: View> View for ViewMap<T> {
    type V = Map<ChunkCoord, T::V>;

    closed spec fn view(&self) -> Map<ChunkCoord, T::V> {
        self.m@.map_values(|t: T| t@)
    }
}

impl<T: View> ViewMap<T> {
    /// A map without chunks.
    pub fn new() -> (r: ViewMap<T>)
        ensures
            r@ == Map::<ChunkCoord, T::V>::empty(),
    {
        let r = ViewMap { m: CoordMap::new() };
        assert(r@ =~= Map::<ChunkCoord, T::V>::empty());
        r
    }

    pub fn contains_key(&self, c: ChunkCoord) -> (r: bool)
        ensures
            r == self@.contains_key(c),
    {
        self.m.contains_key(c)
    }

    pub fn get(&self, c: ChunkCoord) -> (r: Option<&T>)
        ensures
            r is Some <==> self@.contains_key(c),
            r matches Some(v) ==> v@ == self@[c],
    {
        self.m.get(c)
    }

    pub fn insert(&mut self, c: ChunkCoord, v: T)
        ensures
            final(self)@ == old(self)@.insert(c, v@),
    {
        self.m.insert(c, v);
        assert(self@ =~= old(self)@.insert(c, v@));
    }

    /// Takes a chunk out of the map.
    pub fn remove(&mut self, c: ChunkCoord) -> (r: Option<T>)
        ensures
            final(self)@ == old(self)@.remove(c),
            r is Some <==> old(self)@.contains_key(c),
            r matches Some(v) ==> v@ == old(self)@[c],
    {
        let r = self.m.remove(c);
        assert(self@ =~= old(self)@.remove(c));
        r
    }

    /// The chunks of the map, in any order.
    pub fn keys(&self) -> (r: Vec<ChunkCoord>)
        ensures
            r@.no_duplicates(),
            r@.to_set() == self@.dom(),
    {
        let r = self.m.keys();
        assert(self@.dom() =~= self.m@.dom());
        r
    }

    /// Takes out what is not in `set`.
    pub fn keep_in(&mut self, set: &CoordSet)
        ensures
            final(self)@ == old(self)@.restrict(set@),
    {
        self.m.keep_in(set);
        assert(self@ =~= old(self)@.restrict(set@));
    }

    /// Takes out what is neither in `set` nor within `r` chunks of `cam`.
    pub fn keep_near_or_in(&mut self, cam: ChunkCoord, r: i64, set: &CoordSet)
        ensures
            final(self)@ == old(self)@.restrict(near(cam, r as int).union(set@)),
    {
        let mut keep = CoordSet::new();
        let all = self.keys();
        let mut i: usize = 0;
        while i < all.len()
            invariant
                i <= all.len(),
                forall|c: ChunkCoord|
                    #[trigger] keep@.contains(c) <==> all@.take(i as int).contains(c) && near(
                        cam,
                        r as int,
                    ).union(set@).contains(c),
            decreases all.len() - i,
        {
            if set.contains(all[i]) || distance(all[i], cam) <= r {
                keep.insert(all[i]);
            }
            proof {
                lemma_take_contains(all@, i as int);
            }
            i = i + 1;
        }
        let ghost before = self@;
        self.keep_in(&keep);
        proof {
            assert(all@.take(i as int) =~= all@);
            assert forall|c: ChunkCoord| #[trigger] before.contains_key(c) implies all@.contains(
                c,
            ) by {
                assert(all@.to_set().contains(c));
            }
            assert(self@ =~= before.restrict(near(cam, r as int).union(set@)));
        }
    }
}

} // verus!
