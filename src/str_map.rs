//! A map keyed by strings, held as parallel vectors of distinct keys and
//! their values, in order of first insertion.

use crate::value_set::ValueSet;
use vstd::prelude::*;
use vstd::seq_lib::seq_to_set_is_finite;

verus! {

/// The map that a sequence of distinct keys and a sequence of values describe
/// together, position by position.
pub open spec fn map_of<V>(ks: Seq<Seq<char>>, vs: Seq<V>) -> Map<Seq<char>, V>
    decreases ks.len(),
{
    if ks.len() == 0 || vs.len() == 0 {
        Map::empty()
    } else {
        map_of(ks.drop_last(), vs.drop_last()).insert(ks.last(), vs.last())
    }
}

/// With distinct keys, the map holds exactly the keys, each with its value.
pub proof fn lemma_map_of<V>(ks: Seq<Seq<char>>, vs: Seq<V>)
    requires
        ks.len() == vs.len(),
        ks.no_duplicates(),
    ensures
        map_of(ks, vs).dom() == ks.to_set(),
        forall|i: int| 0 <= i < ks.len() ==> #[trigger] map_of(ks, vs)[ks[i]] == vs[i],
    decreases ks.len(),
{
    if ks.len() == 0 {
        assert(map_of(ks, vs).dom() =~= ks.to_set());
    } else {
        let ks0 = ks.drop_last();
        let vs0 = vs.drop_last();
        assert(ks0.no_duplicates());
        lemma_map_of(ks0, vs0);
        assert forall|k: Seq<char>| map_of(ks, vs).dom().contains(k) <==> ks.to_set().contains(k) by {
            if ks0.contains(k) {
                let j = choose|j: int| 0 <= j < ks0.len() && ks0[j] == k;
                assert(ks[j] == k);
            }
            if ks.contains(k) && k != ks.last() {
                let j = choose|j: int| 0 <= j < ks.len() && ks[j] == k;
                assert(ks0[j] == k);
            }
        }
        assert(map_of(ks, vs).dom() =~= ks.to_set());
        assert forall|i: int| 0 <= i < ks.len() implies #[trigger] map_of(ks, vs)[ks[i]] == vs[i] by {
            if i < ks.len() - 1 {
                assert(ks0[i] == ks[i]);
                assert(ks[i] != ks.last());
            }
        }
    }
}

/// The views of a list of strings.
spec fn string_views_of(v: Seq<String>) -> Seq<Seq<char>> {
    v.map_values(|s: String| s@)
}

/// A map from strings to values.
pub struct StrMap<V> {
    keys: Vec<String>,
    vals: Vec<V>,
}

impl<V> View for StrMap<V> {
    type V = Map<Seq<char>, V>;

    closed spec fn view(&self) -> Map<Seq<char>, V> {
        map_of(self.key_list(), self.vals@)
    }
}

impl<V> StrMap<V> {
    /// The keys in order of first insertion.
    pub closed spec fn key_list(&self) -> Seq<Seq<char>> {
        string_views_of(self.keys@)
    }

    /// The values, position by position with the keys.
    pub closed spec fn value_list(&self) -> Seq<V> {
        self.vals@
    }

    /// Keys and values correspond and no key repeats.
    #[verifier::type_invariant]
    pub closed spec fn wf(&self) -> bool {
        &&& self.keys@.len() == self.vals@.len()
        &&& self.key_list().no_duplicates()
    }

    /// What the two lists say of the map.
    pub proof fn lemma_lists(&self)
        requires
            self.wf(),
        ensures
            self.key_list().len() == self.value_list().len(),
            self.key_list().no_duplicates(),
            self@.dom() == self.key_list().to_set(),
            self@.dom().finite(),
            self@.dom().len() == self.key_list().len(),
            forall|i: int|
                0 <= i < self.key_list().len() ==> #[trigger] self@[self.key_list()[i]]
                    == self.value_list()[i],
    {
        lemma_map_of(self.key_list(), self.vals@);
        self.key_list().unique_seq_to_set();
    }

    /// The map of the first `i` keys and their values.
    pub closed spec fn prefix_map(&self, i: int) -> Map<Seq<char>, V> {
        map_of(self.key_list().subrange(0, i), self.vals@.subrange(0, i))
    }

    /// The prefix maps run from the empty map to the whole map.
    pub proof fn lemma_prefix_map_ends(&self)
        requires
            self.wf(),
        ensures
            self.prefix_map(0) == Map::<Seq<char>, V>::empty(),
            self.prefix_map(self.key_list().len() as int) == self@,
    {
        let ks = self.key_list();
        let vs = self.vals@;
        assert(ks.subrange(0, ks.len() as int) =~= ks);
        assert(vs.subrange(0, vs.len() as int) =~= vs);
        assert(ks.subrange(0, 0).len() == 0);
    }

    /// The prefix maps grow by one key at a time, and the key each step adds
    /// is new.
    pub proof fn lemma_prefix_map(&self, i: int)
        requires
            self.wf(),
            0 <= i < self.key_list().len(),
        ensures
            !self.prefix_map(i).contains_key(self.key_list()[i]),
            self.prefix_map(i + 1) == self.prefix_map(i).insert(
                self.key_list()[i],
                self.value_list()[i],
            ),
    {
        let ks = self.key_list();
        let vs = self.vals@;
        assert(ks.subrange(0, ks.len() as int) =~= ks);
        assert(vs.subrange(0, vs.len() as int) =~= vs);
        assert(ks.subrange(0, i + 1).drop_last() =~= ks.subrange(0, i));
        assert(vs.subrange(0, i + 1).drop_last() =~= vs.subrange(0, i));
        let pre = ks.subrange(0, i);
        assert(pre.no_duplicates());
        lemma_map_of(pre, vs.subrange(0, i));
        if pre.contains(ks[i]) {
            let j = choose|j: int| 0 <= j < pre.len() && pre[j] == ks[i];
            assert(ks[j] == ks[i]);
        }
    }

    /// Every prefix map is finite.
    pub proof fn lemma_prefix_finite(&self, i: int)
        requires
            self.wf(),
            0 <= i <= self.key_list().len(),
        ensures
            self.prefix_map(i).dom().finite(),
    {
        let pre = self.key_list().subrange(0, i);
        assert(pre.no_duplicates());
        lemma_map_of(pre, self.vals@.subrange(0, i));
        seq_to_set_is_finite(pre);
    }

    /// The empty map.
    pub fn new() -> (r: StrMap<V>)
        ensures
            r.wf(),
            r@ == Map::<Seq<char>, V>::empty(),
            r.key_list().len() == 0,
    {
        let r = StrMap { keys: Vec::new(), vals: Vec::new() };
        assert(r.key_list() =~= Seq::<Seq<char>>::empty());
        r
    }

    /// The number of keys.
    pub fn len(&self) -> (r: usize)
        requires
            self.wf(),
        ensures
            r == self.key_list().len(),
    {
        self.keys.len()
    }

    /// The key at position `i`.
    pub fn key_at(&self, i: usize) -> (r: &String)
        requires
            self.wf(),
            i < self.key_list().len(),
        ensures
            r@ == self.key_list()[i as int],
    {
        &self.keys[i]
    }

    /// The value at position `i`.
    pub fn value_at(&self, i: usize) -> (r: &V)
        requires
            self.wf(),
            i < self.key_list().len(),
        ensures
            *r == self.value_list()[i as int],
            *r == self@[self.key_list()[i as int]],
    {
        proof {
            self.lemma_lists();
        }
        &self.vals[i]
    }

    /// The position of key `k`, if present.
    pub fn find(&self, k: &String) -> (r: Option<usize>)
        requires
            self.wf(),
        ensures
            r matches Some(i) ==> i < self.key_list().len() && self.key_list()[i as int] == k@,
            r is None <==> !self@.contains_key(k@),
    {
        proof {
            self.lemma_lists();
        }
        let mut i: usize = 0;
        while i < self.keys.len()
            invariant
                self.wf(),
                self@.dom() == self.key_list().to_set(),
                i <= self.keys@.len(),
                forall|j: int| 0 <= j < i ==> self.key_list()[j] != k@,
            decreases self.keys@.len() - i,
        {
            if self.keys[i] == *k {
                proof {
                    assert(self.key_list()[i as int] == k@);
                    assert(self.key_list().to_set().contains(k@));
                }
                return Some(i);
            }
            i = i + 1;
        }
        proof {
            if self.key_list().contains(k@) {
                let j = choose|j: int| 0 <= j < self.key_list().len() && self.key_list()[j] == k@;
            }
        }
        None
    }

    /// The value of key `k`, if present.
    pub fn get(&self, k: &String) -> (r: Option<&V>)
        requires
            self.wf(),
        ensures
            r matches Some(v) ==> self@.contains_key(k@) && *v == self@[k@],
            r is None <==> !self@.contains_key(k@),
    {
        match self.find(k) {
            Some(i) => Some(self.value_at(i)),
            None => None,
        }
    }

    /// Replaces the value at position `i`, returning the one it held.
    pub fn replace_at(&mut self, i: usize, v: V) -> (r: V)
        requires
            old(self).wf(),
            i < old(self).key_list().len(),
        ensures
            final(self).wf(),
            final(self).key_list() == old(self).key_list(),
            final(self)@ == old(self)@.insert(old(self).key_list()[i as int], v),
            r == old(self)@[old(self).key_list()[i as int]],
    {
        proof {
            self.lemma_lists();
        }
        let ghost before = *self;
        let mut v = v;
        let mut taken = StrMap { keys: Vec::new(), vals: Vec::new() };
        std::mem::swap(self, &mut taken);
        let StrMap { keys, mut vals } = taken;
        std::mem::swap(&mut vals[i], &mut v);
        proof {
            assert(string_views_of(keys@) =~= before.key_list());
        }
        *self = StrMap { keys, vals };
        proof {
            let k = before.key_list()[i as int];
            assert(self.key_list() =~= before.key_list());
            self.lemma_lists();
            assert(self@.dom() =~= before@.insert(k, self.vals@[i as int]).dom());
            assert forall|key: Seq<char>| self@.contains_key(key) implies self@[key]
                == before@.insert(k, self.vals@[i as int])[key] by {
                let j = choose|j: int| 0 <= j < self.key_list().len() && self.key_list()[j] == key;
                assert(self@[self.key_list()[j]] == self.vals@[j]);
                if j != i {
                    assert(before@[before.key_list()[j]] == before.vals@[j]);
                }
            }
            assert(self@ =~= before@.insert(k, self.vals@[i as int]));
        }
        v
    }

    /// Sets key `k` to `v`, replacing any value it had.
    pub fn insert(&mut self, k: String, v: V)
        requires
            old(self).wf(),
        ensures
            final(self).wf(),
            final(self)@ == old(self)@.insert(k@, v),
    {
        match self.find(&k) {
            Some(i) => {
                self.replace_at(i, v);
            },
            None => {
                let ghost before = *self;
                proof {
                    before.lemma_lists();
                }
                let mut taken = StrMap { keys: Vec::new(), vals: Vec::new() };
        std::mem::swap(self, &mut taken);
                let StrMap { mut keys, mut vals } = taken;
                keys.push(k);
                vals.push(v);
                proof {
                    let kl = string_views_of(keys@);
                    assert(kl =~= before.key_list().push(k@));
                    assert forall|a: int, b: int|
                        0 <= a < b < kl.len() implies kl[a] != kl[b] by {
                        if b == kl.len() - 1 {
                            assert(before.key_list().to_set().contains(before.key_list()[a]));
                        }
                    }
                }
                *self = StrMap { keys, vals };
                proof {
                    assert(self.key_list() =~= before.key_list().push(k@));
                    assert(self.key_list().drop_last() =~= before.key_list());
                    assert(self.vals@.drop_last() =~= before.vals@);
                    assert forall|a: int, b: int|
                        0 <= a < b < self.key_list().len() implies self.key_list()[a]
                        != self.key_list()[b] by {
                        if b == self.key_list().len() - 1 {
                            assert(before.key_list().to_set().contains(before.key_list()[a]));
                        }
                    }
                }
            },
        }
    }
}

impl StrMap<u64> {
    /// A copy of this map.
    pub fn copy(&self) -> (r: StrMap<u64>)
        requires
            self.wf(),
        ensures
            r.wf(),
            r@ == self@,
    {
        let mut keys: Vec<String> = Vec::new();
        let mut vals: Vec<u64> = Vec::new();
        let mut i: usize = 0;
        while i < self.keys.len()
            invariant
                self.wf(),
                i <= self.keys@.len(),
                keys@ == self.keys@.subrange(0, i as int),
                vals@ == self.vals@.subrange(0, i as int),
            decreases self.keys@.len() - i,
        {
            keys.push(self.keys[i].clone());
            vals.push(self.vals[i]);
            i = i + 1;
        }
        assert(keys@ =~= self.keys@);
        assert(string_views_of(keys@) =~= self.key_list());
        let r = StrMap { keys, vals };
        assert(r.vals@ =~= self.vals@);
        assert(r.key_list() =~= self.key_list());
        r
    }
}

impl StrMap<ValueSet> {
    /// A copy of this map.
    pub fn copy(&self) -> (r: StrMap<ValueSet>)
        requires
            self.wf(),
        ensures
            r.wf(),
            r@.map_values(|s: ValueSet| s@) == self@.map_values(|s: ValueSet| s@),
    {
        let mut keys: Vec<String> = Vec::new();
        let mut vals: Vec<ValueSet> = Vec::new();
        let mut i: usize = 0;
        while i < self.keys.len()
            invariant
                self.wf(),
                i <= self.keys@.len(),
                keys@ == self.keys@.subrange(0, i as int),
                vals@.len() == i,
                forall|j: int| 0 <= j < i ==> (#[trigger] vals@[j])@ == self.vals@[j]@,
            decreases self.keys@.len() - i,
        {
            keys.push(self.keys[i].clone());
            vals.push(self.vals[i].copy());
            i = i + 1;
        }
        assert(keys@ =~= self.keys@);
        assert(string_views_of(keys@) =~= self.key_list());
        let r = StrMap { keys, vals };
        assert(r.key_list() =~= self.key_list());
        proof {
            r.lemma_lists();
            self.lemma_lists();
            assert forall|k: Seq<char>| #[trigger] r@.contains_key(k) implies r@[k]@ == self@[k]@ by {
                let j = choose|j: int| 0 <= j < r.key_list().len() && r.key_list()[j] == k;
                assert(r@[r.key_list()[j]] == r.vals@[j]);
                assert(self@[self.key_list()[j]] == self.vals@[j]);
            }
            assert(r@.map_values(|s: ValueSet| s@) =~= self@.map_values(|s: ValueSet| s@));
        }
        r
    }
}

} // verus!
