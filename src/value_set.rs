//! A finite set of integers, held as a strictly increasing vector.

use vstd::prelude::*;

verus! {

/// True when `s` is strictly increasing, hence free of duplicates.
pub open spec fn strictly_increasing(s: Seq<u64>) -> bool {
    forall|i: int, j: int| 0 <= i < j < s.len() ==> s[i] < s[j]
}

/// Extending a prefix by one position adds that position's element.
proof fn lemma_prefix_push(s: Seq<u64>, i: int)
    requires
        0 <= i < s.len(),
    ensures
        forall|y: u64| #[trigger] s.subrange(0, i + 1).contains(y)
            <==> (s.subrange(0, i).contains(y) || y == s[i]),
        s.subrange(0, i + 1).to_set() == s.subrange(0, i).to_set().insert(s[i]),
{
    assert(s.subrange(0, i + 1) =~= s.subrange(0, i).push(s[i]));
    assert forall|y: u64| #[trigger] s.subrange(0, i + 1).contains(y)
        <==> (s.subrange(0, i).contains(y) || y == s[i]) by {
        let p = s.subrange(0, i);
        if p.contains(y) {
            let k = choose|k: int| 0 <= k < p.len() && p[k] == y;
            assert(p.push(s[i])[k] == y);
        }
        if p.push(s[i]).contains(y) {
            let k = choose|k: int| 0 <= k < p.len() + 1 && p.push(s[i])[k] == y;
            if k < p.len() {
                assert(p[k] == y);
            }
        }
        assert(p.push(s[i])[i] == s[i]);
    }
    assert(s.subrange(0, i + 1).to_set() =~= s.subrange(0, i).to_set().insert(s[i]));
}

/// A set of integers. Its elements are kept in ascending order, so that
/// listing them needs no sort.
pub struct ValueSet {
    elems: Vec<u64>,
}

impl View for ValueSet {
    type V = Set<u64>;

    closed spec fn view(&self) -> Set<u64> {
        self.elems@.to_set()
    }
}

impl ValueSet {
    /// The representation is ascending without repetition.
    #[verifier::type_invariant]
    spec fn sorted(&self) -> bool {
        strictly_increasing(self.elems@)
    }

    /// The empty set.
    pub fn new() -> (r: ValueSet)
        ensures
            r@ == Set::<u64>::empty(),
    {
        let r = ValueSet { elems: Vec::new() };
        assert(r@ =~= Set::<u64>::empty());
        r
    }

    /// The number of elements.
    pub fn len(&self) -> (r: usize)
        ensures
            r == self@.len(),
    {
        proof {
            use_type_invariant(self);
            self.elems@.unique_seq_to_set();
        }
        self.elems.len()
    }

    /// The position of the first element not below `x`, or the length.
    fn position(&self, x: u64) -> (p: usize)
        ensures
            strictly_increasing(self.elems@),
            p <= self.elems@.len(),
            forall|i: int| 0 <= i < p ==> self.elems@[i] < x,
            p < self.elems@.len() ==> self.elems@[p as int] >= x,
    {
        proof {
            use_type_invariant(self);
        }
        let mut i: usize = 0;
        while i < self.elems.len() && self.elems[i] < x
            invariant
                i <= self.elems@.len(),
                forall|j: int| 0 <= j < i ==> self.elems@[j] < x,
            decreases self.elems@.len() - i,
        {
            i = i + 1;
        }
        i
    }

    /// Whether `x` is an element.
    pub fn contains(&self, x: u64) -> (r: bool)
        ensures
            r == self@.contains(x),
    {
        let p = self.position(x);
        let r = p < self.elems.len() && self.elems[p] == x;
        proof {
            if !r {
                assert forall|j: int| 0 <= j < self.elems@.len() implies self.elems@[j] != x by {
                    if j > p {
                        assert(self.elems@[p as int] < self.elems@[j]);
                    }
                }
            }
        }
        r
    }

    /// Adds `x`; returns whether it was new. Adding an element twice changes
    /// nothing the second time.
    pub fn insert(&mut self, x: u64) -> (r: bool)
        ensures
            final(self)@ == old(self)@.insert(x),
            r == !old(self)@.contains(x),
    {
        let p = self.position(x);
        if p < self.elems.len() && self.elems[p] == x {
            assert(self@.insert(x) =~= self@);
            false
        } else {
            proof {
                assert forall|j: int| 0 <= j < self.elems@.len() implies self.elems@[j] != x by {
                    if j > p {
                        assert(self.elems@[p as int] < self.elems@[j]);
                    }
                }
            }
            let ghost before = self.elems@;
            let mut elems: Vec<u64> = Vec::new();
            std::mem::swap(&mut elems, &mut self.elems);
            elems.insert(p, x);
            proof {
                let after = elems@;
                assert(after =~= before.insert(p as int, x));
                assert forall|i: int, j: int| 0 <= i < j < after.len() implies after[i] < after[j] by {
                    if j < p {
                    } else if j == p {
                    } else if i < p {
                        assert(after[j] == before[j - 1]);
                        assert(before[p as int] >= x);
                        if j - 1 > p {
                            assert(before[p as int] < before[j - 1]);
                        }
                    } else if i == p {
                        assert(before[p as int] >= x);
                        if j - 1 > p {
                            assert(before[p as int] < before[j - 1]);
                        }
                    } else {
                        assert(before[i - 1] < before[j - 1]);
                    }
                }
                assert forall|y: u64| after.to_set().contains(y) == before.to_set().insert(x).contains(y) by {
                    if before.contains(y) {
                        let k = choose|k: int| 0 <= k < before.len() && before[k] == y;
                        if k < p {
                            assert(after[k] == y);
                        } else {
                            assert(after[k + 1] == y);
                        }
                    }
                    if after.contains(y) {
                        let k = choose|k: int| 0 <= k < after.len() && after[k] == y;
                        if k < p {
                            assert(before[k] == y);
                        } else if k > p {
                            assert(before[k - 1] == y);
                        }
                    }
                    if y == x {
                        assert(after[p as int] == x);
                    }
                }
                assert(after.to_set() =~= before.to_set().insert(x));
            }
            self.elems = elems;
            true
        }
    }

    /// A copy of the representation.
    fn copy_elems(&self) -> (r: Vec<u64>)
        ensures
            r@ == self.elems@,
            strictly_increasing(r@),
    {
        proof {
            use_type_invariant(self);
        }
        let mut elems: Vec<u64> = Vec::new();
        let mut i: usize = 0;
        while i < self.elems.len()
            invariant
                i <= self.elems@.len(),
                elems@ == self.elems@.subrange(0, i as int),
            decreases self.elems@.len() - i,
        {
            elems.push(self.elems[i]);
            i = i + 1;
        }
        assert(elems@ =~= self.elems@);
        elems
    }

    /// A copy of this set.
    pub fn copy(&self) -> (r: ValueSet)
        ensures
            r@ == self@,
    {
        ValueSet { elems: self.copy_elems() }
    }

    /// The elements in ascending order.
    pub fn to_vec(&self) -> (r: Vec<u64>)
        ensures
            strictly_increasing(r@),
            r@.to_set() == self@,
    {
        self.copy_elems()
    }

    /// Adds every element of `other`.
    pub fn union_with(&mut self, other: &ValueSet)
        ensures
            final(self)@ == old(self)@.union(other@),
    {
        proof {
            use_type_invariant(other);
        }
        let ghost start = self@;
        let mut i: usize = 0;
        while i < other.elems.len()
            invariant
                i <= other.elems@.len(),
                strictly_increasing(other.elems@),
                self@ == start.union(other.elems@.subrange(0, i as int).to_set()),
            decreases other.elems@.len() - i,
        {
            let ghost prev = self@;
            self.insert(other.elems[i]);
            proof {
                let s = other.elems@;
                lemma_prefix_push(s, i as int);
                assert(self@ =~= start.union(s.subrange(0, i + 1).to_set()));
            }
            i = i + 1;
        }
        assert(other.elems@.subrange(0, other.elems@.len() as int) =~= other.elems@);
    }

    /// The elements of this set that satisfy a bound or an exclusion:
    /// those at least `low` and, where `excluded` is given, not in it.
    fn select(&self, low: u64, high: u64, excluded: Option<&ValueSet>) -> (r: ValueSet)
        ensures
            r@ == self@.filter(|x: u64| low <= x <= high && !(excluded matches Some(e) && e@.contains(x))),
    {
        proof {
            use_type_invariant(self);
        }
        let ghost keep = |x: u64| low <= x <= high && !(excluded matches Some(e) && e@.contains(x));
        let mut elems: Vec<u64> = Vec::new();
        let mut i: usize = 0;
        while i < self.elems.len()
            invariant
                i <= self.elems@.len(),
                strictly_increasing(self.elems@),
                strictly_increasing(elems@),
                i < self.elems@.len() ==> forall|k: int| 0 <= k < elems@.len() ==> elems@[k] < self.elems@[i as int],
                keep == (|x: u64| low <= x <= high && !(excluded matches Some(e) && e@.contains(x))),
                forall|y: u64| elems@.contains(y) <==> (self.elems@.subrange(0, i as int).contains(y) && keep(y)),
            decreases self.elems@.len() - i,
        {
            let x = self.elems[i];
            let take = low <= x && x <= high && match excluded {
                Some(e) => !e.contains(x),
                None => true,
            };
            let ghost prev = elems@;
            if take {
                elems.push(x);
            }
            proof {
                let s = self.elems@;
                lemma_prefix_push(s, i as int);
                assert forall|y: u64| elems@.contains(y) <==> (s.subrange(0, i + 1).contains(y) && keep(y)) by {
                    if take {
                        assert(elems@[prev.len() as int] == x);
                        if elems@.contains(y) && y != x {
                            let k = choose|k: int| 0 <= k < elems@.len() && elems@[k] == y;
                            assert(prev[k] == y);
                        }
                        if prev.contains(y) {
                            let k = choose|k: int| 0 <= k < prev.len() && prev[k] == y;
                            assert(elems@[k] == y);
                        }
                    }
                }
                if i + 1 < s.len() {
                    assert(s[i as int] < s[i + 1]);
                }
            }
            i = i + 1;
        }
        let r = ValueSet { elems };
        proof {
            assert(self.elems@.subrange(0, self.elems@.len() as int) =~= self.elems@);
            assert(r@ =~= self@.filter(keep));
        }
        r
    }

    /// The elements of this set that are not in `other`.
    pub fn difference(&self, other: &ValueSet) -> (r: ValueSet)
        ensures
            r@ == self@.difference(other@),
    {
        let r = self.select(0, u64::MAX, Some(other));
        assert(r@ =~= self@.difference(other@));
        r
    }

    /// The elements at least `low`, in ascending order.
    pub fn at_least(&self, low: u64) -> (r: Vec<u64>)
        ensures
            strictly_increasing(r@),
            r@.to_set() == self@.filter(|x: u64| x >= low),
    {
        let s = self.select(low, u64::MAX, None);
        proof {
            use_type_invariant(&s);
        }
        assert(s@ =~= self@.filter(|x: u64| x >= low));
        s.elems
    }

    /// The elements from `low` to `high`, both included.
    pub fn between(&self, low: u64, high: u64) -> (r: ValueSet)
        ensures
            r@ == self@.filter(|x: u64| low <= x <= high),
    {
        let r = self.select(low, high, None);
        assert(r@ =~= self@.filter(|x: u64| low <= x <= high));
        r
    }

    /// The set of the given values, in whatever order and repetition.
    pub fn from_values(values: &Vec<u64>) -> (r: ValueSet)
        ensures
            r@ == values@.to_set(),
    {
        let mut r = ValueSet::new();
        let mut i: usize = 0;
        while i < values.len()
            invariant
                i <= values@.len(),
                    r@ == values@.subrange(0, i as int).to_set(),
            decreases values@.len() - i,
        {
            r.insert(values[i]);
            proof {
                let s = values@;
                lemma_prefix_push(s, i as int);
                assert(r@ =~= s.subrange(0, i + 1).to_set());
            }
            i = i + 1;
        }
        assert(values@.subrange(0, values@.len() as int) =~= values@);
        r
    }
}

} // verus!
