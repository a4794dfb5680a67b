use std::collections::{HashMap, HashSet};
use std::hash::Hash;
use vstd::prelude::*;
use vstd::std_specs::hash::obeys_key_model;

use crate::arena::Key;
use crate::ordered::strategy::{
    weight_le, Domain, IntersectBy, Length, Retain, Singleton, Strategy, StrategyItem,
    StrategyWeight,
};
use crate::set::bitset::BitSet;
use crate::{Intersect, SetOps};

verus! {

/// A strategy held as a map from values to their weights.
#[derive(Debug)]
pub struct HashMapStrategy<T>(HashMap<T, StrategyWeight>);

impl<T> View for HashMapStrategy<T> {
    type V = Map<T, StrategyWeight>;

    /// The weight of each value in the strategy.
    closed spec fn view(&self) -> Map<T, StrategyWeight> {
        self.0@
    }
}

/// The map `m` after inserting the items in order; a later item overrides the weight of an
/// earlier one for the same value.
pub open spec fn extend_map<T>(m: Map<T, StrategyWeight>, items: Seq<StrategyItem<T>>) -> Map<T, StrategyWeight>
    decreases items.len(),
{
    if items.len() == 0 {
        m
    } else {
        extend_map(m, items.drop_last()).insert(items.last().1, items.last().0)
    }
}

/// `es` lists every entry of `m` once.
pub open spec fn lists_entries<T>(m: Map<T, StrategyWeight>, es: Seq<(T, StrategyWeight)>) -> bool {
    &&& es.len() == m.dom().len()
    &&& forall|i: int| #![trigger es[i]] 0 <= i < es.len() ==> m.contains_key(es[i].0) && m[es[i].0] == es[i].1
    &&& forall|k: T| #![trigger m.contains_key(k)] m.contains_key(k) ==> es.contains((k, m[k]))
}

/// `kept` agrees with a possible answer of the predicate `f` on the item.
pub open spec fn kept_by<T, F: Fn(&StrategyItem<T>) -> bool>(f: F, item: StrategyItem<T>, kept: bool) -> bool {
    call_ensures(f, (&item,), kept)
}

/// The value `v` has a weight no item of `m` comes before.
pub open spec fn is_min_of<T>(m: Map<T, StrategyWeight>, v: T) -> bool {
    &&& m.contains_key(v)
    &&& forall|u: T| #[trigger] m.contains_key(u) ==> weight_le(m[v], m[u])
}

/// Extracting twice gives weights in increasing order: the value extracted second weighs no less
/// than the one extracted first.
pub proof fn lemma_extract_in_order<T>(m: Map<T, StrategyWeight>, first: T, second: T)
    requires
        is_min_of(m, first),
        is_min_of(m.remove(first), second),
    ensures
        weight_le(m[first], m[second]),
        m.contains_key(second),
{
    assert(m.remove(first).contains_key(second));
}

/// The values that the items weigh.
pub open spec fn item_values<T>(items: Seq<StrategyItem<T>>) -> Set<T> {
    Set::new(|v: T| exists|i: int| 0 <= i < items.len() && (#[trigger] items[i]).1 == v)
}

/// Inserting items that agree with `m` gives `m` on the values of the items.
proof fn lemma_extend_agreeing<T>(m: Map<T, StrategyWeight>, items: Seq<StrategyItem<T>>)
    requires
        forall|i: int| 0 <= i < items.len() ==> m.contains_key((#[trigger] items[i]).1) && m[items[i].1] == items[i].0,
    ensures
        extend_map(Map::empty(), items) == m.restrict(item_values(items)),
    decreases items.len(),
{
    if items.len() > 0 {
        let init = items.drop_last();
        assert forall|i: int| 0 <= i < init.len() implies m.contains_key((#[trigger] init[i]).1) && m[init[i].1]
            == init[i].0 by {
            assert(init[i] == items[i]);
        }
        lemma_extend_agreeing(m, init);
        assert forall|v: T| #[trigger] item_values(items).contains(v) <==> item_values(init).contains(v) || v
            == items.last().1 by {
            if item_values(items).contains(v) {
                let i = choose|i: int| 0 <= i < items.len() && (#[trigger] items[i]).1 == v;
                if i < items.len() - 1 {
                    assert(init[i] == items[i]);
                }
            }
            if item_values(init).contains(v) {
                let i = choose|i: int| 0 <= i < init.len() && (#[trigger] init[i]).1 == v;
                assert(init[i] == items[i]);
            }
            if v == items.last().1 {
                assert(items[items.len() - 1].1 == v);
            }
        }
        assert(extend_map(Map::empty(), items) =~= m.restrict(item_values(items)));
    } else {
        assert(extend_map(Map::empty(), items) =~= m.restrict(item_values(items)));
    }
}

/// Building a strategy from the items that `iter` lists gives the strategy back: items that hold
/// each value of `m` with its weight, and no other, make `m` again.
pub proof fn lemma_items_round_trip<T>(m: Map<T, StrategyWeight>, items: Seq<StrategyItem<T>>)
    requires
        forall|i: int| 0 <= i < items.len() ==> m.contains_key((#[trigger] items[i]).1) && m[items[i].1] == items[i].0,
        forall|k: T| #[trigger] m.contains_key(k) ==> items.contains(StrategyItem(m[k], k)),
    ensures
        extend_map(Map::empty(), items) == m,
{
    lemma_extend_agreeing(m, items);
    assert forall|k: T| #[trigger] m.contains_key(k) implies item_values(items).contains(k) by {
        let i = choose|i: int| 0 <= i < items.len() && items[i] == StrategyItem(m[k], k);
        assert(items[i].1 == k);
    }
    assert(m.restrict(item_values(items)) =~= m);
}

impl<T> HashMapStrategy<T> {
    pub fn new() -> (r: Self)
        ensures
            r@ == Map::<T, StrategyWeight>::empty(),
    {
        HashMapStrategy(HashMap::new())
    }
}

impl<T> Default for HashMapStrategy<T> {
    fn default() -> (r: Self)
        ensures
            r@ == Map::<T, StrategyWeight>::empty(),
    {
        HashMapStrategy(HashMap::new())
    }
}

impl<T: Key + Eq + Hash> HashMapStrategy<T> {
    /// Every entry of the map once, in the order the map holds them.
    pub fn entries(&self) -> (r: Vec<(T, StrategyWeight)>)
        ensures
            lists_entries(self@, r@),
    {
        proof {
            T::lemma_key_model();
            broadcast use vstd::std_specs::hash::group_hash_axioms;
        }
        let mut r: Vec<(T, StrategyWeight)> = Vec::new();
        for e in it: self.0.iter()
            invariant
                r@.len() == it.index(),
                forall|i: int| 0 <= i < it.index() ==> #[trigger] r@[i] == (*it.seq()[i].0, *it.seq()[i].1),
                forall|k: T| #[trigger] self@.contains_key(k) ==> r@.contains((k, self@[k])) || exists|i: int|
                    it.index() <= i < it.seq().len() && #[trigger] it.seq()[i] == (&k, &self@[k]),
        {
            let (k, w) = e;
            let ghost prev = r@;
            r.push((*k, *w));
            proof {
                assert forall|k2: T| #[trigger] self@.contains_key(k2) && prev.contains((k2, self@[k2])) implies r@.contains((k2, self@[k2])) by {
                    let j = choose|j: int| 0 <= j < prev.len() && prev[j] == (k2, self@[k2]);
                    assert(r@[j] == prev[j]);
                }
                assert(r@[r@.len() - 1] == (*k, *w));
            }
        }
        proof {
            broadcast use vstd::std_specs::hash::group_hash_axioms;
        }
        r
    }

    /// Every value with its weight.
    pub fn iter(&self) -> (r: Vec<StrategyItem<T>>)
        ensures
            r@.len() == self@.dom().len(),
            forall|i: int| 0 <= i < r@.len() ==> self@.contains_key((#[trigger] r@[i]).1) && self@[r@[i].1] == r@[i].0,
            forall|k: T| #[trigger] self@.contains_key(k) ==> r@.contains(StrategyItem(self@[k], k)),
    {
        let es = self.entries();
        let mut r: Vec<StrategyItem<T>> = Vec::new();
        let mut j: usize = 0;
        while j < es.len()
            invariant
                0 <= j <= es@.len(),
                r@.len() == j,
                forall|i: int| 0 <= i < j ==> #[trigger] r@[i] == StrategyItem(es@[i].1, es@[i].0),
            decreases es@.len() - j,
        {
            let (v, w) = es[j];
            r.push(StrategyItem(w, v));
            j = j + 1;
        }
        proof {
            assert forall|k: T| #[trigger] self@.contains_key(k) implies r@.contains(StrategyItem(self@[k], k)) by {
                assert(es@.contains((k, self@[k])));
                let i = choose|i: int| 0 <= i < es@.len() && es@[i] == (k, self@[k]);
                assert(r@[i] == StrategyItem(self@[k], k));
            }
        }
        r
    }

    /// Set the weight of a value, returning its previous weight.
    pub fn insert(&mut self, value: T, weight: StrategyWeight) -> (r: Option<StrategyWeight>)
        ensures
            final(self)@ == old(self)@.insert(value, weight),
            r == if old(self)@.contains_key(value) { Some(old(self)@[value]) } else { None },
    {
        proof {
            T::lemma_key_model();
            broadcast use vstd::std_specs::hash::group_hash_axioms;
        }
        self.0.insert(value, weight)
    }

    /// The weight of a value, if it is in the strategy.
    pub fn get(&self, value: &T) -> (r: Option<StrategyWeight>)
        ensures
            r == if self@.contains_key(*value) { Some(self@[*value]) } else { None },
    {
        proof {
            T::lemma_key_model();
            broadcast use vstd::std_specs::hash::group_hash_axioms;
        }
        match self.0.get(value) {
            Some(w) => Some(*w),
            None => None,
        }
    }

    /// Remove a value, returning its weight.
    pub fn remove(&mut self, value: &T) -> (r: Option<StrategyWeight>)
        ensures
            final(self)@ == old(self)@.remove(*value),
            r == if old(self)@.contains_key(*value) { Some(old(self)@[*value]) } else { None },
    {
        proof {
            T::lemma_key_model();
            broadcast use vstd::std_specs::hash::group_hash_axioms;
        }
        self.0.remove(value)
    }

    /// The number of values in the strategy.
    pub fn len(&self) -> (r: usize)
        ensures
            r == self@.dom().len(),
    {
        proof {
            T::lemma_key_model();
            broadcast use vstd::std_specs::hash::group_hash_axioms;
        }
        self.0.len()
    }

    /// Insert the items in order; a later item overrides the weight of an earlier one.
    pub fn extend_items(&mut self, items: Vec<StrategyItem<T>>)
        ensures
            final(self)@ == extend_map(old(self)@, items@),
    {
        let mut j: usize = 0;
        while j < items.len()
            invariant
                0 <= j <= items@.len(),
                self@ == extend_map(old(self)@, items@.subrange(0, j as int)),
            decreases items@.len() - j,
        {
            let StrategyItem(w, v) = items[j];
            self.insert(v, w);
            proof {
                assert(items@.subrange(0, j + 1).drop_last() =~= items@.subrange(0, j as int));
            }
            j = j + 1;
        }
        proof {
            assert(items@.subrange(0, items@.len() as int) =~= items@);
        }
    }

    /// The strategy of the given items; a later item overrides the weight of an earlier one.
    pub fn from_items(items: Vec<StrategyItem<T>>) -> (r: Self)
        ensures
            r@ == extend_map(Map::empty(), items@),
    {
        let mut s = Self::new();
        s.extend_items(items);
        s
    }

    /// A copy of the strategy.
    pub fn duplicate(&self) -> (r: Self)
        ensures
            r@ == self@,
    {
        HashMapStrategy(self.0.clone())
    }
}

impl<T: Key + Eq + Hash> Clone for HashMapStrategy<T> {
    fn clone(&self) -> (r: Self)
        ensures
            r@ == self@,
    {
        self.duplicate()
    }
}

impl<T: Key + Eq + Hash> Strategy<T> for HashMapStrategy<T> {
    /// Remove a value of the lowest weight, the first such in the map's order.
    fn extract_min(&mut self) -> (r: Option<T>)
        ensures
            r.is_none() == (old(self)@.dom().len() == 0),
            r.is_none() ==> final(self)@ == old(self)@,
            r.is_some() ==> is_min_of(old(self)@, r.unwrap()),
            r.is_some() ==> final(self)@ == old(self)@.remove(r.unwrap()),
    {
        let es = self.entries();
        if es.len() == 0 {
            return None;
        }
        let mut best: usize = 0;
        let mut j: usize = 1;
        while j < es.len()
            invariant
                0 < j <= es@.len(),
                best < j,
                forall|i: int| 0 <= i < j ==> weight_le(es@[best as int].1, #[trigger] es@[i].1),
            decreases es@.len() - j,
        {
            if es[j].1.lt(&es[best].1) {
                best = j;
            }
            j = j + 1;
        }
        let key = es[best].0;
        proof {
            assert forall|u: T| #[trigger] self@.contains_key(u) implies weight_le(self@[key], self@[u]) by {
                assert(es@.contains((u, self@[u])));
                let i = choose|i: int| 0 <= i < es@.len() && es@[i] == (u, self@[u]);
                assert(weight_le(es@[best as int].1, es@[i].1));
            }
        }
        self.remove(&key);
        Some(key)
    }
}

impl<T: Key + Eq + Hash> Intersect<HashSet<T>> for HashMapStrategy<T> {
    /// Keep the values that are in `other`.
    fn intersect(self, other: &HashSet<T>) -> (r: Self)
        ensures
            r@ == self@.restrict(other@),
    {
        proof {
            T::lemma_key_model();
            broadcast use vstd::std_specs::hash::group_hash_axioms;
        }
        let mut s = self;
        let es = s.entries();
        let ghost start = s@;
        let mut j: usize = 0;
        while j < es.len()
            invariant
                0 <= j <= es@.len(),
                obeys_key_model::<T>(),
                lists_entries(start, es@),
                forall|k: T| #[trigger] s@.contains_key(k) ==> start.contains_key(k) && s@[k] == start[k],
                forall|k: T| #[trigger] start.contains_key(k) ==> (s@.contains_key(k) <==> (other@.contains(k)
                    || !es@.subrange(0, j as int).contains((k, start[k])))),
            decreases es@.len() - j,
        {
            let (v, _) = es[j];
            proof {
                broadcast use vstd::std_specs::hash::group_hash_axioms;
            }
            if !other.contains(&v) {
                s.remove(&v);
            }
            proof {
                assert forall|k: T| #[trigger] start.contains_key(k) implies (s@.contains_key(k) <==> (other@.contains(k)
                    || !es@.subrange(0, j + 1).contains((k, start[k])))) by {
                    let sub = es@.subrange(0, j as int);
                    assert(es@.subrange(0, j + 1) =~= sub.push(es@[j as int]));
                    vstd::seq_lib::lemma_seq_contains_after_push(sub, es@[j as int], (k, start[k]));
                }
            }
            j = j + 1;
        }
        proof {
            assert(es@.subrange(0, es@.len() as int) =~= es@);
            assert(s@ =~= start.restrict(other@));
        }
        s
    }
}

impl<T: Key + Eq + Hash> IntersectBy<T, HashMapStrategy<T>> for HashMapStrategy<T> {
    /// Keep the values that are in both strategies, weighted by `f` of their two weights.
    fn intersect_by<F: Fn(StrategyWeight, StrategyWeight) -> StrategyWeight>(self, other: &Self, f: F) -> (r: Self)
        ensures
            r@.dom() == self@.dom().intersect(other@.dom()),
            forall|k: T| #[trigger] r@.contains_key(k) ==> call_ensures(f, (self@[k], other@[k]), r@[k]),
    {
        let es = self.entries();
        let mut s = Self::new();
        let mut j: usize = 0;
        while j < es.len()
            invariant
                0 <= j <= es@.len(),
                forall|a: StrategyWeight, b: StrategyWeight| call_requires(f, (a, b)),
                lists_entries(self@, es@),
                forall|k: T| #[trigger] s@.contains_key(k) <==> (self@.contains_key(k) && other@.contains_key(k)
                    && es@.subrange(0, j as int).contains((k, self@[k]))),
                forall|k: T| #[trigger] s@.contains_key(k) ==> call_ensures(f, (self@[k], other@[k]), s@[k]),
            decreases es@.len() - j,
        {
            let (v, w) = es[j];
            match other.get(&v) {
                Some(w_other) => {
                    let nw = f(w, w_other);
                    s.insert(v, nw);
                },
                None => {},
            }
            proof {
                assert forall|k: T| #[trigger] s@.contains_key(k) <==> (self@.contains_key(k) && other@.contains_key(k)
                    && es@.subrange(0, j + 1).contains((k, self@[k]))) by {
                    let sub = es@.subrange(0, j as int);
                    assert(es@.subrange(0, j + 1) =~= sub.push(es@[j as int]));
                    vstd::seq_lib::lemma_seq_contains_after_push(sub, es@[j as int], (k, self@[k]));
                }
            }
            j = j + 1;
        }
        proof {
            assert(es@.subrange(0, es@.len() as int) =~= es@);
            assert(s@.dom() =~= self@.dom().intersect(other@.dom()));
        }
        s
    }
}

impl<T: Key + Eq + Hash> Domain<T, BitSet<T>> for HashMapStrategy<T> {
    /// The indices of the values in the strategy.
    open spec fn domain_accepted(&self) -> bool {
        forall|k: T| #[trigger] self@.contains_key(k) ==> k.key_index() < usize::MAX
    }

    /// The indices of the values in the strategy.
    fn domain(self) -> (r: BitSet<T>)
        ensures
            forall|i: usize| #[trigger] r@.contains(i) <==> exists|k: T| self@.contains_key(k) && k.key_index() == i,
    {
        let es = self.entries();
        let mut r = BitSet::new();
        let mut j: usize = 0;
        while j < es.len()
            invariant
                0 <= j <= es@.len(),
                lists_entries(self@, es@),
                self.domain_accepted(),
                forall|i: int| 0 <= i < j ==> r@.contains(#[trigger] es@[i].0.key_index()),
                forall|i: usize| #[trigger] r@.contains(i) ==> exists|k: T| self@.contains_key(k) && k.key_index() == i,
            decreases es@.len() - j,
        {
            let v = es[j].0;
            proof {
                assert(self@.contains_key(es@[j as int].0));
            }
            r.insert(v);
            j = j + 1;
        }
        proof {
            assert forall|i: usize| (exists|k: T| self@.contains_key(k) && k.key_index() == i) implies #[trigger] r@.contains(i) by {
                let k = choose|k: T| self@.contains_key(k) && k.key_index() == i;
                assert(es@.contains((k, self@[k])));
                let n = choose|n: int| 0 <= n < es@.len() && es@[n] == (k, self@[k]);
                assert(r@.contains(es@[n].0.key_index()));
            }
        }
        r
    }
}

impl<T: Key + Eq + Hash> Singleton<T> for HashMapStrategy<T> {
    fn singleton(x: T) -> (r: Self)
        ensures
            r@ == Map::<T, StrategyWeight>::empty().insert(x, StrategyWeight::Infinity),
    {
        let mut s = Self::new();
        s.insert(x, StrategyWeight::Infinity);
        s
    }
}

impl<T: Key + Eq + Hash> Length for HashMapStrategy<T> {
    fn length(&self) -> (r: usize)
        ensures
            r == self@.dom().len(),
    {
        self.len()
    }
}

impl<T: Key + Eq + Hash> Retain<T> for HashMapStrategy<T> {
    /// Keep the items for which `f` holds.
    fn retain<F: Fn(&StrategyItem<T>) -> bool>(&mut self, f: F)
        ensures
            final(self)@.dom().subset_of(old(self)@.dom()),
            forall|k: T| #[trigger] final(self)@.contains_key(k) ==> final(self)@[k] == old(self)@[k],
            forall|k: T| #[trigger] old(self)@.contains_key(k) ==> kept_by(f, StrategyItem(old(self)@[k], k),
                final(self)@.contains_key(k)),
    {
        let es = self.entries();
        let ghost start = self@;
        let mut j: usize = 0;
        while j < es.len()
            invariant
                0 <= j <= es@.len(),
                forall|x: StrategyItem<T>| call_requires(f, (&x,)),
                lists_entries(start, es@),
                forall|k: T| #[trigger] self@.contains_key(k) ==> start.contains_key(k) && self@[k] == start[k],
                forall|k: T| #[trigger] start.contains_key(k) ==> if es@.subrange(0, j as int).contains((k, start[k])) {
                    kept_by(f, StrategyItem(start[k], k), self@.contains_key(k))
                } else {
                    self@.contains_key(k)
                },
            decreases es@.len() - j,
        {
            let (v, w) = es[j];
            let keep = f(&StrategyItem(w, v));
            if !keep {
                self.remove(&v);
            }
            proof {
                assert forall|k: T| #[trigger] start.contains_key(k) implies if es@.subrange(0, j + 1).contains((k, start[k])) {
                    kept_by(f, StrategyItem(start[k], k), self@.contains_key(k))
                } else {
                    self@.contains_key(k)
                } by {
                    let sub = es@.subrange(0, j as int);
                    assert(es@.subrange(0, j + 1) =~= sub.push(es@[j as int]));
                    vstd::seq_lib::lemma_seq_contains_after_push(sub, es@[j as int], (k, start[k]));
                }
            }
            j = j + 1;
        }
        proof {
            assert(es@.subrange(0, es@.len() as int) =~= es@);
        }
    }
}

} // verus!
