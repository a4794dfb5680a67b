//! A strategy that builds its heap only when its lightest value is extracted.
use std::collections::HashSet;
use std::hash::Hash;
use vstd::prelude::*;

use crate::arena::Key;
use crate::ordered::strategy::binary_heap::BinaryHeapStrategy;
use crate::ordered::strategy::hashmap::{extend_map, kept_by, HashMapStrategy};
use crate::ordered::strategy::{
    weight_le, Domain, IntersectBy, Length, Retain, Singleton, Strategy, StrategyItem, StrategyWeight,
};
use crate::set::bitset::BitSet;
use crate::{CopiedIter, Intersect, Union};

verus! {

/// A strategy that holds the weight of each value and builds a heap of them only when the
/// lightest value is extracted. Extracting takes the value from the heap and from the weights; any
/// other change of the weights drops the heap, to be built anew.
pub struct LazyHeap<T, H> {
    items: HashMapStrategy<T>,
    heap: Option<H>,
}

/// `heap` holds each entry of `items` once, as a weighted value.
pub open spec fn heaps_items<T>(items: Map<T, StrategyWeight>, heap: Seq<(StrategyWeight, T)>) -> bool {
    &&& heap.len() == items.dom().len()
    &&& forall|i: int| 0 <= i < heap.len() ==> items.contains_key(#[trigger] heap[i].1) && items[heap[i].1] == heap[i].0
    &&& forall|k: T| #[trigger] items.contains_key(k) ==> heap.contains((items[k], k))
}

/// `after` is `before` without an item of the lowest weight, whose value is `v`.
pub open spec fn extracted<T>(before: Seq<(StrategyWeight, T)>, v: T, after: Seq<(StrategyWeight, T)>) -> bool {
    exists|i: int|
        {
            &&& 0 <= i < before.len()
            &&& before[i].1 == v
            &&& forall|k: int| 0 <= k < before.len() ==> weight_le(before[i].0, #[trigger] before[k].0)
            &&& after == before.remove(i)
        }
}

impl<T: Key + Eq + Hash> LazyHeap<T, BinaryHeapStrategy<T>> {
    /// The weight of each value.
    pub closed spec fn items(self) -> Map<T, StrategyWeight> {
        self.items@
    }

    /// The heap, where it has been built.
    pub closed spec fn heap(self) -> Option<Seq<(StrategyWeight, T)>> {
        match self.heap {
            Some(h) => Some(h@),
            None => None,
        }
    }

    pub fn new() -> (r: Self)
        ensures
            r.items() == Map::<T, StrategyWeight>::empty(),
            r.heap() is None,
    {
        LazyHeap { items: HashMapStrategy::new(), heap: None }
    }

    /// Every value with its weight.
    pub fn iter(&self) -> (r: Vec<StrategyItem<T>>)
        ensures
            r@.len() == self.items().dom().len(),
            forall|i: int| 0 <= i < r@.len() ==> self.items().contains_key((#[trigger] r@[i]).1) && self.items()[r@[i].1] == r@[i].0,
            forall|k: T| #[trigger] self.items().contains_key(k) ==> r@.contains(StrategyItem(self.items()[k], k)),
    {
        self.items.iter()
    }

    /// The weight of a value, if it has one.
    pub fn get_weight(&self, item: T) -> (r: Option<StrategyWeight>)
        ensures
            r == if self.items().contains_key(item) { Some(self.items()[item]) } else { None },
    {
        self.items.get(&item)
    }

    /// The strategy of the given items; a later item overrides the weight of an earlier one.
    pub fn from_items(items: Vec<StrategyItem<T>>) -> (r: Self)
        ensures
            r.items() == extend_map(Map::empty(), items@),
            r.heap() is None,
    {
        LazyHeap { items: HashMapStrategy::from_items(items), heap: None }
    }

    /// Insert the items in order; a later item overrides the weight of an earlier one.
    pub fn extend_items(&mut self, items: Vec<StrategyItem<T>>)
        ensures
            final(self).items() == extend_map(old(self).items(), items@),
            final(self).heap() is None,
    {
        self.heap = None;
        self.items.extend_items(items);
    }

    /// Give every value the weight `Infinity`.
    pub fn reset_weights(&mut self)
        ensures
            final(self).items().dom() == old(self).items().dom(),
            forall|k: T| #[trigger] final(self).items().contains_key(k) ==> final(self).items()[k] == StrategyWeight::Infinity,
            final(self).heap() is None,
    {
        self.heap = None;
        let values = self.items.iter();
        let ghost start = self.items@;
        let mut j: usize = 0;
        while j < values.len()
            invariant
                0 <= j <= values@.len(),
                values@.len() == start.dom().len(),
                forall|i: int| 0 <= i < values@.len() ==> #[trigger] start.contains_key(values@[i].1),
                forall|k: T| #[trigger] start.contains_key(k) ==> values@.contains(StrategyItem(start[k], k)),
                self.items@.dom() == start.dom(),
                forall|k: T| #[trigger] self.items@.contains_key(k) ==> self.items@[k] == StrategyWeight::Infinity || (
                self.items@[k] == start[k] && !values@.subrange(0, j as int).contains(StrategyItem(start[k], k))),
                self.heap is None,
            decreases values@.len() - j,
        {
            let v = values[j].1;
            self.items.insert(v, StrategyWeight::Infinity);
            proof {
                assert(self.items@.dom() =~= start.dom());
                assert forall|k: T| #[trigger] self.items@.contains_key(k) implies self.items@[k] == StrategyWeight::Infinity || (
                self.items@[k] == start[k] && !values@.subrange(0, j + 1).contains(StrategyItem(start[k], k))) by {
                    let sub = values@.subrange(0, j as int);
                    assert(values@.subrange(0, j + 1) =~= sub.push(values@[j as int]));
                    vstd::seq_lib::lemma_seq_contains_after_push(sub, values@[j as int], StrategyItem(start[k], k));
                }
            }
            j = j + 1;
        }
        proof {
            assert(values@.subrange(0, values@.len() as int) =~= values@);
        }
    }

    /// Join `other` into `self`: a value in both gets `f` of its two weights; any other keeps the
    /// weight it has.
    pub fn union_with_by<F: Fn(StrategyWeight, StrategyWeight) -> StrategyWeight>(&mut self, other: Self, f: F)
        requires
            forall|a: StrategyWeight, b: StrategyWeight| call_requires(f, (a, b)),
        ensures
            final(self).items().dom() == old(self).items().dom().union(other.items().dom()),
            forall|k: T| #[trigger] final(self).items().contains_key(k) ==> if old(self).items().contains_key(k)
                && other.items().contains_key(k) {
                call_ensures(f, (old(self).items()[k], other.items()[k]), final(self).items()[k])
            } else if old(self).items().contains_key(k) {
                final(self).items()[k] == old(self).items()[k]
            } else {
                final(self).items()[k] == other.items()[k]
            },
            final(self).heap() is None,
    {
        self.heap = None;
        let theirs = other.items.iter();
        let snapshot = self.items.duplicate();
        let ghost mine = self.items@;
        let ghost them = other.items@;
        assert(forall|i: int| 0 <= i < theirs@.len() ==> #[trigger] them.contains_key(theirs@[i].1));
        assert forall|i: int| 0 <= i < theirs@.len() implies them.contains_key((#[trigger] theirs@[i]).1) && them[theirs@[i].1] == theirs@[i].0 by {
            assert(other.items@.contains_key(theirs@[i].1));
            assert(other.items@[theirs@[i].1] == theirs@[i].0);
        }
        let mut j: usize = 0;
        while j < theirs.len()
            invariant
                0 <= j <= theirs@.len(),
                forall|a: StrategyWeight, b: StrategyWeight| call_requires(f, (a, b)),
                snapshot@ == mine,
                theirs@.len() == them.dom().len(),
                forall|i: int| 0 <= i < theirs@.len() ==> them.contains_key((#[trigger] theirs@[i]).1) && them[theirs@[i].1] == theirs@[i].0,
                forall|k: T| #[trigger] them.contains_key(k) ==> theirs@.contains(StrategyItem(them[k], k)),
                self.heap is None,
                forall|k: T| #[trigger] self.items@.contains_key(k) <==> mine.contains_key(k) || theirs@.subrange(0, j as int).contains(
                    StrategyItem(them[k], k),
                ),
                forall|k: T| #[trigger] self.items@.contains_key(k) ==> if !theirs@.subrange(0, j as int).contains(StrategyItem(them[k], k)) {
                    self.items@[k] == mine[k]
                } else if mine.contains_key(k) {
                    call_ensures(f, (mine[k], them[k]), self.items@[k])
                } else {
                    self.items@[k] == them[k]
                },
            decreases theirs@.len() - j,
        {
            let item = theirs[j];
            let w = item.0;
            let v = item.1;
            let ghost sub = theirs@.subrange(0, j as int);
            proof {
                assert(item == theirs@[j as int]);
                assert(them.contains_key(theirs@[j as int].1));
                assert(them.contains_key(v) && them[v] == w);
                assert(theirs@[j as int] == StrategyItem(them[v], v));
            }
            match snapshot.get(&v) {
                Some(mine_w) => {
                    let nw = f(mine_w, w);
                    self.items.insert(v, nw);
                },
                None => {
                    self.items.insert(v, w);
                },
            }
            proof {
                assert(theirs@.subrange(0, j + 1) =~= sub.push(theirs@[j as int]));
                assert forall|k: T| #[trigger] self.items@.contains_key(k) <==> mine.contains_key(k) || theirs@.subrange(
                    0,
                    j + 1,
                ).contains(StrategyItem(them[k], k)) by {
                    vstd::seq_lib::lemma_seq_contains_after_push(sub, theirs@[j as int], StrategyItem(them[k], k));
                }
                assert forall|k: T| #[trigger] self.items@.contains_key(k) implies if !theirs@.subrange(0, j + 1).contains(
                    StrategyItem(them[k], k),
                ) {
                    self.items@[k] == mine[k]
                } else if mine.contains_key(k) {
                    call_ensures(f, (mine[k], them[k]), self.items@[k])
                } else {
                    self.items@[k] == them[k]
                } by {
                    vstd::seq_lib::lemma_seq_contains_after_push(sub, theirs@[j as int], StrategyItem(them[k], k));
                }
            }
            j = j + 1;
        }
        proof {
            assert(theirs@.subrange(0, theirs@.len() as int) =~= theirs@);
            assert forall|k: T| theirs@.contains(StrategyItem(them[k], k)) <==> #[trigger] them.contains_key(k) by {
                if theirs@.contains(StrategyItem(them[k], k)) {
                    let i = choose|i: int| 0 <= i < theirs@.len() && theirs@[i] == StrategyItem(them[k], k);
                    assert(them.contains_key(theirs@[i].1));
                }
            }
            assert(self.items@.dom() =~= mine.dom().union(them.dom()));
        }
    }
}

/// `after` is what extracting from `before` leaves, and `r` what it gives: nothing from an empty
/// heap, else a value of the lowest weight.
pub open spec fn extracts<T>(before: Seq<(StrategyWeight, T)>, r: Option<T>, after: Seq<(StrategyWeight, T)>) -> bool {
    match r {
        None => before.len() == 0 && after == before,
        Some(v) => extracted(before, v, after),
    }
}

impl<T: Key + Eq + Hash> Strategy<T> for LazyHeap<T, BinaryHeapStrategy<T>> {
    /// Build the heap of the weights where it is not built, and extract from it a value of the
    /// lowest weight; the value leaves the strategy. `None` when nothing is left.
    fn extract_min(&mut self) -> (r: Option<T>)
        ensures
            r matches Some(v) ==> final(self).items() == old(self).items().remove(v),
            r is None ==> final(self).items() == old(self).items(),
            final(self).heap() is Some,
            old(self).heap() is Some ==> extracts(old(self).heap().unwrap(), r, final(self).heap().unwrap()),
            old(self).heap() is None ==> exists|built: Seq<(StrategyWeight, T)>|
                heaps_items(old(self).items(), built) && #[trigger] extracts(built, r, final(self).heap().unwrap()),
    {
        let mut h = match self.heap.take() {
            Some(h) => h,
            None => {
                let items = self.items.iter();
                let h = BinaryHeapStrategy::from_items(items);
                proof {
                    let m = self.items@;
                    assert forall|k: T| #[trigger] m.contains_key(k) implies h@.contains((m[k], k)) by {
                        assert(items@.contains(StrategyItem(m[k], k)));
                        let i = choose|i: int| 0 <= i < items@.len() && items@[i] == StrategyItem(m[k], k);
                        assert(h@[i] == (m[k], k));
                    }
                    assert(heaps_items(m, h@));
                }
                h
            },
        };
        let ghost before = h@;
        let r = h.extract_min();
        self.heap = Some(h);
        match r {
            Some(v) => {
                self.items.remove(&v);
            },
            None => {},
        }
        proof {
            assert(extracts(before, r, self.heap().unwrap()));
        }
        r
    }
}

impl<T: Key + Eq + Hash> Intersect<HashSet<T>> for LazyHeap<T, BinaryHeapStrategy<T>> {
    /// Keep the values that are in `other`.
    fn intersect(self, other: &HashSet<T>) -> (r: Self)
        ensures
            r.items() == self.items().restrict(other@),
            r.heap() is None,
    {
        LazyHeap { items: self.items.intersect(other), heap: None }
    }
}

impl<T: Key + Eq + Hash> IntersectBy<T, LazyHeap<T, BinaryHeapStrategy<T>>> for LazyHeap<T, BinaryHeapStrategy<T>> {
    /// Keep the values that are in both strategies, weighted by `f` of their two weights.
    fn intersect_by<F: Fn(StrategyWeight, StrategyWeight) -> StrategyWeight>(self, other: &Self, f: F) -> (r: Self)
        ensures
            r.items().dom() == self.items().dom().intersect(other.items().dom()),
            forall|k: T| #[trigger] r.items().contains_key(k) ==> call_ensures(f, (self.items()[k], other.items()[k]), r.items()[k]),
            r.heap() is None,
    {
        LazyHeap { items: self.items.intersect_by(&other.items, f), heap: None }
    }
}

impl<T: Key + Eq + Hash> Union for LazyHeap<T, BinaryHeapStrategy<T>> {
    /// The weights of both strategies; where both weigh a value, that of `other`.
    fn union(self, other: Self) -> (r: Self)
        ensures
            r.items() == self.items().union_prefer_right(other.items()),
            r.heap() is None,
    {
        let mut items = self.items;
        let theirs = other.items.iter();
        let ghost mine = items@;
        let ghost them = other.items@;
        assert forall|i: int| 0 <= i < theirs@.len() implies them.contains_key((#[trigger] theirs@[i]).1) && them[theirs@[i].1] == theirs@[i].0 by {
            assert(other.items@.contains_key(theirs@[i].1));
        }
        let mut j: usize = 0;
        while j < theirs.len()
            invariant
                0 <= j <= theirs@.len(),
                forall|i: int| 0 <= i < theirs@.len() ==> them.contains_key((#[trigger] theirs@[i]).1) && them[theirs@[i].1] == theirs@[i].0,
                forall|k: T| #[trigger] them.contains_key(k) ==> theirs@.contains(StrategyItem(them[k], k)),
                forall|k: T| #[trigger] items@.contains_key(k) <==> mine.contains_key(k) || theirs@.subrange(0, j as int).contains(
                    StrategyItem(them[k], k),
                ),
                forall|k: T| #[trigger] items@.contains_key(k) ==> if theirs@.subrange(0, j as int).contains(StrategyItem(them[k], k)) {
                    items@[k] == them[k]
                } else {
                    items@[k] == mine[k]
                },
            decreases theirs@.len() - j,
        {
            let item = theirs[j];
            let ghost sub = theirs@.subrange(0, j as int);
            proof {
                assert(item == theirs@[j as int]);
                assert(them.contains_key(theirs@[j as int].1));
            }
            items.insert(item.1, item.0);
            proof {
                assert(theirs@.subrange(0, j + 1) =~= sub.push(theirs@[j as int]));
                assert forall|k: T| #[trigger] items@.contains_key(k) <==> mine.contains_key(k) || theirs@.subrange(0, j + 1).contains(
                    StrategyItem(them[k], k),
                ) by {
                    vstd::seq_lib::lemma_seq_contains_after_push(sub, theirs@[j as int], StrategyItem(them[k], k));
                }
                assert forall|k: T| #[trigger] items@.contains_key(k) implies if theirs@.subrange(0, j + 1).contains(
                    StrategyItem(them[k], k),
                ) {
                    items@[k] == them[k]
                } else {
                    items@[k] == mine[k]
                } by {
                    vstd::seq_lib::lemma_seq_contains_after_push(sub, theirs@[j as int], StrategyItem(them[k], k));
                }
            }
            j = j + 1;
        }
        proof {
            assert(theirs@.subrange(0, theirs@.len() as int) =~= theirs@);
            assert forall|k: T| theirs@.contains(StrategyItem(them[k], k)) <==> #[trigger] them.contains_key(k) by {
                if theirs@.contains(StrategyItem(them[k], k)) {
                    let i = choose|i: int| 0 <= i < theirs@.len() && theirs@[i] == StrategyItem(them[k], k);
                    assert(them.contains_key(theirs@[i].1));
                }
            }
            assert(items@ =~= mine.union_prefer_right(them));
        }
        LazyHeap { items, heap: None }
    }
}

impl<T: Key + Eq + Hash> Singleton<T> for LazyHeap<T, BinaryHeapStrategy<T>> {
    fn singleton(x: T) -> (r: Self)
        ensures
            r.items() == Map::<T, StrategyWeight>::empty().insert(x, StrategyWeight::Infinity),
            r.heap() is None,
    {
        LazyHeap { items: HashMapStrategy::singleton(x), heap: None }
    }
}

impl<T: Key + Eq + Hash> Domain<T, BitSet<T>> for LazyHeap<T, BinaryHeapStrategy<T>> {
    open spec fn domain_accepted(&self) -> bool {
        forall|k: T| #[trigger] self.items().contains_key(k) ==> k.key_index() < usize::MAX
    }

    /// The indices of the values that have a weight.
    fn domain(self) -> (r: BitSet<T>)
        ensures
            forall|i: usize| #[trigger] r@.contains(i) <==> exists|k: T| self.items().contains_key(k) && k.key_index() == i,
    {
        proof {
            assert forall|k: T| #[trigger] self.items@.contains_key(k) implies k.key_index() < usize::MAX by {
                assert(self.items().contains_key(k));
            }
        }
        self.items.domain()
    }
}

impl<T: Key + Eq + Hash> Length for LazyHeap<T, BinaryHeapStrategy<T>> {
    /// The number of values that have a weight.
    fn length(&self) -> (r: usize)
        ensures
            r == self.items().dom().len(),
    {
        self.items.len()
    }
}

impl<T: Key + Eq + Hash> Retain<T> for LazyHeap<T, BinaryHeapStrategy<T>> {
    /// Keep the values whose item `f` holds of.
    fn retain<F: Fn(&StrategyItem<T>) -> bool>(&mut self, f: F)
        ensures
            final(self).items().dom().subset_of(old(self).items().dom()),
            forall|k: T| #[trigger] final(self).items().contains_key(k) ==> final(self).items()[k] == old(self).items()[k],
            forall|k: T| #[trigger] old(self).items().contains_key(k) ==> kept_by(f, StrategyItem(old(self).items()[k], k),
                final(self).items().contains_key(k)),
            final(self).heap() is None,
    {
        self.heap = None;
        self.items.retain(f);
    }
}

impl<T: Key + Eq + Hash> CopiedIter<StrategyItem<T>> for LazyHeap<T, BinaryHeapStrategy<T>> {
    /// Every value with its weight.
    fn copied_iter(&self) -> (r: Vec<StrategyItem<T>>)
        ensures
            r@.len() == self.items().dom().len(),
            forall|i: int| 0 <= i < r@.len() ==> self.items().contains_key((#[trigger] r@[i]).1) && self.items()[r@[i].1] == r@[i].0,
            forall|k: T| #[trigger] self.items().contains_key(k) ==> r@.contains(StrategyItem(self.items()[k], k)),
    {
        self.iter()
    }
}

} // verus!
