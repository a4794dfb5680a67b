use std::collections::{HashMap, HashSet};
use std::hash::Hash;
use vstd::prelude::*;

use crate::arena::Key;
use crate::ordered::strategy::{
    weight_le, Domain, IntersectBy, LeftSliced, Length, RightSliced, Singleton, SliceLeft, SliceRight, Strategy, StrategyItem,
    StrategyWeight,
};
use crate::set::bitset::BitSet;
use crate::{Intersect, SetOps};

verus! {

/// A strategy held as a list of weighted items; the item of lowest weight is found on extraction.
#[derive(Debug)]
pub struct BinaryHeapStrategy<T>(Vec<StrategyItem<T>>);

/// The weights and values of a list of items.
pub open spec fn item_pairs<T>(s: Seq<StrategyItem<T>>) -> Seq<(StrategyWeight, T)> {
    s.map_values(|i: StrategyItem<T>| (i.0, i.1))
}

impl<T> View for BinaryHeapStrategy<T> {
    type V = Seq<(StrategyWeight, T)>;

    /// The weighted values, in the order the strategy holds them.
    closed spec fn view(&self) -> Seq<(StrategyWeight, T)> {
        item_pairs(self.0@)
    }
}

/// The items whose value has its right component at index `right`, with that component dropped.
pub open spec fn keep_right<T, U: Key>(s: Seq<(StrategyWeight, (T, U))>, right: usize) -> Seq<(StrategyWeight, T)>
    decreases s.len(),
{
    if s.len() == 0 {
        Seq::empty()
    } else {
        let rest = keep_right(s.drop_last(), right);
        if s.last().1.1.key_index() == right {
            rest.push((s.last().0, s.last().1.0))
        } else {
            rest
        }
    }
}

/// The items whose value has its left component at index `left`, with that component dropped.
pub open spec fn keep_left<T: Key, U>(s: Seq<(StrategyWeight, (T, U))>, left: usize) -> Seq<(StrategyWeight, U)>
    decreases s.len(),
{
    if s.len() == 0 {
        Seq::empty()
    } else {
        let rest = keep_left(s.drop_last(), left);
        if s.last().1.0.key_index() == left {
            rest.push((s.last().0, s.last().1.1))
        } else {
            rest
        }
    }
}

/// The items whose value is in `set`.
pub open spec fn keep_in<T>(s: Seq<(StrategyWeight, T)>, set: Set<T>) -> Seq<(StrategyWeight, T)>
    decreases s.len(),
{
    if s.len() == 0 {
        Seq::empty()
    } else {
        let rest = keep_in(s.drop_last(), set);
        if set.contains(s.last().1) {
            rest.push(s.last())
        } else {
            rest
        }
    }
}

impl<T> BinaryHeapStrategy<T> {
    pub fn new() -> (r: Self)
        ensures
            r@ == Seq::<(StrategyWeight, T)>::empty(),
    {
        BinaryHeapStrategy(Vec::new())
    }

    /// Add an item.
    pub fn push(&mut self, item: StrategyItem<T>)
        ensures
            final(self)@ == old(self)@.push((item.0, item.1)),
    {
        self.0.push(item);
        proof {
            assert(item_pairs(self.0@) =~= item_pairs(old(self).0@).push((item.0, item.1)));
        }
    }

    /// Add the items in order.
    pub fn extend_items(&mut self, items: Vec<StrategyItem<T>>)
        ensures
            final(self)@ == old(self)@ + item_pairs(items@),
    {
        let mut items = items;
        let ghost all = items@;
        let mut rest: Vec<StrategyItem<T>> = Vec::new();
        while items.len() > 0
            invariant
                items@ + rest@.reverse() == all,
                self@ == old(self)@,
            decreases items@.len(),
        {
            let ghost before = items@;
            let item = items.pop().unwrap();
            let ghost prev_rest = rest@;
            rest.push(item);
            proof {
                assert(before == items@.push(item));
                assert(rest@.reverse() =~= seq![item] + prev_rest.reverse());
                assert(items@ + rest@.reverse() =~= before + prev_rest.reverse());
            }
        }
        proof {
            assert(items@ =~= Seq::<StrategyItem<T>>::empty());
            assert(rest@.reverse() =~= all);
        }
        let ghost start = self@;
        while rest.len() > 0
            invariant
                rest@.len() <= all.len(),
                rest@.reverse() == all.subrange(all.len() - rest@.len(), all.len() as int),
                self@ == start + item_pairs(all.take(all.len() - rest@.len())),
            decreases rest@.len(),
        {
            let ghost before = rest@;
            let ghost k = all.len() - before.len();
            let item = rest.pop().unwrap();
            proof {
                assert(before == rest@.push(item));
                assert(before.reverse() =~= seq![item] + rest@.reverse());
                assert(before.reverse()[0] == item);
                assert(all[k] == item);
                assert(all.subrange(k, all.len() as int).drop_first() =~= all.subrange(k + 1, all.len() as int));
                assert((seq![item] + rest@.reverse()).drop_first() =~= rest@.reverse());
                assert(rest@.reverse() =~= all.subrange(k + 1, all.len() as int));
            }
            self.push(item);
            proof {
                assert(all.take(k + 1) =~= all.take(k).push(item));
                assert(item_pairs(all.take(k + 1)) =~= item_pairs(all.take(k)).push((item.0, item.1)));
            }
        }
        proof {
            assert(all.take(all.len() as int) =~= all);
        }
    }

    /// The strategy of the given items.
    pub fn from_items(items: Vec<StrategyItem<T>>) -> (r: Self)
        ensures
            r@ == item_pairs(items@),
    {
        let r = BinaryHeapStrategy(items);
        r
    }
}

impl<T: Copy> BinaryHeapStrategy<T> {
    /// The items of the strategy, in the order it holds them.
    pub fn iter(&self) -> (r: Vec<StrategyItem<T>>)
        ensures
            item_pairs(r@) == self@,
    {
        let mut r: Vec<StrategyItem<T>> = Vec::new();
        let mut j: usize = 0;
        while j < self.0.len()
            invariant
                0 <= j <= self.0@.len(),
                item_pairs(r@) == item_pairs(self.0@).take(j as int),
            decreases self.0@.len() - j,
        {
            let item = self.0[j];
            let ghost old_r = r@;
            r.push(StrategyItem(item.0, item.1));
            proof {
                assert(item == self.0@[j as int]);
                assert(item_pairs(r@) =~= item_pairs(old_r).push((item.0, item.1)));
                assert(item_pairs(self.0@).take(j + 1) =~= item_pairs(self.0@).take(j as int).push((item.0, item.1)));
            }
            j = j + 1;
        }
        proof {
            assert(item_pairs(self.0@).take(self.0@.len() as int) =~= item_pairs(self.0@));
        }
        r
    }
}

impl<T: Copy> BinaryHeapStrategy<T> {
    /// A copy of the strategy.
    pub fn duplicate(&self) -> (r: Self)
        ensures
            r@ == self@,
    {
        BinaryHeapStrategy::from_items(self.iter())
    }
}

impl<T: Copy> Clone for BinaryHeapStrategy<T> {
    fn clone(&self) -> (r: Self)
        ensures
            r@ == self@,
    {
        self.duplicate()
    }
}

impl<T> Default for BinaryHeapStrategy<T> {
    fn default() -> (r: Self)
        ensures
            r@ == Seq::<(StrategyWeight, T)>::empty(),
    {
        BinaryHeapStrategy::new()
    }
}

impl<T: Copy> Strategy<T> for BinaryHeapStrategy<T> {
    /// Remove an item of the lowest weight, the first such in the list, and return its value.
    fn extract_min(&mut self) -> (r: Option<T>)
        ensures
            r.is_none() == (old(self)@.len() == 0),
            r.is_none() ==> final(self)@ == old(self)@,
            r.is_some() ==> exists|i: int|
                {
                    &&& 0 <= i < old(self)@.len()
                    &&& old(self)@[i].1 == r.unwrap()
                    &&& forall|k: int| 0 <= k < old(self)@.len() ==> weight_le(old(self)@[i].0, #[trigger] old(self)@[k].0)
                    &&& final(self)@ == old(self)@.remove(i)
                },
    {
        if self.0.len() == 0 {
            return None;
        }
        let ghost items = self@;
        let mut best: usize = 0;
        let mut j: usize = 1;
        while j < self.0.len()
            invariant
                0 < j <= self.0@.len(),
                best < j,
                items == self@,
                forall|k: int| 0 <= k < j ==> weight_le(self.0@[best as int].0, #[trigger] self.0@[k].0),
            decreases self.0@.len() - j,
        {
            if self.0[j].0.lt(&self.0[best].0) {
                best = j;
            }
            j = j + 1;
        }
        let item = self.0.remove(best);
        proof {
            assert(item_pairs(self.0@) =~= items.remove(best as int));
            assert forall|k: int| 0 <= k < items.len() implies weight_le(items[best as int].0, #[trigger] items[k].0) by {
                assert(items[k].0 == old(self).0@[k].0);
            }
        }
        Some(item.1)
    }
}

impl<T> BinaryHeapStrategy<T> {
    /// Set the weight of every item to infinity.
    pub fn reset_weights(&mut self)
        ensures
            final(self)@ == old(self)@.map_values(|p: (StrategyWeight, T)| (StrategyWeight::Infinity, p.1)),
    {
        let mut items: Vec<StrategyItem<T>> = Vec::new();
        std::mem::swap(&mut items, &mut self.0);
        let ghost all = item_pairs(items@);
        let mut rest: Vec<StrategyItem<T>> = Vec::new();
        while items.len() > 0
            invariant
                all.len() == items@.len() + rest@.len(),
                item_pairs(items@) == all.take(items@.len() as int),
                forall|i: int| 0 <= i < rest@.len() ==> (#[trigger] rest@[i]).0 == StrategyWeight::Infinity && rest@[i].1
                    == all[all.len() - 1 - i].1,
            decreases items@.len(),
        {
            let ghost before = items@;
            let item = items.pop().unwrap();
            proof {
                assert(before == items@.push(item));
                assert(item_pairs(before)[before.len() - 1] == (item.0, item.1));
                assert(all[before.len() - 1] == (item.0, item.1));
                assert(item_pairs(items@) =~= item_pairs(before).drop_last());
            }
            let ghost rest_before = rest@;
            rest.push(StrategyItem(StrategyWeight::Infinity, item.1));
            proof {
                assert forall|i: int| 0 <= i < rest@.len() implies (#[trigger] rest@[i]).0 == StrategyWeight::Infinity
                    && rest@[i].1 == all[all.len() - 1 - i].1 by {
                    if i < rest_before.len() {
                        assert(rest@[i] == rest_before[i]);
                    }
                }
            }
        }
        while rest.len() > 0
            invariant
                all.len() == self.0@.len() + rest@.len(),
                forall|i: int| 0 <= i < rest@.len() ==> (#[trigger] rest@[i]).0 == StrategyWeight::Infinity && rest@[i].1
                    == all[all.len() - 1 - i].1,
                forall|i: int| 0 <= i < self.0@.len() ==> (#[trigger] self.0@[i]).0 == StrategyWeight::Infinity && self.0@[i].1
                    == all[i].1,
            decreases rest@.len(),
        {
            let ghost before = rest@;
            let ghost mine = self.0@;
            let item = rest.pop().unwrap();
            proof {
                assert(before == rest@.push(item));
                assert(item == before[before.len() - 1]);
            }
            self.0.push(item);
            proof {
                assert forall|i: int| 0 <= i < self.0@.len() implies (#[trigger] self.0@[i]).0 == StrategyWeight::Infinity
                    && self.0@[i].1 == all[i].1 by {
                    if i < mine.len() {
                        assert(self.0@[i] == mine[i]);
                    }
                }
                assert forall|i: int| 0 <= i < rest@.len() implies (#[trigger] rest@[i]).0 == StrategyWeight::Infinity
                    && rest@[i].1 == all[all.len() - 1 - i].1 by {
                    assert(rest@[i] == before[i]);
                }
            }
        }
        proof {
            assert(self@ =~= old(self)@.map_values(|p: (StrategyWeight, T)| (StrategyWeight::Infinity, p.1)));
        }
    }
}

impl<T: Key> BinaryHeapStrategy<T> {
    /// Keep the items whose value's index is in the set.
    pub fn intersect_keys(self, other: &BitSet<T>) -> (r: Self)
        ensures
            r@ == keep_in(self@, Set::new(|v: T| other@.contains(v.key_index()))),
    {
        let mut r = Self::new();
        let mut j: usize = 0;
        while j < self.0.len()
            invariant
                0 <= j <= self.0@.len(),
                r@ == keep_in(self@.take(j as int), Set::new(|v: T| other@.contains(v.key_index()))),
            decreases self.0@.len() - j,
        {
            let item = self.0[j];
            proof {
                assert(self@.take(j + 1).drop_last() =~= self@.take(j as int));
                assert(self@.take(j + 1).last() == (item.0, item.1));
            }
            if other.contains_key(&item.1) {
                r.push(StrategyItem(item.0, item.1));
            }
            j = j + 1;
        }
        proof {
            assert(self@.take(self@.len() as int) =~= self@);
        }
        r
    }
}

/// The items whose pair of values, as indices, is in `rel`.
pub open spec fn keep_pairs_in<K: Key>(s: Seq<(StrategyWeight, (K, K))>, rel: Set<(usize, usize)>) -> Seq<(StrategyWeight, (K, K))>
    decreases s.len(),
{
    if s.len() == 0 {
        Seq::empty()
    } else {
        let rest = keep_pairs_in(s.drop_last(), rel);
        if rel.contains((s.last().1.0.key_index(), s.last().1.1.key_index())) {
            rest.push(s.last())
        } else {
            rest
        }
    }
}

/// The pairs of `a` and `b` are the same as indices.
pub open spec fn same_pair<K: Key>(a: (K, K), b: (K, K)) -> bool {
    a.0.key_index() == b.0.key_index() && a.1.key_index() == b.1.key_index()
}

/// Merge one item into `s`: the items with its pair take the lower of the two weights; without
/// such items it is added at the end.
pub open spec fn merge_min<K: Key>(s: Seq<(StrategyWeight, (K, K))>, item: (StrategyWeight, (K, K))) -> Seq<(StrategyWeight, (K, K))> {
    if exists|i: int| 0 <= i < s.len() && same_pair((#[trigger] s[i]).1, item.1) {
        s.map_values(
            |e: (StrategyWeight, (K, K))|
                if same_pair(e.1, item.1) {
                    (if weight_le(e.0, item.0) {
                        e.0
                    } else {
                        item.0
                    }, e.1)
                } else {
                    e
                },
        )
    } else {
        s.push(item)
    }
}

/// Merge the items of `other` into `s` in order.
pub open spec fn union_min<K: Key>(s: Seq<(StrategyWeight, (K, K))>, other: Seq<(StrategyWeight, (K, K))>) -> Seq<
    (StrategyWeight, (K, K)),
>
    decreases other.len(),
{
    if other.len() == 0 {
        s
    } else {
        merge_min(union_min(s, other.drop_last()), other.last())
    }
}

impl<T> BinaryHeapStrategy<T> {
    /// The items of `self` followed by those of `other`.
    pub fn append(self, other: Self) -> (r: Self)
        ensures
            r@ == self@ + other@,
    {
        let mut s = self;
        let mut o = other;
        let ghost start = s@;
        s.0.append(&mut o.0);
        proof {
            assert(s@ =~= start + other@);
        }
        s
    }
}

impl<K: Key> BinaryHeapStrategy<(K, K)> {
    /// Keep the items whose pair of values is in the relation.
    pub fn intersect_pairs(self, rel: &crate::set::bitset::BitsetRelation<K, K>) -> (r: Self)
        ensures
            r@ == keep_pairs_in(self@, rel@),
    {
        let mut r = Self::new();
        let mut j: usize = 0;
        while j < self.0.len()
            invariant
                0 <= j <= self.0@.len(),
                r@ == keep_pairs_in(self@.take(j as int), rel@),
            decreases self.0@.len() - j,
        {
            let item = self.0[j];
            proof {
                assert(self@.take(j + 1).drop_last() =~= self@.take(j as int));
                assert(self@.take(j + 1).last() == (item.0, item.1));
            }
            if rel.get(item.1) {
                r.push(StrategyItem(item.0, item.1));
            }
            j = j + 1;
        }
        proof {
            assert(self@.take(self@.len() as int) =~= self@);
        }
        r
    }

    /// Merge one item: the items with its pair take the lower of the two weights; without such
    /// items it is added.
    pub fn merge_item_min(&mut self, item: StrategyItem<(K, K)>)
        ensures
            final(self)@ == merge_min(old(self)@, (item.0, item.1)),
    {
        let ghost it = (item.0, item.1);
        let ghost orig = self@;
        let ghost orig_items = self.0@;
        let mut found = false;
        let mut j: usize = 0;
        while j < self.0.len()
            invariant
                0 <= j <= self.0@.len(),
                self.0@.len() == orig_items.len(),
                orig == item_pairs(orig_items),
                it == (item.0, item.1),
                found == exists|i: int| 0 <= i < j && same_pair((#[trigger] orig[i]).1, it.1),
                forall|i: int| 0 <= i < j ==> #[trigger] self@[i] == (if same_pair(orig[i].1, it.1) {
                    (if weight_le(orig[i].0, it.0) {
                        orig[i].0
                    } else {
                        it.0
                    }, orig[i].1)
                } else {
                    orig[i]
                }),
                forall|i: int| j <= i < self.0@.len() ==> #[trigger] self.0@[i] == orig_items[i],
            decreases self.0@.len() - j,
        {
            let e = self.0[j];
            proof {
                assert(orig[j as int] == (e.0, e.1));
            }
            let e_left = e.1.0.index();
            let e_right = e.1.1.index();
            let item_left = item.1.0.index();
            let item_right = item.1.1.index();
            if e_left == item_left && e_right == item_right {
                assert(same_pair(e.1, item.1));
                let w = e.0.min(item.0);
                let ghost before = self.0@;
                let ghost before_view = self@;
                self.0.set(j, StrategyItem(w, e.1));
                found = true;
                proof {
                    assert(same_pair(orig[j as int].1, it.1));
                    assert(self@[j as int] == (w, e.1));
                    assert forall|i: int| 0 <= i < j + 1 implies #[trigger] self@[i] == (if same_pair(orig[i].1, it.1) {
                        (if weight_le(orig[i].0, it.0) {
                            orig[i].0
                        } else {
                            it.0
                        }, orig[i].1)
                    } else {
                        orig[i]
                    }) by {
                        if i < j {
                            assert(self.0@[i] == before[i]);
                            assert(self@[i] == before_view[i]);
                        }
                    }
                }
            } else {
                proof {
                    assert(!same_pair(orig[j as int].1, it.1));
                    assert(self@[j as int] == orig[j as int]);
                    if exists|i: int| 0 <= i < j + 1 && same_pair((#[trigger] orig[i]).1, it.1) {
                        let i = choose|i: int| 0 <= i < j + 1 && same_pair((#[trigger] orig[i]).1, it.1);
                        assert(i < j);
                    }
                }
            }
            j = j + 1;
        }
        if !found {
            self.push(item);
            proof {
                assert(self@ =~= orig.push(it));
            }
        } else {
            proof {
                assert(self@ =~= merge_min(orig, it));
            }
        }
    }

    /// Merge the items of `other` in order, taking the lower weight for a pair in both.
    pub fn union_with_min(&mut self, other: Self)
        ensures
            final(self)@ == union_min(old(self)@, other@),
    {
        let mut j: usize = 0;
        while j < other.0.len()
            invariant
                0 <= j <= other.0@.len(),
                self@ == union_min(old(self)@, other@.take(j as int)),
            decreases other.0@.len() - j,
        {
            let item = other.0[j];
            self.merge_item_min(StrategyItem(item.0, item.1));
            proof {
                assert(other@.take(j + 1).drop_last() =~= other@.take(j as int));
                assert(other@.take(j + 1).last() == (item.0, item.1));
            }
            j = j + 1;
        }
        proof {
            assert(other@.take(other@.len() as int) =~= other@);
        }
    }
}

impl<T: Copy> Length for BinaryHeapStrategy<T> {
    fn length(&self) -> (r: usize)
        ensures
            r == self@.len(),
    {
        self.0.len()
    }
}

impl<T: Copy> Singleton<T> for BinaryHeapStrategy<T> {
    fn singleton(x: T) -> (r: Self)
        ensures
            r@ == seq![(StrategyWeight::Infinity, x)],
    {
        let mut s = Self::new();
        s.push(StrategyItem(StrategyWeight::Infinity, x));
        s
    }
}

impl<T: Key + Eq + Hash> Intersect<HashSet<T>> for BinaryHeapStrategy<T> {
    /// Keep the items whose value is in `other`.
    fn intersect(self, other: &HashSet<T>) -> (r: Self)
        ensures
            r@ == keep_in(self@, other@),
    {
        proof {
            T::lemma_key_model();
            broadcast use vstd::std_specs::hash::group_hash_axioms;
        }
        let mut r = Self::new();
        let mut j: usize = 0;
        while j < self.0.len()
            invariant
                0 <= j <= self.0@.len(),
                vstd::std_specs::hash::obeys_key_model::<T>(),
                r@ == keep_in(self@.take(j as int), other@),
            decreases self.0@.len() - j,
        {
            let item = self.0[j];
            proof {
                broadcast use vstd::std_specs::hash::group_hash_axioms;
                assert(self@.take(j + 1).drop_last() =~= self@.take(j as int));
                assert(self@.take(j + 1).last() == (item.0, item.1));
            }
            if other.contains(&item.1) {
                r.push(StrategyItem(item.0, item.1));
            }
            j = j + 1;
        }
        proof {
            assert(self@.take(self@.len() as int) =~= self@);
        }
        r
    }
}

impl<T: Copy, U: Key> BinaryHeapStrategy<(T, U)> {
    /// The items whose value has `right` as its right component, with that component dropped.
    pub fn slice_right_ref(&self, right: U) -> (r: BinaryHeapStrategy<T>)
        ensures
            r@ == keep_right(self@, right.key_index()),
    {
        let mut r = BinaryHeapStrategy::new();
        let mut j: usize = 0;
        while j < self.0.len()
            invariant
                0 <= j <= self.0@.len(),
                r@ == keep_right(self@.take(j as int), right.key_index()),
            decreases self.0@.len() - j,
        {
            let item = self.0[j];
            proof {
                assert(self@.take(j + 1).drop_last() =~= self@.take(j as int));
                assert(self@.take(j + 1).last() == (item.0, item.1));
            }
            if item.1.1.index() == right.index() {
                r.push(StrategyItem(item.0, item.1.0));
            }
            j = j + 1;
        }
        proof {
            assert(self@.take(self@.len() as int) =~= self@);
        }
        r
    }
}

impl<T: Key, U: Copy> BinaryHeapStrategy<(T, U)> {
    /// The items whose value has `left` as its left component, with that component dropped.
    pub fn slice_left_ref(&self, left: T) -> (r: BinaryHeapStrategy<U>)
        ensures
            r@ == keep_left(self@, left.key_index()),
    {
        let mut r = BinaryHeapStrategy::new();
        let mut j: usize = 0;
        while j < self.0.len()
            invariant
                0 <= j <= self.0@.len(),
                r@ == keep_left(self@.take(j as int), left.key_index()),
            decreases self.0@.len() - j,
        {
            let item = self.0[j];
            proof {
                assert(self@.take(j + 1).drop_last() =~= self@.take(j as int));
                assert(self@.take(j + 1).last() == (item.0, item.1));
            }
            if item.1.0.index() == left.index() {
                r.push(StrategyItem(item.0, item.1.1));
            }
            j = j + 1;
        }
        proof {
            assert(self@.take(self@.len() as int) =~= self@);
        }
        r
    }
}

impl<T: Copy, U: Key> RightSliced<T, U> for BinaryHeapStrategy<(T, U)> where (T, U): Copy {
    type SlicedRight = BinaryHeapStrategy<T>;
}

impl<T: Key, U: Copy> LeftSliced<T, U> for BinaryHeapStrategy<(T, U)> where (T, U): Copy {
    type SlicedLeft = BinaryHeapStrategy<U>;
}

impl<T: Copy, U: Key> SliceRight<T, U, BinaryHeapStrategy<T>> for BinaryHeapStrategy<(T, U)> where (T, U): Copy {
    fn slice_right(self, right: U) -> (r: BinaryHeapStrategy<T>)
        ensures
            r@ == keep_right(self@, right.key_index()),
    {
        self.slice_right_ref(right)
    }
}

impl<T: Key, U: Copy> SliceLeft<T, U, BinaryHeapStrategy<U>> for BinaryHeapStrategy<(T, U)> where (T, U): Copy {
    fn slice_left(self, left: T) -> (r: BinaryHeapStrategy<U>)
        ensures
            r@ == keep_left(self@, left.key_index()),
    {
        self.slice_left_ref(left)
    }
}

impl<T: Key> Domain<T, BitSet<T>> for BinaryHeapStrategy<T> {
    open spec fn domain_accepted(&self) -> bool {
        forall|i: int| 0 <= i < self@.len() ==> (#[trigger] self@[i]).1.key_index() < usize::MAX
    }

    /// The indices of the values in the strategy.
    fn domain(self) -> (r: BitSet<T>)
        ensures
            forall|i: usize| #[trigger] r@.contains(i) <==> exists|k: int| 0 <= k < self@.len() && self@[k].1.key_index() == i,
    {
        let mut r = BitSet::new();
        let mut j: usize = 0;
        while j < self.0.len()
            invariant
                0 <= j <= self.0@.len(),
                self.domain_accepted(),
                forall|i: usize| #[trigger] r@.contains(i) <==> exists|k: int| 0 <= k < j && self@[k].1.key_index() == i,
            decreases self.0@.len() - j,
        {
            let v = self.0[j].1;
            proof {
                assert(self@[j as int].1 == v);
            }
            r.insert(v);
            proof {
                assert forall|i: usize| #[trigger] r@.contains(i) <==> exists|k: int| 0 <= k < j + 1 && self@[k].1.key_index() == i by {
                    if i == v.key_index() {
                        assert(self@[j as int].1.key_index() == i);
                    }
                }
            }
            j = j + 1;
        }
        r
    }
}

/// The weight that the last item of `relation` for the pair `(u, v)` holds, if any item does.
pub open spec fn last_weight<K: Key>(relation: Seq<(StrategyWeight, (K, K))>, u: usize, v: usize) -> Option<StrategyWeight>
    decreases relation.len(),
{
    if relation.len() == 0 {
        None
    } else if (relation.last().1.0.key_index(), relation.last().1.1.key_index()) == (u, v) {
        Some(relation.last().0)
    } else {
        last_weight(relation.drop_last(), u, v)
    }
}

/// The number that stands for a pair of indices.
pub open spec fn pair_code(u: usize, v: usize) -> u128 {
    (u as int * 0x1_0000_0000_0000_0000 + v as int) as u128
}

/// Distinct pairs have distinct numbers.
pub(crate) proof fn lemma_pair_code(u1: usize, v1: usize, u2: usize, v2: usize)
    ensures
        pair_code(u1, v1) == pair_code(u2, v2) ==> u1 == u2 && v1 == v2,
{
    let c: int = 0x1_0000_0000_0000_0000;
    assert(u1 < c && v1 < c && u2 < c && v2 < c);
    assert(0 <= u1 as int * c + v1 as int <= u128::MAX) by (nonlinear_arith)
        requires
            0 <= u1 < c,
            0 <= v1 < c,
            c == 0x1_0000_0000_0000_0000int,
    ;
    assert(0 <= u2 as int * c + v2 as int <= u128::MAX) by (nonlinear_arith)
        requires
            0 <= u2 < c,
            0 <= v2 < c,
            c == 0x1_0000_0000_0000_0000int,
    ;
    assert(u1 as int * c + v1 as int == u2 as int * c + v2 as int ==> u1 == u2 && v1 == v2) by (nonlinear_arith)
        requires
            0 <= u1 < c,
            0 <= v1 < c,
            0 <= u2 < c,
            0 <= v2 < c,
            c > 0,
    ;
}

pub(crate) fn code_of(u: usize, v: usize) -> (r: u128)
    ensures
        r == pair_code(u, v),
{
    proof {
        let c: int = 0x1_0000_0000_0000_0000;
        assert(0 <= u as int * c + v as int <= u128::MAX) by (nonlinear_arith)
            requires
                0 <= u < c,
                0 <= v < c,
                c == 0x1_0000_0000_0000_0000int,
        ;
    }
    (u as u128) * 0x1_0000_0000_0000_0000u128 + (v as u128)
}

/// The weight of the last item of `relation` for each pair, by the pair's number.
pub(crate) fn last_weights<K: Key>(relation: &BinaryHeapStrategy<(K, K)>) -> (m: HashMap<u128, StrategyWeight>)
    ensures
        forall|u: usize, v: usize| #[trigger] m@.get(pair_code(u, v)) == last_weight(relation@, u, v),
{
    let items = relation.iter();
    let mut m: HashMap<u128, StrategyWeight> = HashMap::new();
    let mut t: usize = 0;
    proof {
        broadcast use vstd::std_specs::hash::group_hash_axioms;
        assert forall|u: usize, v: usize| #[trigger] m@.get(pair_code(u, v)) == last_weight(relation@.subrange(0, 0), u, v) by {
            assert(relation@.subrange(0, 0).len() == 0);
        }
    }
    while t < items.len()
        invariant
            0 <= t <= items@.len(),
            item_pairs(items@) == relation@,
            forall|u: usize, v: usize| #[trigger] m@.get(pair_code(u, v)) == last_weight(relation@.subrange(0, t as int), u, v),
        decreases items@.len() - t,
    {
        let item = items[t];
        let x = item.1.0.index();
        let y = item.1.1.index();
        let code = code_of(x, y);
        let ghost before = m@;
        m.insert(code, item.0);
        proof {
            broadcast use vstd::std_specs::hash::group_hash_axioms;
            let sub = relation@.subrange(0, t + 1);
            assert(sub.drop_last() =~= relation@.subrange(0, t as int));
            assert(sub.last() == relation@[t as int]);
            assert(relation@[t as int] == (item.0, item.1));
            assert forall|u: usize, v: usize| #[trigger] m@.get(pair_code(u, v)) == last_weight(sub, u, v) by {
                lemma_pair_code(u, v, x, y);
                if (u, v) != (x, y) {
                    assert(m@.get(pair_code(u, v)) == before.get(pair_code(u, v)));
                }
            }
        }
        t = t + 1;
    }
    proof {
        assert(relation@.subrange(0, items@.len() as int) =~= relation@);
    }
    m
}

/// `r` is what intersecting `s` with `other` by `f` may give: the items of `s` in order whose pair
/// has an item in `other`, each weighted by a result of `f` on its own weight and that of the last
/// item of `other` for the pair.
pub open spec fn intersected_by<K: Key, F: Fn(StrategyWeight, StrategyWeight) -> StrategyWeight>(
    s: Seq<(StrategyWeight, (K, K))>,
    other: Seq<(StrategyWeight, (K, K))>,
    f: F,
    r: Seq<(StrategyWeight, (K, K))>,
) -> bool
    decreases s.len(),
{
    if s.len() == 0 {
        r.len() == 0
    } else {
        match last_weight(other, s.last().1.0.key_index(), s.last().1.1.key_index()) {
            None => intersected_by(s.drop_last(), other, f, r),
            Some(wo) => r.len() > 0 && r.last().1 == s.last().1 && call_ensures(f, (s.last().0, wo), r.last().0)
                && intersected_by(s.drop_last(), other, f, r.drop_last()),
        }
    }
}

impl<K: Key> IntersectBy<(K, K), BinaryHeapStrategy<(K, K)>> for BinaryHeapStrategy<(K, K)> where (K, K): Copy {
    /// Keep the items whose pair has an item in `other`, weighted by `f` of their weight and that
    /// of the last item of `other` for the pair.
    fn intersect_by<F: Fn(StrategyWeight, StrategyWeight) -> StrategyWeight>(self, other: &Self, f: F) -> (r: Self)
        ensures
            intersected_by(self@, other@, f, r@),
    {
        let weights = last_weights(other);
        let mut r = Self::new();
        let mut j: usize = 0;
        while j < self.0.len()
            invariant
                0 <= j <= self.0@.len(),
                forall|a: StrategyWeight, b: StrategyWeight| call_requires(f, (a, b)),
                forall|u: usize, v: usize| #[trigger] weights@.get(pair_code(u, v)) == last_weight(other@, u, v),
                intersected_by(self@.take(j as int), other@, f, r@),
            decreases self.0@.len() - j,
        {
            let item = self.0[j];
            let code = code_of(item.1.0.index(), item.1.1.index());
            let ghost before = r@;
            proof {
                broadcast use vstd::std_specs::hash::group_hash_axioms;
                assert(self@.take(j + 1).drop_last() =~= self@.take(j as int));
                assert(self@.take(j + 1).last() == (item.0, item.1));
                assert(weights@.get(code) == last_weight(other@, item.1.0.key_index(), item.1.1.key_index()));
            }
            match weights.get(&code) {
                Some(wo) => {
                    let w = f(item.0, *wo);
                    r.push(StrategyItem(w, item.1));
                    proof {
                        assert(r@.drop_last() =~= before);
                    }
                },
                None => {},
            }
            j = j + 1;
        }
        proof {
            assert(self@.take(self.0@.len() as int) =~= self@);
        }
        r
    }
}

/// Merging an item keeps every item of another pair as it was; where the pair of the item is
/// present, each of its items keeps its pair and takes the lower of its old weight and the weight
/// of the item (a weight at or below both, and one of the two), and nothing is added; where it is
/// absent, the item is added at the end.
pub proof fn lemma_merge_min_lower<K: Key>(s: Seq<(StrategyWeight, (K, K))>, item: (StrategyWeight, (K, K)))
    ensures
        (exists|i: int| 0 <= i < s.len() && same_pair((#[trigger] s[i]).1, item.1)) ==> merge_min(s, item).len() == s.len(),
        (forall|i: int| 0 <= i < s.len() ==> !same_pair((#[trigger] s[i]).1, item.1)) ==> merge_min(s, item) == s.push(item),
        forall|i: int|
            0 <= i < s.len() ==> {
                let m = #[trigger] merge_min(s, item)[i];
                &&& m.1 == s[i].1
                &&& !same_pair(s[i].1, item.1) ==> m == s[i]
                &&& same_pair(s[i].1, item.1) ==> {
                    &&& weight_le(m.0, s[i].0)
                    &&& weight_le(m.0, item.0)
                    &&& (m.0 == s[i].0 || m.0 == item.0)
                }
            },
{
    if exists|i: int| 0 <= i < s.len() && same_pair((#[trigger] s[i]).1, item.1) {
    } else {
        assert forall|i: int| 0 <= i < s.len() implies merge_min(s, item)[i] == s[i] by {
            assert(!same_pair(s[i].1, item.1));
        }
    }
    assert forall|a: StrategyWeight, b: StrategyWeight| weight_le(a, b) || weight_le(b, a) by {
        crate::ordered::strategy::lemma_weight_order(a, b, a);
    }
}

/// Merging a strategy into another at the lower weights keeps each item of the first with its pair,
/// at a weight at or below its own; gives each pair of the second an item at a weight at or below
/// that of the second's item; and holds no pair that neither had.
pub proof fn lemma_union_min_lower<K: Key>(s: Seq<(StrategyWeight, (K, K))>, other: Seq<(StrategyWeight, (K, K))>)
    ensures
        union_min(s, other).len() >= s.len(),
        forall|i: int| 0 <= i < s.len() ==> (#[trigger] union_min(s, other)[i]).1 == s[i].1 && weight_le(union_min(s, other)[i].0, s[i].0),
        forall|i: int|
            0 <= i < other.len() ==> exists|k: int|
                0 <= k < union_min(s, other).len() && same_pair((#[trigger] union_min(s, other)[k]).1, (#[trigger] other[i]).1)
                    && weight_le(union_min(s, other)[k].0, other[i].0),
        forall|k: int|
            0 <= k < union_min(s, other).len() ==> k < s.len() || exists|i: int|
                0 <= i < other.len() && (#[trigger] union_min(s, other)[k]).1 == (#[trigger] other[i]).1,
    decreases other.len(),
{
    if other.len() > 0 {
        let init = other.drop_last();
        let item = other.last();
        lemma_union_min_lower(s, init);
        let u = union_min(s, init);
        let m = union_min(s, other);
        assert(m == merge_min(u, item));
        lemma_merge_min_lower(u, item);
        assert forall|a: StrategyWeight, b: StrategyWeight, c: StrategyWeight|
            weight_le(a, b) && weight_le(b, c) implies weight_le(a, c) by {
            crate::ordered::strategy::lemma_weight_order(a, b, c);
        }
        assert forall|i: int| 0 <= i < s.len() implies (#[trigger] m[i]).1 == s[i].1 && weight_le(m[i].0, s[i].0) by {
            assert(u[i].1 == s[i].1 && weight_le(u[i].0, s[i].0));
        }
        assert forall|i: int| 0 <= i < other.len() implies exists|k: int|
            0 <= k < m.len() && same_pair((#[trigger] m[k]).1, (#[trigger] other[i]).1) && weight_le(m[k].0, other[i].0) by {
            if i == other.len() - 1 {
                if exists|j: int| 0 <= j < u.len() && same_pair((#[trigger] u[j]).1, item.1) {
                    let j = choose|j: int| 0 <= j < u.len() && same_pair((#[trigger] u[j]).1, item.1);
                    assert(same_pair(m[j].1, other[i].1) && weight_le(m[j].0, other[i].0));
                } else {
                    assert(m[u.len() as int] == item);
                    crate::ordered::strategy::lemma_weight_order(item.0, item.0, item.0);
                    assert(same_pair(m[u.len() as int].1, other[i].1));
                }
            } else {
                assert(init[i] == other[i]);
                let k = choose|k: int| 0 <= k < u.len() && same_pair((#[trigger] u[k]).1, (#[trigger] init[i]).1) && weight_le(u[k].0, init[i].0);
                assert(m[k].1 == u[k].1);
                assert(same_pair(m[k].1, other[i].1) && weight_le(m[k].0, other[i].0));
            }
        }
        assert forall|k: int| 0 <= k < m.len() implies k < s.len() || exists|i: int|
            0 <= i < other.len() && (#[trigger] m[k]).1 == (#[trigger] other[i]).1 by {
            if k < u.len() {
                assert(m[k].1 == u[k].1);
                if k >= s.len() {
                    let i = choose|i: int| 0 <= i < init.len() && (#[trigger] u[k]).1 == (#[trigger] init[i]).1;
                    assert(init[i] == other[i]);
                    assert(m[k].1 == other[i].1);
                }
            } else {
                assert(m[k] == item);
                assert(m[k].1 == other[other.len() - 1].1);
            }
        }
    }
}

} // verus!
