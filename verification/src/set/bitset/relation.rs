use std::marker::PhantomData;
use vstd::prelude::*;

use crate::arena::{pair_indices_of, Key};
use crate::{
    CopiedIter, FromLefts, FromRights, Intersect, LeftSliced, RightSliced, SetOps, SliceLeft,
    SliceRight, Union, UnionWith, Without,
};
use vstd::std_specs::cmp::PartialEqSpecImpl;
use crate::set::bitset::raw::{RawBitSet, SetMethods};
use crate::set::bitset::BitSet;

verus! {

/// Which component of a pair indexes the outer vector of a relation.
#[derive(Clone, Copy, PartialEq, Eq, Debug, Structural)]
pub enum BitsetRelationOrder {
    LeftFirst,
    RightFirst,
}

// i believe RightFirst will be faster because when we convert a relation to todo, we slice
// right, which for RightFirst is simply an array lookup
pub const DEFAULT_RELATION_ORDER: BitsetRelationOrder = BitsetRelationOrder::RightFirst;

impl BitsetRelationOrder {
    pub open spec fn inverse_spec(self) -> Self {
        match self {
            BitsetRelationOrder::LeftFirst => BitsetRelationOrder::RightFirst,
            BitsetRelationOrder::RightFirst => BitsetRelationOrder::LeftFirst,
        }
    }

    #[verifier::when_used_as_spec(inverse_spec)]
    pub fn inverse(self) -> (r: Self)
        ensures
            r == self.inverse_spec(),
    {
        match self {
            Self::LeftFirst => Self::RightFirst,
            Self::RightFirst => Self::LeftFirst,
        }
    }
}

/// The pair `(first, second)` under which `(left, right)` is stored for an order.
pub open spec fn stored_as(order: BitsetRelationOrder, left: usize, right: usize) -> (usize, usize) {
    match order {
        BitsetRelationOrder::LeftFirst => (left, right),
        BitsetRelationOrder::RightFirst => (right, left),
    }
}

/// The pairs of indices held by a vector of bit sets under an order.
pub open spec fn pairs_of(items: Seq<RawBitSet>, order: BitsetRelationOrder) -> Set<(usize, usize)> {
    Set::new(
        |p: (usize, usize)|
            {
                let (f, s) = stored_as(order, p.0, p.1);
                f < items.len() && items[f as int]@.contains(s)
            },
    )
}

/// The pair `(left, right)` stored as `(first, second)` under an order.
pub open spec fn unstored(order: BitsetRelationOrder, first: usize, second: usize) -> (usize, usize) {
    match order {
        BitsetRelationOrder::LeftFirst => (first, second),
        BitsetRelationOrder::RightFirst => (second, first),
    }
}

/// The pairs stored in the bit set at position `first`.
pub open spec fn row(order: BitsetRelationOrder, first: usize, s: Set<usize>) -> Set<(usize, usize)> {
    s.map(|second: usize| unstored(order, first, second))
}

/// The bit set at position `j`, or the empty set past the end.
pub open spec fn item_at(items: Seq<RawBitSet>, j: int) -> Set<usize> {
    if 0 <= j < items.len() {
        items[j]@
    } else {
        Set::empty()
    }
}

/// The number of indices over all bit sets.
pub open spec fn total_len(items: Seq<RawBitSet>) -> nat
    decreases items.len(),
{
    if items.len() == 0 {
        0
    } else {
        total_len(items.drop_last()) + items.last()@.len()
    }
}

/// Every bit set of the vector holds its invariant.
pub open spec fn all_inv(items: Seq<RawBitSet>) -> bool {
    forall|i: int| 0 <= i < items.len() ==> #[trigger] items[i].inv()
}

proof fn lemma_row(order: BitsetRelationOrder, first: usize, s: Set<usize>)
    requires
        s.finite(),
    ensures
        row(order, first, s).finite(),
        row(order, first, s).len() == s.len(),
        forall|p: (usize, usize)| #[trigger] row(order, first, s).contains(p) <==> ({
            let (f, x) = stored_as(order, p.0, p.1);
            f == first && s.contains(x)
        }),
{
    let g = |second: usize| unstored(order, first, second);
    assert(vstd::relations::injective_on(g, s));
    vstd::set_lib::lemma_map_size(s, row(order, first, s), g);
    assert forall|p: (usize, usize)| #[trigger] row(order, first, s).contains(p) implies ({
        let (f, x) = stored_as(order, p.0, p.1);
        f == first && s.contains(x)
    }) by {
        let x = choose|x: usize| s.contains(x) && g(x) == p;
    }
    assert forall|p: (usize, usize)| ({
        let (f, x) = stored_as(order, p.0, p.1);
        f == first && s.contains(x)
    }) implies #[trigger] row(order, first, s).contains(p) by {
        let (f, x) = stored_as(order, p.0, p.1);
        assert(g(x) == p);
    }
}

/// The pairs of a vector of bit sets are finite and as many as the indices of its bit sets.
proof fn lemma_pairs_len(items: Seq<RawBitSet>, order: BitsetRelationOrder)
    requires
        all_inv(items),
        items.len() <= usize::MAX,
    ensures
        pairs_of(items, order).finite(),
        pairs_of(items, order).len() == total_len(items),
    decreases items.len(),
{
    if items.len() == 0 {
        assert(pairs_of(items, order) =~= Set::empty());
    } else {
        let n = (items.len() - 1) as usize;
        let prefix = items.drop_last();
        assert(all_inv(prefix)) by {
            assert forall|i: int| 0 <= i < prefix.len() implies #[trigger] prefix[i].inv() by {
                assert(prefix[i] == items[i]);
            }
        }
        lemma_pairs_len(prefix, order);
        let last = items.last();
        assert(items[n as int].inv());
        last.lemma_view();
        lemma_row(order, n, last@);
        assert forall|p: (usize, usize)| #[trigger] pairs_of(items, order).contains(p) <==> (
            pairs_of(prefix, order).contains(p) || row(order, n, last@).contains(p)) by {
            let (f, x) = stored_as(order, p.0, p.1);
            if f < n {
                assert(prefix[f as int] == items[f as int]);
            }
        }
        assert(pairs_of(items, order) =~= pairs_of(prefix, order) + row(order, n, last@));
        assert(pairs_of(prefix, order).disjoint(row(order, n, last@)));
        vstd::set_lib::lemma_set_disjoint_lens(pairs_of(prefix, order), row(order, n, last@));
    }
}

/// A relation between keys, held as one bit set per index of the first component of `order`.
#[derive(Debug)]
pub struct BitsetRelation<T, U> {
    items: Vec<RawBitSet>,
    order: BitsetRelationOrder,
    _phantom_data: PhantomData<(T, U)>,
}

impl<T, U> View for BitsetRelation<T, U> {
    type V = Set<(usize, usize)>;

    /// The pairs of indices `(left, right)` in the relation.
    closed spec fn view(&self) -> Set<(usize, usize)> {
        pairs_of(self.items@, self.order)
    }
}

impl<T, U> BitsetRelation<T, U> {
    pub closed spec fn order_spec(self) -> BitsetRelationOrder {
        self.order
    }

    pub fn new(order: BitsetRelationOrder) -> (r: Self)
        ensures
            r@ == Set::<(usize, usize)>::empty(),
            r.order_spec() == order,
    {
        let r = BitsetRelation { items: Vec::new(), order, _phantom_data: PhantomData };
        proof {
            assert(r@ =~= Set::<(usize, usize)>::empty());
        }
        r
    }

    pub fn new_left() -> (r: Self)
        ensures
            r@ == Set::<(usize, usize)>::empty(),
            r.order_spec() == BitsetRelationOrder::LeftFirst,
    {
        Self::new(BitsetRelationOrder::LeftFirst)
    }

    pub fn new_right() -> (r: Self)
        ensures
            r@ == Set::<(usize, usize)>::empty(),
            r.order_spec() == BitsetRelationOrder::RightFirst,
    {
        Self::new(BitsetRelationOrder::RightFirst)
    }

    /// The order in which the pairs are stored.
    pub fn order(&self) -> (r: BitsetRelationOrder)
        ensures
            r == self.order_spec(),
    {
        self.order
    }

    fn get_ordered(&self, first: usize, second: usize) -> (r: bool)
        ensures
            r == (first < self.items@.len() && self.items@[first as int]@.contains(second)),
    {
        if first < self.items.len() {
            self.items[first].contains(&second)
        } else {
            false
        }
    }

    fn insert_ordered(&mut self, first: usize, second: usize) -> (r: bool)
        requires
            first < usize::MAX,
            second < usize::MAX,
        ensures
            r == (first < old(self).items@.len() && old(self).items@[first as int]@.contains(second)),
            final(self).order == old(self).order,
            final(self).items@.len() >= old(self).items@.len(),
            final(self).items@.len() > first,
            final(self).items@[first as int]@ == (if first < old(self).items@.len() {
                old(self).items@[first as int]@
            } else {
                Set::<usize>::empty()
            }).insert(second),
            forall|i: int| 0 <= i < final(self).items@.len() && i != first ==>
                #[trigger] final(self).items@[i]@ == if i < old(self).items@.len() {
                    old(self).items@[i]@
                } else {
                    Set::<usize>::empty()
                },
    {
        while self.items.len() <= first
            invariant
                first < usize::MAX,
                self.order == old(self).order,
                self.items@.len() >= old(self).items@.len(),
                forall|i: int| 0 <= i < old(self).items@.len() ==> self.items@[i] == old(self).items@[i],
                forall|i: int| old(self).items@.len() <= i < self.items@.len() ==>
                    #[trigger] self.items@[i]@ == Set::<usize>::empty(),
            decreases first + 1 - self.items@.len(),
        {
            self.items.push(RawBitSet::new());
        }
        self.items[first].insert(second)
    }
}


impl<T: Key, U: Key> BitsetRelation<T, U> {
    /// Insert a pair into the relation, returning whether the pair was already in the relation
    pub fn insert(&mut self, pair: (T, U)) -> (r: bool)
        requires
            pair.0.key_index() < usize::MAX,
            pair.1.key_index() < usize::MAX,
        ensures
            r == old(self)@.contains((pair.0.key_index(), pair.1.key_index())),
            final(self)@ == old(self)@.insert((pair.0.key_index(), pair.1.key_index())),
            final(self).order_spec() == old(self).order_spec(),
    {
        let (l, r) = pair;
        let (first, second) = match self.order {
            BitsetRelationOrder::LeftFirst => (l.index(), r.index()),
            BitsetRelationOrder::RightFirst => (r.index(), l.index()),
        };
        let ghost old_items = self.items@;
        let ret = self.insert_ordered(first, second);
        proof {
            let p = (l.key_index(), r.key_index());
            assert forall|q: (usize, usize)| #[trigger] self@.contains(q) <==> old(self)@.insert(p).contains(q) by {
                let (f, x) = stored_as(self.order, q.0, q.1);
                if f < old_items.len() {
                    assert(old(self).items@[f as int] == old_items[f as int]);
                }
            }
            assert(self@ =~= old(self)@.insert(p));
        }
        ret
    }

    /// Check whether a pair is contained in the relation, with out-of-bounds indeces being `false`
    pub fn get(&self, pair: (T, U)) -> (r: bool)
        ensures
            r == self@.contains((pair.0.key_index(), pair.1.key_index())),
    {
        let (l, r) = pair;
        let (first, second) = match self.order {
            BitsetRelationOrder::LeftFirst => (l.index(), r.index()),
            BitsetRelationOrder::RightFirst => (r.index(), l.index()),
        };
        self.get_ordered(first, second)
    }

    /// Remove a pair, returning whether it was in the relation.
    pub fn remove_pair(&mut self, pair: &(T, U)) -> (r: bool)
        ensures
            r == old(self)@.contains((pair.0.key_index(), pair.1.key_index())),
            final(self)@ == old(self)@.remove((pair.0.key_index(), pair.1.key_index())),
            final(self).order_spec() == old(self).order_spec(),
    {
        let (first, second) = match self.order {
            BitsetRelationOrder::LeftFirst => (pair.0.index(), pair.1.index()),
            BitsetRelationOrder::RightFirst => (pair.1.index(), pair.0.index()),
        };
        let ghost p = (pair.0.key_index(), pair.1.key_index());
        if first < self.items.len() {
            let ghost old_items = self.items@;
            let ret = self.items[first].remove(&second);
            proof {
                assert forall|q: (usize, usize)| #[trigger] self@.contains(q) <==> old(self)@.remove(p).contains(q) by {
                    let (f, x) = stored_as(self.order, q.0, q.1);
                    if f < old_items.len() && f != first {
                        assert(self.items@[f as int] == old_items[f as int]);
                    }
                }
                assert(self@ =~= old(self)@.remove(p));
            }
            ret
        } else {
            proof {
                assert(old(self)@.remove(p) =~= old(self)@);
            }
            false
        }
    }

    /// The number of pairs, or `usize::MAX` if there are more.
    pub fn count(&self) -> (r: usize)
        ensures
            self@.finite(),
            r == if self@.len() <= usize::MAX { self@.len() } else { usize::MAX as nat },
    {
        let mut total: usize = 0;
        let mut i: usize = 0;
        while i < self.items.len()
            invariant
                0 <= i <= self.items@.len(),
                all_inv(self.items@.subrange(0, i as int)),
                total == if total_len(self.items@.subrange(0, i as int)) <= usize::MAX {
                    total_len(self.items@.subrange(0, i as int))
                } else {
                    usize::MAX as nat
                },
            decreases self.items@.len() - i,
        {
            let item = &self.items[i];
            proof {
                use_type_invariant(item);
            }
            let n = item.len();
            total = total.saturating_add(n);
            proof {
                let pre = self.items@.subrange(0, i as int);
                let next = self.items@.subrange(0, i + 1);
                assert(next.drop_last() =~= pre);
                assert(next.last() == self.items@[i as int]);
                assert forall|j: int| 0 <= j < next.len() implies #[trigger] next[j].inv() by {
                    if j < i {
                        assert(next[j] == pre[j]);
                    }
                }
            }
            i = i + 1;
        }
        proof {
            assert(self.items@.subrange(0, self.items@.len() as int) =~= self.items@);
            lemma_pairs_len(self.items@, self.order);
        }
        total
    }

    /// Whether the relation holds no pair.
    pub fn is_empty_relation(&self) -> (r: bool)
        ensures
            r == (self@ == Set::<(usize, usize)>::empty()),
    {
        let mut i: usize = 0;
        while i < self.items.len()
            invariant
                0 <= i <= self.items@.len(),
                forall|j: int| 0 <= j < i ==> #[trigger] self.items@[j]@ == Set::<usize>::empty(),
            decreases self.items@.len() - i,
        {
            if !self.items[i].is_empty() {
                proof {
                    let s = self.items@[i as int]@;
                    assert(!(s =~= Set::<usize>::empty()));
                    let x = choose|x: usize| s.contains(x);
                    assert(self@.contains(unstored(self.order, i, x)));
                }
                return false;
            }
            i = i + 1;
        }
        proof {
            assert(self@ =~= Set::<(usize, usize)>::empty());
        }
        true
    }

    /// Every pair of the relation, once each.
    pub fn pairs(&self) -> (r: Vec<(T, U)>)
        ensures
            pair_indices_of(r@).to_set() == self@,
            forall|i: int| 0 <= i < r@.len() ==> (#[trigger] pair_indices_of(r@)[i]).0 < usize::MAX
                && pair_indices_of(r@)[i].1 < usize::MAX,
    {
        let mut r: Vec<(T, U)> = Vec::new();
        let mut first: usize = 0;
        while first < self.items.len()
            invariant
                0 <= first <= self.items@.len(),
                forall|p: (usize, usize)| #[trigger] pair_indices_of(r@).contains(p) <==> (
                    self@.contains(p) && stored_as(self.order, p.0, p.1).0 < first),
                forall|i: int| 0 <= i < r@.len() ==> (#[trigger] pair_indices_of(r@)[i]).0 < usize::MAX
                    && pair_indices_of(r@)[i].1 < usize::MAX,
            decreases self.items@.len() - first,
        {
            let seconds = self.items[first].to_vec();
            assert(first < usize::MAX);
            let mut k: usize = 0;
            while k < seconds.len()
                invariant
                    0 <= first < self.items@.len(),
                    first < usize::MAX,
                    0 <= k <= seconds@.len(),
                    seconds@.to_set() == self.items@[first as int]@,
                    forall|i: int| 0 <= i < seconds@.len() ==> #[trigger] seconds@[i] < usize::MAX,
                    forall|i: int| 0 <= i < r@.len() ==> (#[trigger] pair_indices_of(r@)[i]).0 < usize::MAX
                        && pair_indices_of(r@)[i].1 < usize::MAX,
                    forall|p: (usize, usize)| #[trigger] pair_indices_of(r@).contains(p) <==> (
                        (self@.contains(p) && stored_as(self.order, p.0, p.1).0 < first) || (
                        stored_as(self.order, p.0, p.1).0 == first
                            && seconds@.subrange(0, k as int).contains(stored_as(self.order, p.0, p.1).1))),
                decreases seconds@.len() - k,
            {
                let second = seconds[k];
                let pair: (T, U) = match self.order {
                    BitsetRelationOrder::LeftFirst => (T::from_index(first), U::from_index(second)),
                    BitsetRelationOrder::RightFirst => (T::from_index(second), U::from_index(first)),
                };
                let ghost prev = r@;
                r.push(pair);
                proof {
                    let np = (pair.0.key_index(), pair.1.key_index());
                    assert(stored_as(self.order, np.0, np.1) == (first, second));
                    assert(seconds@[k as int] < usize::MAX);
                    assert(np.0 < usize::MAX && np.1 < usize::MAX);
                    assert forall|i: int| 0 <= i < r@.len() implies (#[trigger] pair_indices_of(r@)[i]).0 < usize::MAX
                        && pair_indices_of(r@)[i].1 < usize::MAX by {
                        if i < prev.len() {
                            assert(pair_indices_of(r@)[i] == pair_indices_of(prev)[i]);
                        }
                    }
                    assert(r@ == prev.push(pair));
                    assert(pair_indices_of(r@) =~= pair_indices_of(prev).push(np));
                    let sub = seconds@.subrange(0, k as int);
                    assert(seconds@.subrange(0, k + 1) =~= sub.push(second));
                    assert forall|x: usize| #[trigger] sub.push(second).contains(x) <==> (sub.contains(x) || x == second) by {
                        vstd::seq_lib::lemma_seq_contains_after_push(sub, second, x);
                    }
                    assert forall|q: (usize, usize)| #[trigger] pair_indices_of(prev).push(np).contains(q) <==> (
                        pair_indices_of(prev).contains(q) || q == np) by {
                        vstd::seq_lib::lemma_seq_contains_after_push(pair_indices_of(prev), np, q);
                    }
                }
                k = k + 1;
            }
            proof {
                assert(seconds@.subrange(0, seconds@.len() as int) =~= seconds@);
                assert forall|p: (usize, usize)| #[trigger] pair_indices_of(r@).contains(p) <==> (
                    self@.contains(p) && stored_as(self.order, p.0, p.1).0 < first + 1) by {
                }
            }
            first = first + 1;
        }
        proof {
            assert(pair_indices_of(r@).to_set() =~= self@);
        }
        r
    }
}

/// The bit set of the last entry of `it` whose right component has index `right`, or the empty
/// set if there is none.
pub open spec fn rights_last<T, U: Key>(it: Seq<(BitSet<T>, U)>, right: usize) -> Set<usize>
    decreases it.len(),
{
    if it.len() == 0 {
        Set::empty()
    } else if it.last().1.key_index() == right {
        it.last().0@
    } else {
        rights_last(it.drop_last(), right)
    }
}

/// The bit set of the last entry of `it` whose left component has index `left`, or the empty
/// set if there is none.
pub open spec fn lefts_last<T: Key, U>(it: Seq<(T, BitSet<U>)>, left: usize) -> Set<usize>
    decreases it.len(),
{
    if it.len() == 0 {
        Set::empty()
    } else if it.last().0.key_index() == left {
        it.last().1@
    } else {
        lefts_last(it.drop_last(), left)
    }
}

impl<T: Key, U: Key> BitsetRelation<T, U> {
    /// The same pairs, stored in the inverse order.
    pub fn transposed(&self) -> (r: Self)
        ensures
            r@ == self@,
            r.order_spec() == self.order_spec().inverse(),
    {
        let mut new = Self::new(self.order.inverse());
        let ps = self.pairs();
        let mut k: usize = 0;
        while k < ps.len()
            invariant
                0 <= k <= ps@.len(),
                new.order_spec() == self.order_spec().inverse(),
                forall|i: int| 0 <= i < ps@.len() ==> (#[trigger] pair_indices_of(ps@)[i]).0 < usize::MAX
                    && pair_indices_of(ps@)[i].1 < usize::MAX,
                new@ == pair_indices_of(ps@.subrange(0, k as int)).to_set(),
            decreases ps@.len() - k,
        {
            let pair = ps[k];
            assert(pair_indices_of(ps@)[k as int] == (pair.0.key_index(), pair.1.key_index()));
            new.insert(pair);
            proof {
                let pre = ps@.subrange(0, k as int);
                assert(pair_indices_of(ps@.subrange(0, k + 1)) =~= pair_indices_of(pre).push(
                    (pair.0.key_index(), pair.1.key_index())));
                pair_indices_of(pre).lemma_push_to_set_commute((pair.0.key_index(), pair.1.key_index()));
            }
            k = k + 1;
        }
        proof {
            assert(ps@.subrange(0, ps@.len() as int) =~= ps@);
        }
        new
    }

    /// The relation where `t` relates to `u` if `t` is in the set of the last entry `(set, u)`
    /// for `u`.
    pub fn from_rights(it: Vec<(BitSet<T>, U)>) -> (r: Self)
        requires
            forall|i: int| 0 <= i < it@.len() ==> (#[trigger] it@[i]).1.key_index() < usize::MAX,
        ensures
            r@ == Set::new(|p: (usize, usize)| rights_last(it@, p.1).contains(p.0)),
            r.order_spec() == BitsetRelationOrder::RightFirst,
    {
        let mut it = it;
        let ghost orig = it@;
        let mut items: Vec<RawBitSet> = Vec::new();
        let mut assigned: Vec<bool> = Vec::new();
        while it.len() > 0
            invariant
                it@.len() <= orig.len(),
                it@ == orig.subrange(0, it@.len() as int),
                forall|i: int| 0 <= i < orig.len() ==> (#[trigger] orig[i]).1.key_index() < usize::MAX,
                items@.len() == assigned@.len(),
                forall|f: usize| #[trigger] rights_last(orig, f) == if f < items@.len() && assigned@[f as int] {
                    items@[f as int]@
                } else {
                    rights_last(it@, f)
                },
                forall|f: int| 0 <= f < items@.len() && !assigned@[f] ==> #[trigger] items@[f]@ == Set::<usize>::empty(),
            decreases it@.len(),
        {
            let ghost before = it@;
            let (s, u) = it.pop().unwrap();
            proof {
                assert(it@ =~= before.drop_last());
                assert(before.last() == (s, u));
                assert(orig[before.len() - 1] == (s, u));
            }
            let fst = u.index();
            while items.len() <= fst
                invariant
                    fst < usize::MAX,
                    items@.len() == assigned@.len(),
                    forall|f: usize| #[trigger] rights_last(orig, f) == if f < items@.len() && assigned@[f as int] {
                        items@[f as int]@
                    } else {
                        rights_last(before, f)
                    },
                    forall|f: int| 0 <= f < items@.len() && !assigned@[f] ==> #[trigger] items@[f]@ == Set::<usize>::empty(),
                decreases fst + 1 - items@.len(),
            {
                items.push(RawBitSet::new());
                assigned.push(false);
            }
            if !assigned[fst] {
                items.set(fst, s.into_raw());
                assigned.set(fst, true);
            }
        }
        let r = BitsetRelation { items, order: BitsetRelationOrder::RightFirst, _phantom_data: PhantomData };
        proof {
            assert forall|p: (usize, usize)| #[trigger] r@.contains(p) <==> rights_last(orig, p.1).contains(p.0) by {
                assert(rights_last(orig, p.1) == if p.1 < r.items@.len() && assigned@[p.1 as int] {
                    r.items@[p.1 as int]@
                } else {
                    rights_last(it@, p.1)
                });
            }
            assert(r@ =~= Set::new(|p: (usize, usize)| rights_last(orig, p.1).contains(p.0)));
        }
        r
    }

    /// The relation where `t` relates to `u` if `u` is in the set of the last entry `(t, set)`
    /// for `t`.
    pub fn from_lefts(it: Vec<(T, BitSet<U>)>) -> (r: Self)
        requires
            forall|i: int| 0 <= i < it@.len() ==> (#[trigger] it@[i]).0.key_index() < usize::MAX,
        ensures
            r@ == Set::new(|p: (usize, usize)| lefts_last(it@, p.0).contains(p.1)),
            r.order_spec() == BitsetRelationOrder::LeftFirst,
    {
        let mut it = it;
        let ghost orig = it@;
        let mut items: Vec<RawBitSet> = Vec::new();
        let mut assigned: Vec<bool> = Vec::new();
        while it.len() > 0
            invariant
                it@.len() <= orig.len(),
                it@ == orig.subrange(0, it@.len() as int),
                forall|i: int| 0 <= i < orig.len() ==> (#[trigger] orig[i]).0.key_index() < usize::MAX,
                items@.len() == assigned@.len(),
                forall|f: usize| #[trigger] lefts_last(orig, f) == if f < items@.len() && assigned@[f as int] {
                    items@[f as int]@
                } else {
                    lefts_last(it@, f)
                },
                forall|f: int| 0 <= f < items@.len() && !assigned@[f] ==> #[trigger] items@[f]@ == Set::<usize>::empty(),
            decreases it@.len(),
        {
            let ghost before = it@;
            let (t, s) = it.pop().unwrap();
            proof {
                assert(it@ =~= before.drop_last());
                assert(before.last() == (t, s));
                assert(orig[before.len() - 1] == (t, s));
            }
            let fst = t.index();
            while items.len() <= fst
                invariant
                    fst < usize::MAX,
                    items@.len() == assigned@.len(),
                    forall|f: usize| #[trigger] lefts_last(orig, f) == if f < items@.len() && assigned@[f as int] {
                        items@[f as int]@
                    } else {
                        lefts_last(before, f)
                    },
                    forall|f: int| 0 <= f < items@.len() && !assigned@[f] ==> #[trigger] items@[f]@ == Set::<usize>::empty(),
                decreases fst + 1 - items@.len(),
            {
                items.push(RawBitSet::new());
                assigned.push(false);
            }
            if !assigned[fst] {
                items.set(fst, s.into_raw());
                assigned.set(fst, true);
            }
        }
        let r = BitsetRelation { items, order: BitsetRelationOrder::LeftFirst, _phantom_data: PhantomData };
        proof {
            assert forall|p: (usize, usize)| #[trigger] r@.contains(p) <==> lefts_last(orig, p.0).contains(p.1) by {
                assert(lefts_last(orig, p.0) == if p.0 < r.items@.len() && assigned@[p.0 as int] {
                    r.items@[p.0 as int]@
                } else {
                    lefts_last(it@, p.0)
                });
            }
            assert(r@ =~= Set::new(|p: (usize, usize)| lefts_last(orig, p.0).contains(p.1)));
        }
        r
    }
}

impl<T, U> BitsetRelation<T, U> {
    /// One bit set per index up to the largest index of `first`: a copy of `second` where
    /// `first` holds the index, the empty set elsewhere.
    fn cartesian_items(first: &RawBitSet, second: &RawBitSet) -> (r: Vec<RawBitSet>)
        ensures
            forall|i: int| 0 <= i < r@.len() ==> #[trigger] r@[i]@ == if first@.contains(i as usize) {
                second@
            } else {
                Set::<usize>::empty()
            },
            forall|i: usize| #[trigger] first@.contains(i) ==> i < r@.len(),
    {
        proof {
            use_type_invariant(first);
            first.lemma_view();
        }
        let last = first.last_one();
        let mut r: Vec<RawBitSet> = Vec::new();
        let mut i: usize = 0;
        while i <= last
            invariant
                i <= last + 1,
                last < usize::MAX,
                r@.len() == i,
                forall|j: int| 0 <= j < r@.len() ==> #[trigger] r@[j]@ == if first@.contains(j as usize) {
                    second@
                } else {
                    Set::<usize>::empty()
                },
            decreases last + 1 - i,
        {
            if first.contains(&i) {
                r.push(second.clone());
            } else {
                r.push(RawBitSet::new());
            }
            i = i + 1;
        }
        r
    }

    /// The relation `left × right`, stored in the given order.
    pub fn new_from_cartesian_raw(left: &RawBitSet, right: &RawBitSet, order: BitsetRelationOrder) -> (r: Self)
        ensures
            r@ == Set::new(|p: (usize, usize)| left@.contains(p.0) && right@.contains(p.1)),
            r.order_spec() == order,
    {
        let (first, second) = match order {
            BitsetRelationOrder::LeftFirst => (left, right),
            BitsetRelationOrder::RightFirst => (right, left),
        };
        let items = Self::cartesian_items(first, second);
        let r = BitsetRelation { items, order, _phantom_data: PhantomData };
        proof {
            assert(r@ =~= Set::new(|p: (usize, usize)| left@.contains(p.0) && right@.contains(p.1)));
        }
        r
    }

    /// A copy of the relation.
    pub fn duplicate(&self) -> (r: Self)
        ensures
            r@ == self@,
            r.order_spec() == self.order_spec(),
    {
        let mut items: Vec<RawBitSet> = Vec::new();
        let mut i: usize = 0;
        while i < self.items.len()
            invariant
                0 <= i <= self.items@.len(),
                items@.len() == i,
                forall|j: int| 0 <= j < i ==> #[trigger] items@[j]@ == self.items@[j]@,
            decreases self.items@.len() - i,
        {
            items.push(self.items[i].clone());
            i = i + 1;
        }
        let r = BitsetRelation { items, order: self.order, _phantom_data: PhantomData };
        proof {
            assert(r@ =~= self@);
        }
        r
    }
}

impl<T: Key, U: Key> BitsetRelation<T, U> {
    /// Add every pair of `other`.
    pub fn union_with_relation(&mut self, other: Self)
        ensures
            final(self)@ == old(self)@.union(other@),
            final(self).order_spec() == old(self).order_spec(),
    {
        if self.order == other.order {
            let mut i: usize = 0;
            while i < other.items.len()
                invariant
                    0 <= i <= other.items@.len(),
                    self.order == old(self).order,
                    self.order == other.order,
                    self.items@.len() >= old(self).items@.len(),
                    self.items@.len() >= i,
                    forall|j: int| 0 <= j < self.items@.len() ==> #[trigger] self.items@[j]@ == {
                        let mine = if j < old(self).items@.len() { old(self).items@[j]@ } else { Set::<usize>::empty() };
                        if j < i { mine.union(other.items@[j]@) } else { mine }
                    },
                decreases other.items@.len() - i,
            {
                if self.items.len() <= i {
                    self.items.push(RawBitSet::new());
                }
                self.items[i].union_with_ref(&other.items[i]);
                i = i + 1;
            }
            proof {
                assert(self@ =~= old(self)@.union(other@));
            }
        } else {
            let ps = other.pairs();
            let mut k: usize = 0;
            while k < ps.len()
                invariant
                    0 <= k <= ps@.len(),
                    self.order == old(self).order,
                    forall|i: int| 0 <= i < ps@.len() ==> (#[trigger] pair_indices_of(ps@)[i]).0 < usize::MAX
                        && pair_indices_of(ps@)[i].1 < usize::MAX,
                    pair_indices_of(ps@).to_set() == other@,
                    self@ == old(self)@.union(pair_indices_of(ps@.subrange(0, k as int)).to_set()),
                decreases ps@.len() - k,
            {
                let pair = ps[k];
                assert(pair_indices_of(ps@)[k as int] == (pair.0.key_index(), pair.1.key_index()));
                self.insert(pair);
                proof {
                    let pre = ps@.subrange(0, k as int);
                    assert(pair_indices_of(ps@.subrange(0, k + 1)) =~= pair_indices_of(pre).push(
                        (pair.0.key_index(), pair.1.key_index())));
                    pair_indices_of(pre).lemma_push_to_set_commute((pair.0.key_index(), pair.1.key_index()));
                    assert(self@ =~= old(self)@.union(pair_indices_of(ps@.subrange(0, k + 1)).to_set()));
                }
                k = k + 1;
            }
            proof {
                assert(ps@.subrange(0, ps@.len() as int) =~= ps@);
            }
        }
    }

    fn intersect_same_order(self, other: &Self) -> (r: Self)
        requires
            self.order_spec() == other.order_spec(),
        ensures
            r@ == self@.intersect(other@),
            r.order_spec() == self.order_spec(),
    {
        {
            let mut s = self;
            let empty = RawBitSet::new();
            let mut i: usize = 0;
            while i < s.items.len()
                invariant
                    0 <= i <= s.items@.len(),
                    s.order == self.order,
                    s.order == other.order,
                    empty@ == Set::<usize>::empty(),
                    s.items@.len() == self.items@.len(),
                    forall|j: int| 0 <= j < s.items@.len() ==> #[trigger] s.items@[j]@ == if j < i {
                        self.items@[j]@.intersect(if j < other.items@.len() { other.items@[j]@ } else { Set::<usize>::empty() })
                    } else {
                        self.items@[j]@
                    },
                decreases s.items@.len() - i,
            {
                if i < other.items.len() {
                    s.items[i].intersect_with_ref(&other.items[i]);
                } else {
                    s.items[i].intersect_with_ref(&empty);
                }
                i = i + 1;
            }
            proof {
                assert(s@ =~= self@.intersect(other@));
            }
            s
        }
    }

    /// Keep only the pairs that are also in `other`.
    pub fn intersect_relation(self, other: &Self) -> (r: Self)
        ensures
            r@ == self@.intersect(other@),
            r.order_spec() == self.order_spec(),
    {
        if self.order == other.order {
            self.intersect_same_order(other)
        } else {
            let t = other.transposed();
            self.intersect_same_order(&t)
        }
    }

    /// Remove every pair of `other`.
    pub fn without_relation(self, other: &Self) -> (r: Self)
        ensures
            r@ == self@.difference(other@),
            r.order_spec() == self.order_spec(),
    {
        let mut s = self;
        if s.order == other.order {
            let mut i: usize = 0;
            while i < s.items.len() && i < other.items.len()
                invariant
                    0 <= i <= s.items@.len(),
                    s.order == self.order,
                    s.order == other.order,
                    s.items@.len() == self.items@.len(),
                    forall|j: int| 0 <= j < s.items@.len() ==> #[trigger] s.items@[j]@ == if j < i && j < other.items@.len() {
                        self.items@[j]@.difference(other.items@[j]@)
                    } else {
                        self.items@[j]@
                    },
                decreases s.items@.len() - i,
            {
                s.items[i].difference_with_ref(&other.items[i]);
                i = i + 1;
            }
            proof {
                assert(s@ =~= self@.difference(other@));
            }
        } else {
            let ps = other.pairs();
            let mut k: usize = 0;
            while k < ps.len()
                invariant
                    0 <= k <= ps@.len(),
                    s.order == self.order,
                    pair_indices_of(ps@).to_set() == other@,
                    s@ == self@.difference(pair_indices_of(ps@.subrange(0, k as int)).to_set()),
                decreases ps@.len() - k,
            {
                let pair = ps[k];
                assert(pair_indices_of(ps@)[k as int] == (pair.0.key_index(), pair.1.key_index()));
                s.remove_pair(&pair);
                proof {
                    let pre = ps@.subrange(0, k as int);
                    assert(pair_indices_of(ps@.subrange(0, k + 1)) =~= pair_indices_of(pre).push(
                        (pair.0.key_index(), pair.1.key_index())));
                    pair_indices_of(pre).lemma_push_to_set_commute((pair.0.key_index(), pair.1.key_index()));
                    assert(s@ =~= self@.difference(pair_indices_of(ps@.subrange(0, k + 1)).to_set()));
                }
                k = k + 1;
            }
            proof {
                assert(ps@.subrange(0, ps@.len() as int) =~= ps@);
            }
        }
        s
    }

    /// Get a set where all values are of the form `(x, right)`
    pub fn slice_right_set(&self, right: U) -> (r: BitSet<T>)
        ensures
            r@ == Set::new(|l: usize| self@.contains((l, right.key_index()))),
    {
        let right_index = right.index();
        match self.order {
            BitsetRelationOrder::LeftFirst => {
                let mut raw = RawBitSet::new();
                let mut i: usize = 0;
                while i < self.items.len()
                    invariant
                        0 <= i <= self.items@.len(),
                        self.order == BitsetRelationOrder::LeftFirst,
                        right_index == right.key_index(),
                        raw@ == Set::new(|l: usize| l < i && self@.contains((l, right.key_index()))),
                    decreases self.items@.len() - i,
                {
                    if self.items[i].contains(&right_index) {
                        raw.insert(i);
                    }
                    proof {
                        assert(self@.contains((i, right.key_index())) == self.items@[i as int]@.contains(right_index));
                        assert forall|l: usize| #[trigger] raw@.contains(l) <==> (l < i + 1 && self@.contains((l, right.key_index()))) by {
                            if l == i {
                                assert(self@.contains((i, right.key_index())) == self.items@[i as int]@.contains(right_index));
                            }
                        }
                        assert(raw@ =~= Set::new(|l: usize| l < i + 1 && self@.contains((l, right.key_index()))));
                    }
                    i = i + 1;
                }
                proof {
                    assert(raw@ =~= Set::new(|l: usize| self@.contains((l, right.key_index()))));
                }
                BitSet::from_raw(raw)
            },
            BitsetRelationOrder::RightFirst => {
                if right_index < self.items.len() {
                    let raw = self.items[right_index].clone();
                    proof {
                        assert(raw@ =~= Set::new(|l: usize| self@.contains((l, right.key_index()))));
                    }
                    BitSet::from_raw(raw)
                } else {
                    let raw = RawBitSet::new();
                    proof {
                        assert(raw@ =~= Set::new(|l: usize| self@.contains((l, right.key_index()))));
                    }
                    BitSet::from_raw(raw)
                }
            },
        }
    }

    /// Get a set where all values are of the form `(left, x)`
    pub fn slice_left_set(&self, left: T) -> (r: BitSet<U>)
        ensures
            r@ == Set::new(|x: usize| self@.contains((left.key_index(), x))),
    {
        let left_index = left.index();
        match self.order {
            BitsetRelationOrder::LeftFirst => {
                if left_index < self.items.len() {
                    let raw = self.items[left_index].clone();
                    proof {
                        assert(raw@ =~= Set::new(|x: usize| self@.contains((left.key_index(), x))));
                    }
                    BitSet::from_raw(raw)
                } else {
                    let raw = RawBitSet::new();
                    proof {
                        assert(raw@ =~= Set::new(|x: usize| self@.contains((left.key_index(), x))));
                    }
                    BitSet::from_raw(raw)
                }
            },
            BitsetRelationOrder::RightFirst => {
                let mut raw = RawBitSet::new();
                let mut i: usize = 0;
                while i < self.items.len()
                    invariant
                        0 <= i <= self.items@.len(),
                        self.order == BitsetRelationOrder::RightFirst,
                        left_index == left.key_index(),
                        raw@ == Set::new(|x: usize| x < i && self@.contains((left.key_index(), x))),
                    decreases self.items@.len() - i,
                {
                    if self.items[i].contains(&left_index) {
                        raw.insert(i);
                    }
                    proof {
                        assert forall|x: usize| #[trigger] raw@.contains(x) <==> (x < i + 1 && self@.contains((left.key_index(), x))) by {
                            if x == i {
                                assert(self@.contains((left.key_index(), i)) == self.items@[i as int]@.contains(left_index));
                            }
                        }
                        assert(raw@ =~= Set::new(|x: usize| x < i + 1 && self@.contains((left.key_index(), x))));
                    }
                    i = i + 1;
                }
                proof {
                    assert(raw@ =~= Set::new(|x: usize| self@.contains((left.key_index(), x))));
                }
                BitSet::from_raw(raw)
            },
        }
    }

    fn same_pairs_same_order(&self, other: &Self) -> (r: bool)
        requires
            self.order_spec() == other.order_spec(),
        ensures
            r == (self@ == other@),
    {
        {
            let n = if self.items.len() > other.items.len() { self.items.len() } else { other.items.len() };
            let mut i: usize = 0;
            while i < n
                invariant
                    0 <= i <= n,
                    n >= self.items@.len(),
                    n >= other.items@.len(),
                    n == self.items@.len() || n == other.items@.len(),
                    self.order == other.order,
                    forall|j: int| 0 <= j < i ==> #[trigger] item_at(self.items@, j) == item_at(other.items@, j),
                decreases n - i,
            {
                let same = if i < self.items.len() && i < other.items.len() {
                    self.items[i].same_as(&other.items[i])
                } else if i < self.items.len() {
                    self.items[i].is_empty()
                } else {
                    other.items[i].is_empty()
                };
                if !same {
                    proof {
                        let a = item_at(self.items@, i as int);
                        let b = item_at(other.items@, i as int);
                        assert(a != b);
                        if a.subset_of(b) {
                            assert(!b.subset_of(a)) by {
                                if b.subset_of(a) {
                                    assert(a =~= b);
                                }
                            }
                            let x = choose|x: usize| b.contains(x) && !a.contains(x);
                            assert(other@.contains(unstored(self.order, i, x)));
                            assert(!self@.contains(unstored(self.order, i, x)));
                        } else {
                            let x = choose|x: usize| a.contains(x) && !b.contains(x);
                            assert(self@.contains(unstored(self.order, i, x)));
                            assert(!other@.contains(unstored(self.order, i, x)));
                        }
                    }
                    return false;
                }
                i = i + 1;
            }
            proof {
                assert forall|p: (usize, usize)| #[trigger] self@.contains(p) <==> other@.contains(p) by {
                    let (f, x) = stored_as(self.order, p.0, p.1);
                    if f < n {
                        let j = f as int;
                        assert(item_at(self.items@, j) == item_at(other.items@, j));
                    }
                }
                assert(self@ =~= other@);
            }
            true
        }
    }

    /// Whether both relations hold the same pairs.
    pub fn same_pairs(&self, other: &Self) -> (r: bool)
        ensures
            r == (self@ == other@),
    {
        if self.order == other.order {
            self.same_pairs_same_order(other)
        } else {
            let t = other.transposed();
            self.same_pairs_same_order(&t)
        }
    }

    /// The relation of the given pairs.
    pub fn from_pairs(pairs: Vec<(T, U)>) -> (r: Self)
        requires
            forall|i: int| 0 <= i < pairs@.len() ==> (#[trigger] pair_indices_of(pairs@)[i]).0 < usize::MAX
                && pair_indices_of(pairs@)[i].1 < usize::MAX,
        ensures
            r@ == pair_indices_of(pairs@).to_set(),
            r.order_spec() == DEFAULT_RELATION_ORDER,
    {
        let mut rel = Self::new(DEFAULT_RELATION_ORDER);
        let mut k: usize = 0;
        while k < pairs.len()
            invariant
                0 <= k <= pairs@.len(),
                rel.order_spec() == DEFAULT_RELATION_ORDER,
                forall|i: int| 0 <= i < pairs@.len() ==> (#[trigger] pair_indices_of(pairs@)[i]).0 < usize::MAX
                    && pair_indices_of(pairs@)[i].1 < usize::MAX,
                rel@ == pair_indices_of(pairs@.subrange(0, k as int)).to_set(),
            decreases pairs@.len() - k,
        {
            let pair = pairs[k];
            assert(pair_indices_of(pairs@)[k as int] == (pair.0.key_index(), pair.1.key_index()));
            rel.insert(pair);
            proof {
                let pre = pairs@.subrange(0, k as int);
                assert(pair_indices_of(pairs@.subrange(0, k + 1)) =~= pair_indices_of(pre).push(
                    (pair.0.key_index(), pair.1.key_index())));
                pair_indices_of(pre).lemma_push_to_set_commute((pair.0.key_index(), pair.1.key_index()));
            }
            k = k + 1;
        }
        proof {
            assert(pairs@.subrange(0, pairs@.len() as int) =~= pairs@);
        }
        rel
    }
}

impl<T, U> Default for BitsetRelation<T, U> {
    fn default() -> (r: Self)
        ensures
            r@ == Set::<(usize, usize)>::empty(),
            r.order_spec() == DEFAULT_RELATION_ORDER,
    {
        Self::new(DEFAULT_RELATION_ORDER)
    }
}

impl<T, U> Clone for BitsetRelation<T, U> {
    fn clone(&self) -> (r: Self)
        ensures
            r@ == self@,
            r.order_spec() == self.order_spec(),
    {
        self.duplicate()
    }
}

impl<T: Key, U: Key> PartialEq for BitsetRelation<T, U> {
    fn eq(&self, other: &Self) -> (r: bool) {
        self.same_pairs(other)
    }
}

impl<T: Key, U: Key> Eq for BitsetRelation<T, U> {}

impl<T: Key, U: Key> PartialEqSpecImpl for BitsetRelation<T, U> {
    open spec fn obeys_eq_spec() -> bool {
        true
    }

    open spec fn eq_spec(&self, other: &Self) -> bool {
        self@ == other@
    }
}

impl<T: Key, U: Key> SetOps<(T, U)> for BitsetRelation<T, U> {
    open spec fn insertable(&self, item: (T, U)) -> bool {
        item.0.key_index() < usize::MAX && item.1.key_index() < usize::MAX
    }

    fn contains(&self, item: &(T, U)) -> (r: bool)
        ensures
            r == self@.contains((item.0.key_index(), item.1.key_index())),
    {
        self.get(*item)
    }

    /// Insert a pair, returning whether it was already in the relation.
    fn insert(&mut self, item: (T, U)) -> (r: bool)
        ensures
            r == old(self)@.contains((item.0.key_index(), item.1.key_index())),
            final(self)@ == old(self)@.insert((item.0.key_index(), item.1.key_index())),
            final(self).order_spec() == old(self).order_spec(),
    {
        BitsetRelation::insert(self, item)
    }

    /// Remove a pair, returning whether it was in the relation.
    fn remove(&mut self, x: &(T, U)) -> (r: bool)
        ensures
            r == old(self)@.contains((x.0.key_index(), x.1.key_index())),
            final(self)@ == old(self)@.remove((x.0.key_index(), x.1.key_index())),
            final(self).order_spec() == old(self).order_spec(),
    {
        self.remove_pair(x)
    }

    /// The number of pairs, or `usize::MAX` if there are more.
    fn len(&self) -> (r: usize)
        ensures
            self@.finite(),
            r == if self@.len() <= usize::MAX { self@.len() } else { usize::MAX as nat },
    {
        self.count()
    }

    fn is_empty(&self) -> (r: bool)
        ensures
            r == (self@ == Set::<(usize, usize)>::empty()),
    {
        self.is_empty_relation()
    }
}

impl<T: Key, U: Key> Union for BitsetRelation<T, U> {
    fn union(self, other: Self) -> (r: Self)
        ensures
            r@ == self@.union(other@),
            r.order_spec() == self.order_spec(),
    {
        let mut s = self;
        s.union_with_relation(other);
        s
    }
}

impl<T: Key, U: Key> UnionWith for BitsetRelation<T, U> {
    fn union_with(&mut self, other: Self)
        ensures
            final(self)@ == old(self)@.union(other@),
            final(self).order_spec() == old(self).order_spec(),
    {
        self.union_with_relation(other);
    }
}

impl<T: Key, U: Key> Intersect for BitsetRelation<T, U> {
    fn intersect(self, other: &Self) -> (r: Self)
        ensures
            r@ == self@.intersect(other@),
            r.order_spec() == self.order_spec(),
    {
        self.intersect_relation(other)
    }
}

impl<T: Key, U: Key> Without for BitsetRelation<T, U> {
    fn without(self, other: &Self) -> (r: Self)
        ensures
            r@ == self@.difference(other@),
            r.order_spec() == self.order_spec(),
    {
        self.without_relation(other)
    }
}

impl<T: Key, U: Key> RightSliced<T, U> for BitsetRelation<T, U> {
    type SlicedRight = BitSet<T>;
}

impl<T: Key, U: Key> LeftSliced<T, U> for BitsetRelation<T, U> {
    type SlicedLeft = BitSet<U>;
}

impl<T: Key, U: Key> SliceRight<T, U, BitSet<T>> for BitsetRelation<T, U> {
    fn slice_right(&self, right: U) -> (r: BitSet<T>)
        ensures
            r@ == Set::new(|l: usize| self@.contains((l, right.key_index()))),
    {
        self.slice_right_set(right)
    }
}

impl<T: Key, U: Key> SliceLeft<T, U, BitSet<U>> for BitsetRelation<T, U> {
    fn slice_left(&self, left: T) -> (r: BitSet<U>)
        ensures
            r@ == Set::new(|x: usize| self@.contains((left.key_index(), x))),
    {
        self.slice_left_set(left)
    }
}

impl<T: Key, U: Key> FromRights<BitSet<T>, U> for BitsetRelation<T, U> {
    open spec fn rights_accepted(it: Seq<(BitSet<T>, U)>) -> bool {
        forall|i: int| 0 <= i < it.len() ==> (#[trigger] it[i]).1.key_index() < usize::MAX
    }

    fn from_rights(it: Vec<(BitSet<T>, U)>) -> (r: Self)
        ensures
            r@ == Set::new(|p: (usize, usize)| rights_last(it@, p.1).contains(p.0)),
            r.order_spec() == BitsetRelationOrder::RightFirst,
    {
        BitsetRelation::from_rights(it)
    }
}

impl<T: Key, U: Key> FromLefts<T, BitSet<U>> for BitsetRelation<T, U> {
    open spec fn lefts_accepted(it: Seq<(T, BitSet<U>)>) -> bool {
        forall|i: int| 0 <= i < it.len() ==> (#[trigger] it[i]).0.key_index() < usize::MAX
    }

    fn from_lefts(it: Vec<(T, BitSet<U>)>) -> (r: Self)
        ensures
            r@ == Set::new(|p: (usize, usize)| lefts_last(it@, p.0).contains(p.1)),
            r.order_spec() == BitsetRelationOrder::LeftFirst,
    {
        BitsetRelation::from_lefts(it)
    }
}

impl<T: Key, U: Key> CopiedIter<(T, U)> for BitsetRelation<T, U> {
    fn copied_iter(&self) -> (r: Vec<(T, U)>)
        ensures
            pair_indices_of(r@).to_set() == self@,
            forall|i: int| 0 <= i < r@.len() ==> (#[trigger] pair_indices_of(r@)[i]).0 < usize::MAX
                && pair_indices_of(r@)[i].1 < usize::MAX,
    {
        self.pairs()
    }
}
} // verus!
