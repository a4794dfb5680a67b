//! A strategy over pairs of keys held in a d-ary heap with a map of positions, from the crate
//! `orx-priority-queue`: each pair at most once, with a key that orders it.
use orx_priority_queue::{DaryHeapWithMap, PriorityQueue, PriorityQueueDecKey};
use std::marker::PhantomData;
use vstd::prelude::*;

use crate::arena::Key;
use crate::ordered::strategy::{weight_le, Length, Singleton, Strategy, StrategyItem, StrategyWeight};

verus! {

/// A binary heap of pairs of indices, each with a key; a pair is on it at most once.
#[verifier::external_body]
pub struct PairHeap {
    heap: DaryHeapWithMap<(usize, usize), u128, 2>,
}

/// No pair.
pub open spec fn no_nodes() -> Map<(usize, usize), u128> {
    Map::empty()
}

/// The pairs on a heap, each with its key.
pub uninterp spec fn heap_contents(h: PairHeap) -> Map<(usize, usize), u128>;

/// `DaryHeapWithMap::new`: an empty heap.
#[verifier::external_body]
fn heap_new() -> (r: PairHeap)
    ensures
        heap_contents(r) == no_nodes(),
{
    PairHeap { heap: DaryHeapWithMap::new() }
}

/// `Clone::clone` of `DaryHeapWithMap`: a heap with the same pairs and keys.
#[verifier::external_body]
fn heap_clone(h: &PairHeap) -> (r: PairHeap)
    ensures
        heap_contents(r) == heap_contents(*h),
{
    PairHeap { heap: h.heap.clone() }
}

/// `PriorityQueue::len`: the number of pairs on the heap.
#[verifier::external_body]
fn heap_len(h: &PairHeap) -> (r: usize)
    ensures
        r == heap_contents(*h).dom().len(),
{
    h.heap.len()
}

/// `PriorityQueue::push`: puts a pair that is not on the heap on it, with its key.
#[verifier::external_body]
fn heap_push(h: &mut PairHeap, node: (usize, usize), key: u128)
    requires
        !heap_contents(*old(h)).contains_key(node),
    ensures
        heap_contents(*final(h)) == heap_contents(*old(h)).insert(node, key),
{
    h.heap.push(node, key)
}

/// `PriorityQueue::pop`: takes a pair of the lowest key off the heap, with its key; nothing from
/// an empty heap.
#[verifier::external_body]
fn heap_pop(h: &mut PairHeap) -> (r: Option<((usize, usize), u128)>)
    ensures
        r is None <==> heap_contents(*old(h)).dom().len() == 0,
        r is None ==> heap_contents(*final(h)) == heap_contents(*old(h)),
        r matches Some((n, k)) ==> {
            &&& heap_contents(*old(h)).contains_key(n)
            &&& heap_contents(*old(h))[n] == k
            &&& forall|m: (usize, usize)| #[trigger] heap_contents(*old(h)).contains_key(m) ==> k <= heap_contents(*old(h))[m]
            &&& heap_contents(*final(h)) == heap_contents(*old(h)).remove(n)
        },
{
    h.heap.pop()
}

/// `PriorityQueueDecKey::update_key_or_push`: sets the key of a pair, putting it on the heap if
/// it is not there.
#[verifier::external_body]
fn heap_update_key_or_push(h: &mut PairHeap, node: (usize, usize), key: u128)
    ensures
        heap_contents(*final(h)) == heap_contents(*old(h)).insert(node, key),
{
    h.heap.update_key_or_push(&node, key);
}

/// `PriorityQueue::iter`: every pair on the heap with its key, once each.
#[verifier::external_body]
fn heap_items(h: &PairHeap) -> (r: Vec<((usize, usize), u128)>)
    ensures
        r@.len() == heap_contents(*h).dom().len(),
        forall|i: int| 0 <= i < r@.len() ==> heap_contents(*h).contains_key((#[trigger] r@[i]).0) && heap_contents(*h)[r@[i].0] == r@[i].1,
        forall|i: int, j: int| 0 <= i < j < r@.len() ==> (#[trigger] r@[i]).0 != (#[trigger] r@[j]).0,
        forall|n: (usize, usize)| #[trigger] heap_contents(*h).contains_key(n) ==> exists|i: int| 0 <= i < r@.len() && (#[trigger] r@[i]).0 == n,
{
    h.heap.iter().map(|x| *x).collect()
}

/// The key that orders a weight on the heap: a number as itself, `Infinity` above every number.
pub open spec fn weight_key(w: StrategyWeight) -> u128 {
    match w {
        StrategyWeight::Num(n) => n as u128,
        StrategyWeight::Infinity => 0x1_0000_0000_0000_0000,
    }
}

/// The weight that a key on the heap stands for.
pub open spec fn key_weight(k: u128) -> StrategyWeight {
    if k < 0x1_0000_0000_0000_0000 {
        StrategyWeight::Num(k as u64)
    } else {
        StrategyWeight::Infinity
    }
}

/// A weight is what its key stands for, and keys order as the weights they stand for.
pub proof fn lemma_weight_key(a: StrategyWeight, k: u128, l: u128)
    ensures
        key_weight(weight_key(a)) == a,
        k <= l ==> weight_le(key_weight(k), key_weight(l)),
{
}

fn key_of_weight(w: StrategyWeight) -> (r: u128)
    ensures
        r == weight_key(w),
{
    match w {
        StrategyWeight::Num(n) => n as u128,
        StrategyWeight::Infinity => 0x1_0000_0000_0000_0000u128,
    }
}

fn weight_of_key(k: u128) -> (r: StrategyWeight)
    ensures
        r == key_weight(k),
{
    if k < 0x1_0000_0000_0000_0000u128 {
        StrategyWeight::Num(k as u64)
    } else {
        StrategyWeight::Infinity
    }
}

/// A strategy held in a heap of `orx-priority-queue`: each value at most once, with its weight.
pub struct OrxStrategy<T, H>(H, PhantomData<T>);

/// The indices of a pair of keys.
pub open spec fn node_of<K: Key>(p: (K, K)) -> (usize, usize) {
    (p.0.key_index(), p.1.key_index())
}

impl<K: Key> View for OrxStrategy<(K, K), PairHeap> {
    type V = Map<(usize, usize), StrategyWeight>;

    /// The weight of each pair, by the indices of its keys.
    closed spec fn view(&self) -> Map<(usize, usize), StrategyWeight> {
        heap_contents(self.0).map_values(|k: u128| key_weight(k))
    }
}

impl<K: Key> OrxStrategy<(K, K), PairHeap> {
    pub fn new() -> (r: Self)
        ensures
            r@ == Map::<(usize, usize), StrategyWeight>::empty(),
    {
        let r = OrxStrategy(heap_new(), PhantomData);
        proof {
            assert(r@ =~= Map::<(usize, usize), StrategyWeight>::empty());
        }
        r
    }

    /// A copy of the strategy.
    pub fn duplicate(&self) -> (r: Self)
        ensures
            r@ == self@,
    {
        OrxStrategy(heap_clone(&self.0), PhantomData)
    }

    /// Every pair with its weight, once each.
    pub fn iter(&self) -> (r: Vec<StrategyItem<(K, K)>>)
        ensures
            r@.len() == self@.dom().len(),
            forall|i: int| 0 <= i < r@.len() ==> self@.contains_key(node_of((#[trigger] r@[i]).1)) && self@[node_of(r@[i].1)] == r@[i].0,
            forall|i: int, j: int| 0 <= i < j < r@.len() ==> node_of((#[trigger] r@[i]).1) != node_of((#[trigger] r@[j]).1),
            forall|n: (usize, usize)| #[trigger] self@.contains_key(n) ==> exists|i: int| 0 <= i < r@.len() && node_of((#[trigger] r@[i]).1) == n,
    {
        let items = heap_items(&self.0);
        let ghost c = heap_contents(self.0);
        let mut r: Vec<StrategyItem<(K, K)>> = Vec::new();
        let mut j: usize = 0;
        while j < items.len()
            invariant
                0 <= j <= items@.len(),
                c == heap_contents(self.0),
                r@.len() == j,
                forall|i: int| 0 <= i < j ==> #[trigger] node_of(r@[i].1) == items@[i].0 && r@[i].0 == key_weight(items@[i].1),
            decreases items@.len() - j,
        {
            let ((a, b), k) = items[j];
            let x = K::from_index(a);
            let y = K::from_index(b);
            let w = weight_of_key(k);
            r.push(StrategyItem(w, (x, y)));
            proof {
                assert(node_of(r@[j as int].1) == items@[j as int].0);
            }
            j = j + 1;
        }
        proof {
            assert(self@.dom() =~= c.dom());
            assert forall|i: int| 0 <= i < r@.len() implies self@.contains_key(node_of((#[trigger] r@[i]).1)) && self@[node_of(
                r@[i].1,
            )] == r@[i].0 by {
                assert(node_of(r@[i].1) == items@[i].0);
                assert(c.contains_key(items@[i].0));
            }
            assert forall|i: int, m: int| 0 <= i < m < r@.len() implies node_of((#[trigger] r@[i]).1) != node_of(
                (#[trigger] r@[m]).1,
            ) by {
                assert(node_of(r@[i].1) == items@[i].0);
                assert(node_of(r@[m].1) == items@[m].0);
                assert(items@[i].0 != items@[m].0);
            }
            assert forall|n: (usize, usize)| #[trigger] self@.contains_key(n) implies exists|i: int|
                0 <= i < r@.len() && node_of((#[trigger] r@[i]).1) == n by {
                assert(c.contains_key(n));
                let i = choose|i: int| 0 <= i < items@.len() && (#[trigger] items@[i]).0 == n;
                assert(node_of(r@[i].1) == items@[i].0);
            }
        }
        r
    }

    /// Set the weight of a pair, adding it where it is not in the strategy.
    pub fn update_key_or_push(&mut self, pair: (K, K), weight: StrategyWeight)
        ensures
            final(self)@ == old(self)@.insert(node_of(pair), weight),
    {
        let node = (pair.0.index(), pair.1.index());
        heap_update_key_or_push(&mut self.0, node, key_of_weight(weight));
        proof {
            lemma_weight_key(weight, 0, 0);
            assert(self@ =~= old(self)@.insert(node_of(pair), weight));
        }
    }

    /// Give every pair the weight `Infinity`.
    pub fn reset_weights(&mut self)
        ensures
            final(self)@.dom() == old(self)@.dom(),
            forall|n: (usize, usize)| #[trigger] final(self)@.contains_key(n) ==> final(self)@[n] == StrategyWeight::Infinity,
    {
        let items = heap_items(&self.0);
        let ghost start = self@;
        let mut j: usize = 0;
        while j < items.len()
            invariant
                0 <= j <= items@.len(),
                items@.len() == heap_contents(old(self).0).dom().len(),
                forall|i: int| 0 <= i < items@.len() ==> heap_contents(old(self).0).contains_key((#[trigger] items@[i]).0),
                forall|n: (usize, usize)| #[trigger] heap_contents(old(self).0).contains_key(n) ==> exists|i: int|
                    0 <= i < items@.len() && (#[trigger] items@[i]).0 == n,
                start == old(self)@,
                self@.dom() == start.dom(),
                forall|n: (usize, usize)| #[trigger] self@.contains_key(n) ==> self@[n] == StrategyWeight::Infinity || !(exists|i: int|
                    0 <= i < j && (#[trigger] items@[i]).0 == n),
            decreases items@.len() - j,
        {
            let node = items[j].0;
            heap_update_key_or_push(&mut self.0, node, 0x1_0000_0000_0000_0000u128);
            proof {
                assert(heap_contents(old(self).0).contains_key(items@[j as int].0));
                assert(self@.dom() =~= start.dom());
                assert forall|n: (usize, usize)| #[trigger] self@.contains_key(n) implies self@[n] == StrategyWeight::Infinity || !(exists|i: int|
                    0 <= i < j + 1 && (#[trigger] items@[i]).0 == n) by {
                    if n != node {
                        if exists|i: int| 0 <= i < j + 1 && (#[trigger] items@[i]).0 == n {
                            let i = choose|i: int| 0 <= i < j + 1 && (#[trigger] items@[i]).0 == n;
                            assert(i < j);
                        }
                    }
                }
            }
            j = j + 1;
        }
        proof {
            assert forall|n: (usize, usize)| #[trigger] self@.contains_key(n) implies self@[n] == StrategyWeight::Infinity by {
                assert(start.contains_key(n));
                assert(heap_contents(old(self).0).contains_key(n));
            }
        }
    }
}

impl<K: Key> Default for OrxStrategy<(K, K), PairHeap> {
    fn default() -> (r: Self)
        ensures
            r@ == Map::<(usize, usize), StrategyWeight>::empty(),
    {
        Self::new()
    }
}

impl<K: Key> Clone for OrxStrategy<(K, K), PairHeap> {
    fn clone(&self) -> (r: Self)
        ensures
            r@ == self@,
    {
        self.duplicate()
    }
}

impl<K: Key> Strategy<(K, K)> for OrxStrategy<(K, K), PairHeap> {
    /// Take a pair of the lowest weight out of the strategy.
    fn extract_min(&mut self) -> (r: Option<(K, K)>)
        ensures
            r is None <==> old(self)@.dom().len() == 0,
            r is None ==> final(self)@ == old(self)@,
            r matches Some(p) ==> {
                &&& old(self)@.contains_key(node_of(p))
                &&& forall|n: (usize, usize)| #[trigger] old(self)@.contains_key(n) ==> weight_le(old(self)@[node_of(p)], old(self)@[n])
                &&& final(self)@ == old(self)@.remove(node_of(p))
            },
    {
        let ghost c = heap_contents(self.0);
        match heap_pop(&mut self.0) {
            None => {
                proof {
                    assert(old(self)@.dom() =~= c.dom());
                }
                None
            },
            Some(((a, b), k)) => {
                let p = (K::from_index(a), K::from_index(b));
                proof {
                    assert(node_of(p) == (a, b));
                    assert(old(self)@.dom() =~= c.dom());
                    assert forall|n: (usize, usize)| #[trigger] old(self)@.contains_key(n) implies weight_le(
                        old(self)@[node_of(p)],
                        old(self)@[n],
                    ) by {
                        lemma_weight_key(StrategyWeight::Infinity, k, c[n]);
                    }
                    assert(self@ =~= old(self)@.remove(node_of(p)));
                }
                Some(p)
            },
        }
    }
}

impl<K: Key> Length for OrxStrategy<(K, K), PairHeap> {
    fn length(&self) -> (r: usize)
        ensures
            r == self@.dom().len(),
    {
        let r = heap_len(&self.0);
        proof {
            assert(self@.dom() =~= heap_contents(self.0).dom());
        }
        r
    }
}

impl<K: Key> Singleton<(K, K)> for OrxStrategy<(K, K), PairHeap> {
    fn singleton(x: (K, K)) -> (r: Self)
        ensures
            r@ == Map::<(usize, usize), StrategyWeight>::empty().insert(node_of(x), StrategyWeight::Infinity),
    {
        let mut h = heap_new();
        heap_push(&mut h, (x.0.index(), x.1.index()), 0x1_0000_0000_0000_0000u128);
        let r = OrxStrategy(h, PhantomData);
        proof {
            assert(r@ =~= Map::<(usize, usize), StrategyWeight>::empty().insert(node_of(x), StrategyWeight::Infinity));
        }
        r
    }
}

} // verus!
