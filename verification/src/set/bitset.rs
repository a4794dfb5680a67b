pub mod raw;
pub mod relation;

pub use relation::{BitsetRelation, BitsetRelationOrder, DEFAULT_RELATION_ORDER};

use rand::Rng;
use std::marker::PhantomData;
use vstd::prelude::*;

use crate::{
    arena::{indices_of, Key}, Cartesian, CopiedIter, Diagonal, DifferenceWith, Extract, Intersect, IsSubset, SetOps, Union, UnionWith, Without,
};

use self::raw::{RawBitSet, SetMethods};

verus! {

/// `rand::Rng::random_range(0..n)` on the thread-local generator: some index below `n`.
#[verifier::external_body]
fn random_below(n: usize) -> (r: usize)
    requires
        n > 0,
    ensures
        r < n,
{
    rand::rng().random_range(0..n)
}

/// A set of keys, held as the set of their indices.
#[derive(Debug)]
pub struct BitSet<K> {
    bitset: RawBitSet,
    _phantom_data: PhantomData<K>,
}

impl<K> View for BitSet<K> {
    type V = Set<usize>;

    /// The indices of the keys in the set.
    closed spec fn view(&self) -> Set<usize> {
        self.bitset@
    }
}

impl<K> BitSet<K> {
    pub closed spec fn raw(self) -> RawBitSet {
        self.bitset
    }

    pub fn new() -> (r: Self)
        ensures
            r@ == Set::<usize>::empty(),
    {
        BitSet { bitset: RawBitSet::new(), _phantom_data: PhantomData }
    }

    /// The set over the indices of a raw bit set.
    pub fn from_raw(bitset: RawBitSet) -> (r: Self)
        ensures
            r@ == bitset@,
            r.raw() == bitset,
    {
        BitSet { bitset, _phantom_data: PhantomData }
    }

    /// The indices of the set as a raw bit set.
    pub fn into_raw(self) -> (r: RawBitSet)
        ensures
            r@ == self@,
            r == self.raw(),
    {
        self.bitset
    }

    /// The indices of the set as a raw bit set.
    pub fn as_raw(&self) -> (r: &RawBitSet)
        ensures
            r@ == self@,
            *r == self.raw(),
    {
        &self.bitset
    }

    /// Create a `BitSet` with `count` keys, all in the set
    pub fn full(count: usize) -> (r: Self)
        ensures
            r@ == Set::new(|i: usize| i < count),
    {
        BitSet { bitset: RawBitSet::full(count), _phantom_data: PhantomData }
    }
}

impl<K: Key> BitSet<K> {
    /// The set of the given keys.
    pub fn from_keys(keys: Vec<K>) -> (r: Self)
        requires
            forall|i: int| 0 <= i < keys@.len() ==> #[trigger] keys@[i].key_index() < usize::MAX,
        ensures
            r@ == indices_of(keys@).to_set(),
    {
        let mut bitset = RawBitSet::new();
        let mut j: usize = 0;
        while j < keys.len()
            invariant
                0 <= j <= keys@.len(),
                forall|i: int| 0 <= i < keys@.len() ==> #[trigger] keys@[i].key_index() < usize::MAX,
                bitset@ == indices_of(keys@.subrange(0, j as int)).to_set(),
            decreases keys@.len() - j,
        {
            let i = keys[j].index();
            bitset.insert(i);
            proof {
                assert(indices_of(keys@.subrange(0, j + 1)) =~= indices_of(keys@.subrange(0, j as int)).push(i));
                indices_of(keys@.subrange(0, j as int)).lemma_push_to_set_commute(i);
            }
            j = j + 1;
        }
        proof {
            assert(keys@.subrange(0, keys@.len() as int) =~= keys@);
        }
        BitSet { bitset, _phantom_data: PhantomData }
    }

    /// The set of the keys in an array.
    pub fn from<const N: usize>(value: [K; N]) -> (r: Self)
        requires
            forall|i: int| 0 <= i < N ==> #[trigger] value@[i].key_index() < usize::MAX,
        ensures
            r@ == indices_of(value@).to_set(),
    {
        let mut keys: Vec<K> = Vec::new();
        let mut j: usize = 0;
        while j < N
            invariant
                0 <= j <= N,
                value@.len() == N,
                keys@ == value@.subrange(0, j as int),
            decreases N - j,
        {
            keys.push(value[j]);
            j = j + 1;
        }
        proof {
            assert(value@.subrange(0, N as int) =~= value@);
        }
        BitSet::from_keys(keys)
    }

    /// Whether the key's index is in the set.
    pub fn contains_key(&self, item: &K) -> (r: bool)
        ensures
            r == self@.contains(item.key_index()),
    {
        self.bitset.contains(&item.index())
    }

    /// The keys of the set, once each, in increasing order of their indices.
    pub fn keys(&self) -> (r: Vec<K>)
        ensures
            indices_of(r@).to_set() == self@,
            indices_of(r@).no_duplicates(),
            r@.len() == self@.len(),
            forall|i: int| 0 <= i < r@.len() ==> (#[trigger] r@[i]).key_index() < usize::MAX,
            forall|i: int, j: int| 0 <= i < j < r@.len() ==> (#[trigger] r@[i]).key_index() < (#[trigger] r@[j]).key_index(),
    {
        let indices = self.bitset.to_vec();
        let mut r: Vec<K> = Vec::new();
        let mut j: usize = 0;
        while j < indices.len()
            invariant
                0 <= j <= indices@.len(),
                indices_of(r@) == indices@.subrange(0, j as int),
                forall|i: int| 0 <= i < indices@.len() ==> #[trigger] indices@[i] < usize::MAX,
            decreases indices@.len() - j,
        {
            let k = K::from_index(indices[j]);
            let ghost prev = r@;
            r.push(k);
            proof {
                assert(r@ == prev.push(k));
                assert(indices_of(prev).len() == j);
                assert(indices_of(r@).len() == j + 1);
                assert(indices_of(r@)[j as int] == k.key_index());
                assert forall|i: int| 0 <= i < j + 1 implies #[trigger] indices_of(r@)[i]
                    == indices@.subrange(0, j + 1)[i] by {
                    if i < j {
                        assert(indices_of(prev)[i] == indices@.subrange(0, j as int)[i]);
                    }
                }
                assert(indices_of(r@) =~= indices@.subrange(0, j + 1));
            }
            j = j + 1;
        }
        proof {
            assert(indices@.subrange(0, indices@.len() as int) =~= indices@);
            indices@.unique_seq_to_set();
            assert forall|i: int| 0 <= i < r@.len() implies (#[trigger] r@[i]).key_index() < usize::MAX by {
                assert(indices_of(r@)[i] == r@[i].key_index());
            }
            assert forall|i: int, j: int| 0 <= i < j < r@.len() implies (#[trigger] r@[i]).key_index() < (
            #[trigger] r@[j]).key_index() by {
                assert(indices_of(r@)[i] == r@[i].key_index());
                assert(indices_of(r@)[j] == r@[j].key_index());
            }
        }
        r
    }
}

impl<K> Clone for BitSet<K> {
    fn clone(&self) -> (r: Self)
        ensures
            r@ == self@,
    {
        BitSet { bitset: self.bitset.clone(), _phantom_data: PhantomData }
    }
}

impl<K> Default for BitSet<K> {
    fn default() -> (r: Self)
        ensures
            r@ == Set::<usize>::empty(),
    {
        BitSet::new()
    }
}

impl<K> PartialEq for BitSet<K> {
    fn eq(&self, other: &Self) -> (r: bool) {
        self.bitset.same_as(&other.bitset)
    }
}

impl<K> Eq for BitSet<K> {}

impl<K> vstd::std_specs::cmp::PartialEqSpecImpl for BitSet<K> {
    open spec fn obeys_eq_spec() -> bool {
        true
    }

    open spec fn eq_spec(&self, other: &Self) -> bool {
        self@ == other@
    }
}

impl<K: Key> Extract<K> for BitSet<K> {
    fn extract(&mut self) -> (r: Option<K>)
        ensures
            r.is_none() == (old(self)@ == Set::<usize>::empty()),
            r.is_none() ==> final(self)@ == old(self)@,
            r.is_some() ==> old(self)@.contains(r.unwrap().key_index()),
            r.is_some() ==> final(self)@ == old(self)@.remove(r.unwrap().key_index()),
    {
        if self.bitset.is_empty() {
            return None;
        }
        let n = self.bitset.len();
        proof {
            use_type_invariant(&self.bitset);
            self.bitset.lemma_view();
            if n == 0 {
                assert(self@ =~= Set::<usize>::empty());
            }
        }
        let random_index = random_below(n);
        let keys = self.keys();
        let removed = keys[random_index];
        proof {
            assert(indices_of(keys@)[random_index as int] == removed.key_index());
            assert(indices_of(keys@).to_set().contains(removed.key_index()));
        }
        self.bitset.remove(&removed.index());
        Some(removed)
    }
}

impl<K: Key> CopiedIter<K> for BitSet<K> {
    /// The keys of the set, once each, in increasing order of their indices.
    fn copied_iter(&self) -> (r: Vec<K>)
        ensures
            indices_of(r@).to_set() == self@,
            indices_of(r@).no_duplicates(),
            forall|i: int| 0 <= i < r@.len() ==> (#[trigger] r@[i]).key_index() < usize::MAX,
            forall|i: int, j: int| 0 <= i < j < r@.len() ==> (#[trigger] r@[i]).key_index() < (#[trigger] r@[j]).key_index(),
    {
        self.keys()
    }
}

impl<K: Key> SetOps<K> for BitSet<K> {
    open spec fn insertable(&self, item: K) -> bool {
        item.key_index() < usize::MAX
    }

    fn contains(&self, item: &K) -> (r: bool)
        ensures
            r == self@.contains(item.key_index()),
    {
        self.bitset.contains(&item.index())
    }

    /// Insert a key, returning whether it was already in the set.
    fn insert(&mut self, item: K) -> (r: bool)
        ensures
            r == old(self)@.contains(item.key_index()),
            final(self)@ == old(self)@.insert(item.key_index()),
    {
        self.bitset.insert(item.index())
    }

    /// Remove a key, returning whether it was in the set.
    fn remove(&mut self, x: &K) -> (r: bool)
        ensures
            r == old(self)@.contains(x.key_index()),
            final(self)@ == old(self)@.remove(x.key_index()),
    {
        self.bitset.remove(&x.index())
    }

    fn len(&self) -> (r: usize)
        ensures
            r == self@.len(),
            self@.finite(),
    {
        proof {
            use_type_invariant(&self.bitset);
            self.bitset.lemma_view();
        }
        self.bitset.len()
    }

    fn is_empty(&self) -> (r: bool)
        ensures
            r == (self@ == Set::<usize>::empty()),
    {
        self.bitset.is_empty()
    }
}

impl<K> Union for BitSet<K> {
    fn union(self, other: Self) -> (r: Self)
        ensures
            r@ == self@.union(other@),
    {
        let mut s = self;
        s.bitset.union_with_ref(&other.bitset);
        s
    }
}

impl<'a, K> Union<&'a BitSet<K>> for BitSet<K> {
    fn union(self, other: &'a BitSet<K>) -> (r: Self)
        ensures
            r@ == self@.union(other@),
    {
        let mut s = self;
        s.bitset.union_with_ref(&other.bitset);
        s
    }
}

impl<K> UnionWith for BitSet<K> {
    fn union_with(&mut self, other: Self)
        ensures
            final(self)@ == old(self)@.union(other@),
    {
        self.bitset.union_with_ref(&other.bitset);
    }
}

impl<'a, K> UnionWith<&'a BitSet<K>> for BitSet<K> {
    fn union_with(&mut self, other: &'a BitSet<K>)
        ensures
            final(self)@ == old(self)@.union(other@),
    {
        self.bitset.union_with_ref(&other.bitset);
    }
}

impl<K> Intersect for BitSet<K> {
    fn intersect(self, other: &Self) -> (r: Self)
        ensures
            r@ == self@.intersect(other@),
    {
        let mut s = self;
        s.bitset.intersect_with_ref(&other.bitset);
        s
    }
}

impl<K> DifferenceWith for BitSet<K> {
    fn difference_with(&mut self, other: &Self)
        ensures
            final(self)@ == old(self)@.difference(other@),
    {
        self.bitset.difference_with_ref(&other.bitset);
    }
}

impl<K> Without for BitSet<K> {
    fn without(self, other: &Self) -> (r: Self)
        ensures
            r@ == self@.difference(other@),
    {
        let mut s = self;
        s.bitset.difference_with_ref(&other.bitset);
        s
    }
}

impl<K: Key> IsSubset for BitSet<K> {
    /// Whether every key of `self` is in `other`.
    fn is_subset(&self, other: &Self) -> (r: bool)
        ensures
            r == self@.subset_of(other@),
    {
        let keys = self.keys();
        let mut j: usize = 0;
        while j < keys.len()
            invariant
                0 <= j <= keys@.len(),
                indices_of(keys@).to_set() == self@,
                forall|i: int| 0 <= i < j ==> other@.contains(#[trigger] indices_of(keys@)[i]),
            decreases keys@.len() - j,
        {
            if !other.contains_key(&keys[j]) {
                proof {
                    assert(indices_of(keys@)[j as int] == keys@[j as int].key_index());
                    assert(indices_of(keys@).to_set().contains(keys@[j as int].key_index()));
                }
                return false;
            }
            proof {
                assert(indices_of(keys@)[j as int] == keys@[j as int].key_index());
            }
            j = j + 1;
        }
        proof {
            assert forall|i: usize| #[trigger] self@.contains(i) implies other@.contains(i) by {
                assert(indices_of(keys@).to_set().contains(i));
                let k = choose|k: int| 0 <= k < indices_of(keys@).len() && indices_of(keys@)[k] == i;
            }
        }
        true
    }
}

impl<K: Key, O: Key> Cartesian<BitSet<O>> for BitSet<K> {
    type Output = BitsetRelation<K, O>;

    fn cartesian(&self, other: &BitSet<O>) -> (r: BitsetRelation<K, O>)
        ensures
            r@ == Set::new(|p: (usize, usize)| self@.contains(p.0) && other@.contains(p.1)),
            r.order_spec() == DEFAULT_RELATION_ORDER,
    {
        BitsetRelation::new_from_cartesian_raw(&self.bitset, &other.bitset, DEFAULT_RELATION_ORDER)
    }
}

impl<K: Key> Diagonal for BitSet<K> {
    type Output = BitsetRelation<K, K>;

    fn diagonal(&self) -> (r: BitsetRelation<K, K>)
        ensures
            r@ == Set::new(|p: (usize, usize)| self@.contains(p.0) && p.1 == p.0),
    {
        let indices = self.bitset.to_vec();
        let mut rel = BitsetRelation::new(DEFAULT_RELATION_ORDER);
        let mut j: usize = 0;
        while j < indices.len()
            invariant
                0 <= j <= indices@.len(),
                forall|i: int| 0 <= i < indices@.len() ==> #[trigger] indices@[i] < usize::MAX,
                rel@ == Set::new(|p: (usize, usize)| indices@.subrange(0, j as int).contains(p.0) && p.1 == p.0),
            decreases indices@.len() - j,
        {
            let i = indices[j];
            rel.insert((K::from_index(i), K::from_index(i)));
            proof {
                let sub = indices@.subrange(0, j as int);
                assert(indices@.subrange(0, j + 1) =~= sub.push(i));
                assert forall|x: usize| #[trigger] sub.push(i).contains(x) <==> (sub.contains(x) || x == i) by {
                    vstd::seq_lib::lemma_seq_contains_after_push(sub, i, x);
                }
                assert(rel@ =~= Set::new(|p: (usize, usize)| indices@.subrange(0, j + 1).contains(p.0) && p.1 == p.0));
            }
            j = j + 1;
        }
        proof {
            assert(indices@.subrange(0, indices@.len() as int) =~= indices@);
            assert forall|x: usize| #[trigger] indices@.contains(x) <==> self@.contains(x) by {
                assert(indices@.to_set().contains(x) == indices@.contains(x));
            }
            assert(rel@ =~= Set::new(|p: (usize, usize)| self@.contains(p.0) && p.1 == p.0));
        }
        rel
    }
}
} // verus!
