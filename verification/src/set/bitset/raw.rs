use fixedbitset::FixedBitSet;
use vstd::std_specs::cmp::PartialEqSpecImpl;
use vstd::prelude::*;

use crate::{
    CopiedIter, DifferenceWith, Intersect, IntersectWith, SetOps, Union, UnionWith, Without,
};

verus! {

#[verifier::external_type_specification]
#[verifier::external_body]
pub struct ExFixedBitSet(FixedBitSet);

/// Every bit that is set in the blocks of a `FixedBitSet`, inside or outside its length.
pub uninterp spec fn fbs_ones(s: FixedBitSet) -> Set<usize>;

/// The length in bits of a `FixedBitSet` (set and unset bits together).
pub uninterp spec fn fbs_len(s: FixedBitSet) -> usize;

/// `FixedBitSet::new`: no bit is set and the length is zero.
#[verifier::external_body]
fn fbs_new() -> (r: FixedBitSet)
    ensures
        fbs_ones(r) == Set::<usize>::empty(),
        fbs_len(r) == 0,
{
    FixedBitSet::new()
}

/// `FixedBitSet::with_capacity`: `bits` bits, none of them set.
#[verifier::external_body]
fn fbs_with_capacity(bits: usize) -> (r: FixedBitSet)
    ensures
        fbs_ones(r) == Set::<usize>::empty(),
        fbs_len(r) == bits,
{
    FixedBitSet::with_capacity(bits)
}

/// `FixedBitSet::len`: the length in bits.
#[verifier::external_body]
fn fbs_length(s: &FixedBitSet) -> (r: usize)
    ensures
        r == fbs_len(*s),
{
    s.len()
}

/// `FixedBitSet::grow_and_insert`: sets bit `i`, growing the length to at least `i + 1`; the
/// bits that were set stay set.
#[verifier::external_body]
fn fbs_grow_and_insert(s: &mut FixedBitSet, i: usize)
    requires
        i < usize::MAX,
    ensures
        fbs_ones(*final(s)) == fbs_ones(*old(s)).insert(i),
        fbs_len(*final(s)) == if fbs_len(*old(s)) > i + 1 {
            fbs_len(*old(s))
        } else {
            (i + 1) as usize
        },
{
    s.grow_and_insert(i)
}

/// `FixedBitSet::contains`: whether bit `i` is set and below the length.
#[verifier::external_body]
fn fbs_contains(s: &FixedBitSet, i: usize) -> (r: bool)
    ensures
        r == (i < fbs_len(*s) && fbs_ones(*s).contains(i)),
{
    s.contains(i)
}

/// `FixedBitSet::remove`: clears bit `i`, which must lie below the length (the crate panics
/// otherwise).
#[verifier::external_body]
fn fbs_remove(s: &mut FixedBitSet, i: usize)
    requires
        i < fbs_len(*old(s)),
    ensures
        fbs_ones(*final(s)) == fbs_ones(*old(s)).remove(i),
        fbs_len(*final(s)) == fbs_len(*old(s)),
{
    s.remove(i)
}

/// `FixedBitSet::insert_range(..)`: sets every bit below the length.
#[verifier::external_body]
fn fbs_insert_all(s: &mut FixedBitSet)
    ensures
        fbs_ones(*final(s)) == fbs_ones(*old(s)).union(Set::new(|i: usize| i < fbs_len(*old(s)))),
        fbs_len(*final(s)) == fbs_len(*old(s)),
{
    s.insert_range(..)
}

/// `FixedBitSet::remove_range(start..)`: clears every bit from `start` up to the length;
/// `start` must not exceed the length (the crate panics otherwise).
#[verifier::external_body]
fn fbs_remove_from(s: &mut FixedBitSet, start: usize)
    requires
        start <= fbs_len(*old(s)),
    ensures
        fbs_ones(*final(s)) == fbs_ones(*old(s)).difference(
            Set::new(|i: usize| start <= i < fbs_len(*old(s))),
        ),
        fbs_len(*final(s)) == fbs_len(*old(s)),
{
    s.remove_range(start..)
}

/// `FixedBitSet::count_ones(..)`: the number of set bits below the length.
#[verifier::external_body]
fn fbs_count_ones(s: &FixedBitSet) -> (r: usize)
    ensures
        r == fbs_ones(*s).intersect(Set::new(|i: usize| i < fbs_len(*s))).len(),
{
    s.count_ones(..)
}

/// `FixedBitSet::is_clear`: whether no bit is set in any block.
#[verifier::external_body]
fn fbs_is_clear(s: &FixedBitSet) -> (r: bool)
    ensures
        r == (fbs_ones(*s) == Set::<usize>::empty()),
{
    s.is_clear()
}

/// `FixedBitSet::maximum`: the highest set bit, if any bit is set.
#[verifier::external_body]
fn fbs_maximum(s: &FixedBitSet) -> (r: Option<usize>)
    ensures
        r.is_none() == (fbs_ones(*s) == Set::<usize>::empty()),
        r.is_some() ==> fbs_ones(*s).contains(r.unwrap()),
        r.is_some() ==> forall|i: usize| #[trigger] fbs_ones(*s).contains(i) ==> i <= r.unwrap(),
{
    s.maximum()
}

/// `FixedBitSet::clear`: clears every bit; the length stays.
#[verifier::external_body]
fn fbs_clear(s: &mut FixedBitSet)
    ensures
        fbs_ones(*final(s)) == Set::<usize>::empty(),
        fbs_len(*final(s)) == fbs_len(*old(s)),
{
    s.clear()
}

/// `FixedBitSet::union_with`: the bits of both; the length becomes the larger of the two.
#[verifier::external_body]
fn fbs_union_with(s: &mut FixedBitSet, other: &FixedBitSet)
    ensures
        fbs_ones(*final(s)) == fbs_ones(*old(s)).union(fbs_ones(*other)),
        fbs_len(*final(s)) == if fbs_len(*other) >= fbs_len(*old(s)) {
            fbs_len(*other)
        } else {
            fbs_len(*old(s))
        },
{
    s.union_with(other)
}

/// `FixedBitSet::intersect_with`: the bits set in both; the length stays.
#[verifier::external_body]
fn fbs_intersect_with(s: &mut FixedBitSet, other: &FixedBitSet)
    ensures
        fbs_ones(*final(s)) == fbs_ones(*old(s)).intersect(fbs_ones(*other)),
        fbs_len(*final(s)) == fbs_len(*old(s)),
{
    s.intersect_with(other)
}

/// `FixedBitSet::difference_with`: the bits of `s` that are not set in `other`; the length
/// stays.
#[verifier::external_body]
fn fbs_difference_with(s: &mut FixedBitSet, other: &FixedBitSet)
    ensures
        fbs_ones(*final(s)) == fbs_ones(*old(s)).difference(fbs_ones(*other)),
        fbs_len(*final(s)) == fbs_len(*old(s)),
{
    s.difference_with(other)
}

/// `FixedBitSet::ones`, collected: every set bit once, in increasing order.
#[verifier::external_body]
fn fbs_ones_vec(s: &FixedBitSet) -> (r: Vec<usize>)
    ensures
        r@.to_set() == fbs_ones(*s),
        forall|i: int, j: int| 0 <= i < j < r@.len() ==> r@[i] < r@[j],
{
    s.ones().collect()
}

/// `FixedBitSet::clone`: the same bits and the same length.
#[verifier::external_body]
fn fbs_clone(s: &FixedBitSet) -> (r: FixedBitSet)
    ensures
        fbs_ones(r) == fbs_ones(*s),
        fbs_len(r) == fbs_len(*s),
{
    s.clone()
}

/// A set of indices held in a `FixedBitSet`; no bit at or above the length is ever set.
#[derive(Debug)]
pub struct RawBitSet {
    bitset: FixedBitSet,
}

impl View for RawBitSet {
    type V = Set<usize>;

    closed spec fn view(&self) -> Set<usize> {
        fbs_ones(self.bitset)
    }
}

/// Methods of the bit set itself beyond those of a set.
pub trait SetMethods: Sized {
    /// Create a `RawBitSet` with `count` keys, all in the set
    fn full(count: usize) -> Self;

    fn clear(&mut self);

    /// Get the index of the last one in the set
    fn last_one(&self) -> usize;
}

impl RawBitSet {
    #[verifier::type_invariant]
    pub closed spec fn inv(self) -> bool {
        &&& fbs_ones(self.bitset).finite()
        &&& forall|i: usize| #[trigger] fbs_ones(self.bitset).contains(i) ==> i < fbs_len(self.bitset)
    }

    /// One more than the largest index the set may hold without growing.
    pub closed spec fn bound(self) -> usize {
        fbs_len(self.bitset)
    }

    pub proof fn lemma_view(self)
        requires
            self.inv(),
        ensures
            self@.finite(),
            forall|i: usize| #[trigger] self@.contains(i) ==> i < self.bound(),
    {
    }

    /// Moves the bits out, leaving an empty set behind.
    fn take_bits(&mut self) -> (b: FixedBitSet)
        ensures
            b == old(self).bitset,
            final(self)@ == Set::<usize>::empty(),
            fbs_ones(b).finite(),
            forall|i: usize| #[trigger] fbs_ones(b).contains(i) ==> i < fbs_len(b),
    {
        proof { use_type_invariant(&*self); }
        let mut b = fbs_new();
        std::mem::swap(&mut self.bitset, &mut b);
        b
    }

    pub fn new() -> (r: Self)
        ensures
            r@ == Set::<usize>::empty(),
    {
        RawBitSet { bitset: fbs_new() }
    }

    /// The set of the given indices.
    pub fn from_indices(indices: Vec<usize>) -> (r: Self)
        requires
            forall|i: int| 0 <= i < indices@.len() ==> indices@[i] < usize::MAX,
        ensures
            r@ == indices@.to_set(),
    {
        let mut b = fbs_new();
        let mut k: usize = 0;
        while k < indices.len()
            invariant
                0 <= k <= indices@.len(),
                forall|i: int| 0 <= i < indices@.len() ==> indices@[i] < usize::MAX,
                fbs_ones(b) == indices@.subrange(0, k as int).to_set(),
                forall|i: usize| #[trigger] fbs_ones(b).contains(i) ==> i < fbs_len(b),
            decreases indices@.len() - k,
        {
            let i = indices[k];
            fbs_grow_and_insert(&mut b, i);
            proof {
                assert(indices@.subrange(0, k + 1) =~= indices@.subrange(0, k as int).push(i));
                indices@.subrange(0, k as int).lemma_push_to_set_commute(i);
            }
            k = k + 1;
        }
        proof {
            assert(indices@.subrange(0, indices@.len() as int) =~= indices@);
            vstd::seq_lib::seq_to_set_is_finite(indices@);
        }
        RawBitSet { bitset: b }
    }

    pub fn contains(&self, item: &usize) -> (r: bool)
        ensures
            r == self@.contains(*item),
    {
        proof { use_type_invariant(self); }
        fbs_contains(&self.bitset, *item)
    }

    /// Insert an index, returning whether it was already in the set.
    pub fn insert(&mut self, item: usize) -> (r: bool)
        requires
            item < usize::MAX,
        ensures
            r == old(self)@.contains(item),
            final(self)@ == old(self)@.insert(item),
    {
        proof { use_type_invariant(&*self); }
        let ret = fbs_contains(&self.bitset, item);
        let mut b = self.take_bits();
        fbs_grow_and_insert(&mut b, item);
        self.bitset = b;
        ret
    }

    /// Remove an index, returning whether it was in the set.
    pub fn remove(&mut self, item: &usize) -> (r: bool)
        ensures
            r == old(self)@.contains(*item),
            final(self)@ == old(self)@.remove(*item),
    {
        proof { use_type_invariant(&*self); }
        if fbs_contains(&self.bitset, *item) {
            let mut b = self.take_bits();
            fbs_remove(&mut b, *item);
            self.bitset = b;
            true
        } else {
            proof { assert(old(self)@.remove(*item) =~= old(self)@); }
            false
        }
    }

    /// The number of indices in the set.
    pub fn len(&self) -> (r: usize)
        ensures
            r == self@.len(),
    {
        proof {
            use_type_invariant(self);
            assert(fbs_ones(self.bitset).intersect(Set::new(|i: usize| i < fbs_len(self.bitset)))
                =~= fbs_ones(self.bitset));
        }
        fbs_count_ones(&self.bitset)
    }

    pub fn is_empty(&self) -> (r: bool)
        ensures
            r == (self@ == Set::<usize>::empty()),
    {
        fbs_is_clear(&self.bitset)
    }

    /// Add every index of `other`.
    pub fn union_with_ref(&mut self, other: &Self)
        ensures
            final(self)@ == old(self)@.union(other@),
    {
        proof {
            use_type_invariant(&*self);
            use_type_invariant(other);
        }
        let mut b = self.take_bits();
        fbs_union_with(&mut b, &other.bitset);
        self.bitset = b;
    }

    /// Keep only the indices that are also in `other`.
    pub fn intersect_with_ref(&mut self, other: &Self)
        ensures
            final(self)@ == old(self)@.intersect(other@),
    {
        proof {
            use_type_invariant(&*self);
            use_type_invariant(other);
        }
        let mut b = self.take_bits();
        fbs_intersect_with(&mut b, &other.bitset);
        // `FixedBitSet` doesn't seem to truncate properly when intersecting, so we just do it manually
        let own_len = fbs_length(&b);
        let other_len = fbs_length(&other.bitset);
        if own_len > other_len {
            fbs_remove_from(&mut b, other_len);
            proof {
                assert(fbs_ones(b) =~= old(self)@.intersect(other@));
            }
        }
        self.bitset = b;
    }

    /// Remove every index of `other`.
    pub fn difference_with_ref(&mut self, other: &Self)
        ensures
            final(self)@ == old(self)@.difference(other@),
    {
        proof {
            use_type_invariant(&*self);
            use_type_invariant(other);
        }
        let mut b = self.take_bits();
        fbs_difference_with(&mut b, &other.bitset);
        self.bitset = b;
    }

    /// Every index of the set, once each, in increasing order.
    pub fn to_vec(&self) -> (r: Vec<usize>)
        ensures
            r@.to_set() == self@,
            r@.no_duplicates(),
            forall|i: int, j: int| 0 <= i < j < r@.len() ==> r@[i] < r@[j],
            forall|i: int| 0 <= i < r@.len() ==> #[trigger] r@[i] < usize::MAX,
    {
        proof { use_type_invariant(self); }
        let r = fbs_ones_vec(&self.bitset);
        proof {
            assert forall|i: int| 0 <= i < r@.len() implies #[trigger] r@[i] < usize::MAX by {
                assert(r@.to_set().contains(r@[i]));
            }
            assert forall|i: int, j: int| 0 <= i < r@.len() && 0 <= j < r@.len() && i != j implies
                r@[i] != r@[j] by {
                if i < j {
                    assert(r@[i] < r@[j]);
                } else {
                    assert(r@[j] < r@[i]);
                }
            }
        }
        r
    }

    /// Whether both sets hold the same indices.
    pub fn same_as(&self, other: &Self) -> (r: bool)
        ensures
            r == (self@ == other@),
    {
        proof {
            use_type_invariant(self);
            use_type_invariant(other);
        }
        let a = fbs_length(&self.bitset);
        let b = fbs_length(&other.bitset);
        let n = if a > b { a } else { b };
        let mut i: usize = 0;
        while i < n
            invariant
                i <= n,
                self.inv(),
                other.inv(),
                n >= fbs_len(self.bitset),
                n >= fbs_len(other.bitset),
                forall|j: usize| j < i ==> (self@.contains(j) <==> other@.contains(j)),
            decreases n - i,
        {
            if fbs_contains(&self.bitset, i) != fbs_contains(&other.bitset, i) {
                return false;
            }
            i = i + 1;
        }
        proof {
            assert(self@ =~= other@);
        }
        true
    }
}

impl Clone for RawBitSet {
    fn clone(&self) -> (r: Self)
        ensures
            r@ == self@,
    {
        proof { use_type_invariant(self); }
        RawBitSet { bitset: fbs_clone(&self.bitset) }
    }
}

impl Default for RawBitSet {
    fn default() -> (r: Self)
        ensures
            r@ == Set::<usize>::empty(),
    {
        RawBitSet::new()
    }
}

impl PartialEq for RawBitSet {
    fn eq(&self, other: &Self) -> (r: bool) {
        self.same_as(other)
    }
}

impl Eq for RawBitSet {}

impl PartialEqSpecImpl for RawBitSet {
    open spec fn obeys_eq_spec() -> bool {
        true
    }

    open spec fn eq_spec(&self, other: &Self) -> bool {
        self@ == other@
    }
}

impl SetMethods for RawBitSet {
    fn full(count: usize) -> (r: Self)
        ensures
            r@ == Set::new(|i: usize| i < count),
    {
        let mut b = fbs_with_capacity(count);
        fbs_insert_all(&mut b);
        proof {
            assert(fbs_ones(b) =~= Set::new(|i: usize| i < count));
            <usize as vstd::set_lib::FiniteRange>::range_properties(0, count);
            assert(Set::new(|i: usize| i < count) =~= <usize as vstd::set_lib::FiniteRange>::range_set(0, count));
        }
        RawBitSet { bitset: b }
    }

    fn clear(&mut self)
        ensures
            final(self)@ == Set::<usize>::empty(),
    {
        proof { use_type_invariant(&*self); }
        let mut b = self.take_bits();
        fbs_clear(&mut b);
        self.bitset = b;
    }

    fn last_one(&self) -> (r: usize)
        ensures
            self@ == Set::<usize>::empty() ==> r == 0,
            self@ != Set::<usize>::empty() ==> self@.contains(r) && forall|i: usize|
                #[trigger] self@.contains(i) ==> i <= r,
    {
        match fbs_maximum(&self.bitset) {
            Some(m) => m,
            None => 0,
        }
    }
}

impl SetOps<usize> for RawBitSet {
    open spec fn insertable(&self, item: usize) -> bool {
        item < usize::MAX
    }

    fn contains(&self, item: &usize) -> (r: bool)
        ensures
            r == self@.contains(*item),
    {
        RawBitSet::contains(self, item)
    }

    fn insert(&mut self, item: usize) -> (r: bool)
        ensures
            r == old(self)@.contains(item),
            final(self)@ == old(self)@.insert(item),
    {
        RawBitSet::insert(self, item)
    }

    fn len(&self) -> (r: usize)
        ensures
            r == self@.len(),
    {
        RawBitSet::len(self)
    }

    fn remove(&mut self, x: &usize) -> (r: bool)
        ensures
            r == old(self)@.contains(*x),
            final(self)@ == old(self)@.remove(*x),
    {
        RawBitSet::remove(self, x)
    }

    fn is_empty(&self) -> (r: bool)
        ensures
            r == (self@ == Set::<usize>::empty()),
    {
        RawBitSet::is_empty(self)
    }
}

impl Union for RawBitSet {
    fn union(self, other: Self) -> (r: Self)
        ensures
            r@ == self@.union(other@),
    {
        let mut s = self;
        s.union_with_ref(&other);
        s
    }
}

impl<'a> Union<&'a RawBitSet> for RawBitSet {
    fn union(self, other: &'a RawBitSet) -> (r: Self)
        ensures
            r@ == self@.union(other@),
    {
        let mut s = self;
        s.union_with_ref(other);
        s
    }
}

impl UnionWith for RawBitSet {
    fn union_with(&mut self, other: Self)
        ensures
            final(self)@ == old(self)@.union(other@),
    {
        self.union_with_ref(&other);
    }
}

impl<'a> UnionWith<&'a RawBitSet> for RawBitSet {
    fn union_with(&mut self, other: &'a RawBitSet)
        ensures
            final(self)@ == old(self)@.union(other@),
    {
        self.union_with_ref(other);
    }
}

impl IntersectWith for RawBitSet {
    fn intersect_with(&mut self, other: &Self)
        ensures
            final(self)@ == old(self)@.intersect(other@),
    {
        self.intersect_with_ref(other);
    }
}

impl Intersect for RawBitSet {
    fn intersect(self, other: &Self) -> (r: Self)
        ensures
            r@ == self@.intersect(other@),
    {
        let mut s = self;
        s.intersect_with_ref(other);
        s
    }
}

impl DifferenceWith for RawBitSet {
    fn difference_with(&mut self, other: &Self)
        ensures
            final(self)@ == old(self)@.difference(other@),
    {
        self.difference_with_ref(other);
    }
}

impl Without for RawBitSet {
    fn without(self, other: &Self) -> (r: Self)
        ensures
            r@ == self@.difference(other@),
    {
        let mut s = self;
        s.difference_with_ref(other);
        s
    }
}

impl CopiedIter<usize> for RawBitSet {
    fn copied_iter(&self) -> (r: Vec<usize>)
        ensures
            r@.to_set() == self@,
            r@.no_duplicates(),
    {
        self.to_vec()
    }
}

} // verus!
