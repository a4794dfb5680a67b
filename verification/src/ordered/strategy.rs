mod binary_heap;
mod hashmap;
mod lazy;
mod orx;

pub(crate) use binary_heap::{code_of, last_weights, lemma_pair_code};
pub use binary_heap::{
    intersected_by, item_pairs, last_weight, pair_code, keep_in, keep_left, keep_pairs_in, keep_right, merge_min, same_pair, union_min, BinaryHeapStrategy,
};
pub use hashmap::{extend_map, HashMapStrategy};
pub use lazy::LazyHeap;
pub use orx::{OrxStrategy, PairHeap};

use vstd::prelude::*;

use crate::System;

verus! {

#[verifier::external_type_specification]
#[verifier::external_body]
#[verifier::reject_recursive_types(T)]
pub struct ExReverse<T>(std::cmp::Reverse<T>);

/// `std::cmp::Reverse`: wraps a value so that it orders the other way round.
#[verifier::external_body]
fn reverse_of<T>(value: T) -> std::cmp::Reverse<T> {
    std::cmp::Reverse(value)
}

/// The weight of an item in a strategy; items of lower weight come first. `Infinity` is above
/// every number.
#[derive(PartialEq, Eq, Clone, Copy, Hash, Debug, Structural)]
pub enum StrategyWeight {
    Num(u64),
    Infinity,
}

/// `a` does not come after `b`.
pub open spec fn weight_le(a: StrategyWeight, b: StrategyWeight) -> bool {
    match (a, b) {
        (_, StrategyWeight::Infinity) => true,
        (StrategyWeight::Infinity, StrategyWeight::Num(_)) => false,
        (StrategyWeight::Num(x), StrategyWeight::Num(y)) => x <= y,
    }
}

/// The order of weights is total: reflexive, antisymmetric, transitive and total.
pub proof fn lemma_weight_order(a: StrategyWeight, b: StrategyWeight, c: StrategyWeight)
    ensures
        weight_le(a, a),
        weight_le(a, b) || weight_le(b, a),
        weight_le(a, b) && weight_le(b, a) ==> a == b,
        weight_le(a, b) && weight_le(b, c) ==> weight_le(a, c),
{
}

impl StrategyWeight {
    /// Whether `self` does not come after `other`.
    pub fn le(&self, other: &Self) -> (r: bool)
        ensures
            r == weight_le(*self, *other),
    {
        match (self, other) {
            (_, StrategyWeight::Infinity) => true,
            (StrategyWeight::Infinity, StrategyWeight::Num(_)) => false,
            (StrategyWeight::Num(x), StrategyWeight::Num(y)) => *x <= *y,
        }
    }

    /// Whether `self` comes strictly before `other`.
    pub fn lt(&self, other: &Self) -> (r: bool)
        ensures
            r == !weight_le(*other, *self),
    {
        !other.le(self)
    }

    /// The sum of two weights; anything plus `Infinity` is `Infinity`.
    pub fn add(self, rhs: Self) -> (r: Self)
        requires
            (self, rhs) matches (StrategyWeight::Num(x), StrategyWeight::Num(y)) ==> x + y <= u64::MAX,
        ensures
            r == match (self, rhs) {
                (StrategyWeight::Num(x), StrategyWeight::Num(y)) => StrategyWeight::Num((x + y) as u64),
                _ => StrategyWeight::Infinity,
            },
    {
        match (self, rhs) {
            (Self::Num(r), Self::Num(l)) => Self::Num(l + r),
            _ => Self::Infinity,
        }
    }

    /// The earlier of two weights.
    pub fn min(self, other: Self) -> (r: Self)
        ensures
            r == if weight_le(self, other) { self } else { other },
    {
        if self.le(&other) {
            self
        } else {
            other
        }
    }
}

/// A value with its weight.
#[derive(Clone, Copy, Debug)]
pub struct StrategyItem<T>(pub StrategyWeight, pub T);

impl<T> StrategyItem<T> {
    pub fn infinite(value: T) -> (r: Self)
        ensures
            r == StrategyItem(StrategyWeight::Infinity, value),
    {
        Self(StrategyWeight::Infinity, value)
    }

    pub fn reversed(self) -> std::cmp::Reverse<Self> {
        reverse_of(self)
    }
}

/// Items compare by their weights alone.
impl<T> PartialEq for StrategyItem<T> {
    fn eq(&self, other: &Self) -> (r: bool) {
        self.0 == other.0
    }
}

impl<T> Eq for StrategyItem<T> {}

impl<T> vstd::std_specs::cmp::PartialEqSpecImpl for StrategyItem<T> {
    open spec fn obeys_eq_spec() -> bool {
        true
    }

    open spec fn eq_spec(&self, other: &Self) -> bool {
        self.0 == other.0
    }
}

pub trait Strategy<T> {
    /// Extract the element in the strategy with the lowest weight
    ///
    /// Returns `None` if there are no more elements in the strategy
    fn extract_min(&mut self) -> Option<T>;
}

pub trait InitialStrategy<VarKey, VarValue: PartialOrd, OutStrategy: Strategy<(VarKey, VarKey)>>: System<
    VarKey,
    VarValue,
> {
    /// Get a strategy where all variables are assigned to infinity
    fn get_initial_strategy(&self) -> OutStrategy;
}

// We have `LeftSliced` and `RightSliced` so we can easily have the same implementation of
// `SliceLeft` and `SliceRight` but with different input/output types.
pub trait LeftSliced<T, U>: Strategy<(T, U)> {
    type SlicedLeft: Strategy<U>;
}

pub trait RightSliced<T, U>: Strategy<(T, U)> {
    type SlicedRight: Strategy<T>;
}

pub trait SliceLeft<T, U, S>: Strategy<(T, U)> + LeftSliced<T, U, SlicedLeft = S> + Sized {
    /// Get a strategy where all values are of the form `(left, x)`
    fn slice_left(self, left: T) -> S;
}

pub trait SliceRight<T, U, S>: Strategy<(T, U)> + RightSliced<T, U, SlicedRight = S> + Sized {
    /// Get a strategy where all values are of the form `(x, right)`
    fn slice_right(self, right: U) -> S;
}

pub trait IntersectBy<T, Other: Strategy<T> = Self>: Sized {
    /// Intersect the domains of two strategies, using `f` to compute the new weight elements
    fn intersect_by<F: Fn(StrategyWeight, StrategyWeight) -> StrategyWeight>(self, other: &Other, f: F) -> Self
        requires
            forall|a: StrategyWeight, b: StrategyWeight| call_requires(f, (a, b)),
    ;
}

pub trait Domain<T, S>: Strategy<T> {
    /// Whether the target set can hold every element of the strategy.
    spec fn domain_accepted(&self) -> bool;

    /// Get the set of elements that have a value in the strategy
    fn domain(self) -> S
        requires
            self.domain_accepted(),
    ;
}

pub trait Singleton<T>: Sized {
    /// Return a new strategy where `x -> infinity`
    fn singleton(x: T) -> Self;
}

pub trait Length {
    /// Get the number of items in the domain of the strategy
    fn length(&self) -> usize;
}

pub trait Retain<T> {
    fn retain<F: Fn(&StrategyItem<T>) -> bool>(&mut self, f: F)
        requires
            forall|x: StrategyItem<T>| call_requires(f, (&x,)),
    ;
}

} // verus!
