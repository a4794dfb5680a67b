//! Abstract dependency graphs without dependency graphs: sets, relations, strategies and local
//! fixed-point oracles over systems of equations.
use std::collections::HashMap;
use std::hash::Hash;
use vstd::prelude::*;

pub mod arena;
pub mod bits;
pub mod boolean;
pub mod ccs;
pub mod extension;
pub mod kleene;
pub mod numeric;
pub mod oracle;
pub mod ordered;
pub mod set;
pub mod wccs;
pub mod wctl;

verus! {

/// Removal of an arbitrary element of a collection.
pub trait Extract<T> {
    /// Extracts an arbitrary element from the set and removes it.
    fn extract(&mut self) -> Option<T>;
}

/// The operations of a finite set.
pub trait SetOps<T> {
    /// Whether `insert` accepts the item: a representation may not be able to hold every item.
    spec fn insertable(&self, item: T) -> bool;

    fn contains(&self, item: &T) -> bool;

    fn insert(&mut self, item: T) -> bool
        requires
            old(self).insertable(item),
    ;

    fn len(&self) -> usize;

    fn remove(&mut self, x: &T) -> bool;

    fn is_empty(&self) -> bool;
}

pub trait Union<Other = Self>: Sized {
    fn union(self, other: Other) -> Self;
}

pub trait UnionWith<Other = Self> {
    fn union_with(&mut self, other: Other);
}

pub trait Intersect<Other = Self>: Sized {
    fn intersect(self, other: &Other) -> Self;
}

pub trait IntersectWith<Other = Self> {
    fn intersect_with(&mut self, other: &Other);
}

pub trait Without<Other = Self>: Sized {
    fn without(self, other: &Other) -> Self;
}

pub trait DifferenceWith<Other = Self> {
    fn difference_with(&mut self, other: &Other);
}

pub trait IsSubset<Other = Self> {
    fn is_subset(&self, other: &Other) -> bool;
}

pub trait Cartesian<Rhs = Self> {
    type Output;

    /// Returns the Cartesian product of two sets.
    /// (a, b) for a in self, b in other.
    fn cartesian(&self, other: &Rhs) -> Self::Output;
}

pub trait Diagonal {
    type Output;

    /// Returns the reflexive relation of elements on a set
    /// i.e. diagonal({x}) = {(x,x)}
    fn diagonal(&self) -> Self::Output;
}

/// The indices of a set of keys.
pub type IndexSet = Set<usize>;

/// The pairs of indices of a relation over keys.
pub type IndexPairs = Set<(usize, usize)>;

/// The view of an assignment: the value of each key that has one.
pub type AssignmentMap<K, V> = Map<K, V>;

/// System of equations
pub trait System<VarKey, VarValue: PartialOrd>: Sized {
    /// What `evaluate` returns for a key and (the view of) an assignment in the current state of
    /// the system.
    spec fn evaluation(&self, key: VarKey, assignment: Map<VarKey, VarValue>) -> VarValue;

    /// Evaluates a variable w.r.t. a given assignment, returning the new value
    fn evaluate(&self, key: VarKey, assignment: &HashMap<VarKey, VarValue>) -> (r: VarValue)
        ensures
            r == self.evaluation(key, assignment@),
    ;

    /// The bottom element of the systems domain: the assignment that gives each variable the
    /// bottom value.
    fn bottom_assignment(&self) -> (r: HashMap<VarKey, VarValue>)
        ensures
            r@ == Map::<VarKey, VarValue>::empty(),
    ;

    /// The system as it is, locked or unlocked as `locked` says.
    spec fn with_lock(&self, locked: bool) -> Self;

    /// Locks the system s.t. no changes can be made to the set of visited or discovered variables.
    /// Nothing else changes, and what each variable evaluates to stays as it was.
    fn lock(&mut self)
        ensures
            *final(self) == old(self).with_lock(true),
            forall|key: VarKey, assignment: Map<VarKey, VarValue>| #[trigger] final(self).evaluation(key, assignment)
                == old(self).evaluation(key, assignment),
    ;

    /// Unlocks the system after `self.lock()`, allowing changes to the set of visited and
    /// discovered variables. Nothing else changes, and what each variable evaluates to stays as it
    /// was.
    fn unlock(&mut self)
        ensures
            *final(self) == old(self).with_lock(false),
            forall|key: VarKey, assignment: Map<VarKey, VarValue>| #[trigger] final(self).evaluation(key, assignment)
                == old(self).evaluation(key, assignment),
    ;
}

pub trait Visited<S: View> {
    /// The view of what `visited` returns in the current state of the system.
    spec fn visited_set(&self) -> S::V;

    /// The set of visited variables. These are the variables for which an evaluation function is
    /// known.
    fn visited(&self) -> (r: S)
        ensures
            r@ == self.visited_set(),
    ;
}

pub trait Universe<S: View> {
    /// The view of what `universe` returns in the current state of the system.
    spec fn universe_set(&self) -> S::V;

    /// Returns a structure S containing all discovered variables in the system
    fn universe(&self) -> (r: S)
        ensures
            r@ == self.universe_set(),
    ;
}

pub trait PairUniverse<S: View> {
    /// The view of what `pair_universe` returns in the current state of the system.
    spec fn pair_universe_set(&self) -> S::V;

    /// Returns the cartesian product of all the variables, $VV times VV$
    fn pair_universe(&self) -> (r: S)
        ensures
            r@ == self.pair_universe_set(),
    ;
}

/// Hyperedges, each as the sequence of its targets.
pub type Hyperedges<T> = Seq<Seq<T>>;

/// The view of each vector of a sequence.
pub open spec fn seq_views<T>(s: Seq<Vec<T>>) -> Seq<Seq<T>> {
    s.map_values(|e: Vec<T>| e@)
}

pub trait DependencyGraphSystem<VarKey, ReturnType> {
    /// What `get_hyperedges` returns in the current state of the system, each hyperedge as the
    /// sequence of its targets.
    spec fn hyperedges(&self, key: VarKey) -> Option<Hyperedges<ReturnType>>;

    /// Get hyperedges of a variable if expanded, otherwise None
    fn get_hyperedges(&self, key: VarKey) -> (r: Option<Vec<Vec<ReturnType>>>)
        ensures
            match r {
                Some(edges) => self.hyperedges(key) == Some(seq_views(edges@)),
                None => self.hyperedges(key) is None,
            },
    ;
}

pub trait Arguments<VarKey, VarSet: View> {
    /// What `arguments` returns for a key in the current state of the system, by its view.
    spec fn argument_set(&self, key: VarKey) -> VarSet::V;

    fn arguments(&self, key: VarKey) -> (r: VarSet)
        ensures
            r@ == self.argument_set(key),
    ;
}

// See `ordered::strategy::LeftSliced` for explanation of why we have `LeftSliced` and
// `RightSliced`
pub trait LeftSliced<T, U>: SetOps<(T, U)> {
    type SlicedLeft: SetOps<U>;
}

pub trait RightSliced<T, U>: SetOps<(T, U)> {
    type SlicedRight: SetOps<T>;
}

pub trait SliceLeft<T, U, S>: SetOps<(T, U)> + LeftSliced<T, U, SlicedLeft = S> + Sized {
    /// Get a set where all values are of the form `(left, x)`
    fn slice_left(&self, left: T) -> S;
}

pub trait SliceRight<T, U, S>: SetOps<(T, U)> + RightSliced<T, U, SlicedRight = S> + Sized {
    /// Get a set where all values are of the form `(x, right)`
    fn slice_right(&self, right: U) -> S;
}

pub trait FromRights<TS, U>: Sized {
    /// Whether `from_rights` accepts the entries: a representation may not be able to hold
    /// every item.
    spec fn rights_accepted(it: Seq<(TS, U)>) -> bool;

    fn from_rights(it: Vec<(TS, U)>) -> Self
        requires
            Self::rights_accepted(it@),
    ;
}

pub trait FromLefts<T, US>: Sized {
    /// Whether `from_lefts` accepts the entries: a representation may not be able to hold
    /// every item.
    spec fn lefts_accepted(it: Seq<(T, US)>) -> bool;

    fn from_lefts(it: Vec<(T, US)>) -> Self
        requires
            Self::lefts_accepted(it@),
    ;
}

/// The elements of a collection, copied out in some order.
pub trait CopiedIter<T> {
    fn copied_iter(&self) -> Vec<T>;
}

/// A total assignment of values to keys.
pub trait Assignment<K, V> {
    /// The value of a key.
    spec fn assigned(&self, key: K) -> V;

    fn get_assignment(&self, key: &K) -> (r: V)
        ensures
            r == self.assigned(*key),
    ;

    fn update_assignment(&mut self, key: K, value: V)
        ensures
            final(self).assigned(key) == value,
            forall|k: K| k != key ==> #[trigger] final(self).assigned(k) == old(self).assigned(k),
    ;
}

/// The value of `key` in a map that leaves unlisted keys at the bottom of the domain.
pub open spec fn assigned_value<K, V: Bottom>(m: Map<K, V>, key: K) -> V {
    if m.contains_key(key) {
        m[key]
    } else {
        V::bottom_value()
    }
}

impl<K: arena::Key + Eq + Hash, V: Bottom + Copy> Assignment<K, V> for HashMap<K, V> {
    open spec fn assigned(&self, key: K) -> V {
        assigned_value(self@, key)
    }

    fn get_assignment(&self, key: &K) -> (r: V) {
        proof {
            K::lemma_key_model();
            broadcast use vstd::std_specs::hash::group_hash_axioms;
        }
        match self.get(key) {
            Some(v) => *v,
            None => V::bottom(),
        }
    }

    /// Set the value of `key` in the map.
    fn update_assignment(&mut self, key: K, value: V)
        ensures
            final(self)@ == old(self)@.insert(key, value),
    {
        proof {
            K::lemma_key_model();
            broadcast use vstd::std_specs::hash::group_hash_axioms;
        }
        self.insert(key, value);
    }
}

/// Values of a system, compared by a spec of their own.
pub trait Value: Copy {
    /// Whether `self` lies strictly below `other`.
    spec fn below(&self, other: &Self) -> bool;

    fn is_below(&self, other: &Self) -> (r: bool)
        ensures
            r == self.below(other),
    ;

    fn same_value(&self, other: &Self) -> (r: bool)
        ensures
            r == (*self == *other),
    ;
}

impl Value for bool {
    open spec fn below(&self, other: &Self) -> bool {
        !*self && *other
    }

    fn is_below(&self, other: &Self) -> (r: bool) {
        !*self && *other
    }

    fn same_value(&self, other: &Self) -> (r: bool) {
        *self == *other
    }
}

/// A value that may be the greatest of its domain.
pub trait Maximal: PartialOrd + Sized {
    /// Whether the value is the greatest of its domain.
    spec fn maximal(&self) -> bool;

    fn is_maximal(&self) -> (r: bool)
        ensures
            r == self.maximal(),
    ;
}

impl Maximal for bool {
    open spec fn maximal(&self) -> bool {
        *self
    }

    fn is_maximal(&self) -> (r: bool) {
        *self
    }
}

/// A domain with a least element.
pub trait Bottom: PartialOrd + Sized {
    /// The least element of the domain.
    spec fn bottom_value() -> Self;

    fn bottom() -> (r: Self)
        ensures
            r == Self::bottom_value(),
    ;
}

impl Bottom for bool {
    open spec fn bottom_value() -> bool {
        false
    }

    fn bottom() -> (r: Self) {
        false
    }
}

} // verus!
