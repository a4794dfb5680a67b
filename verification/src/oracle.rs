//! Local oracles: from an assignment and a relation of possible dependencies, a smaller relation
//! of pairs `(x, y)` where the value of `y` may still depend on `x`.
use std::collections::{HashMap, HashSet};
use std::hash::Hash;
use std::marker::PhantomData;
use vstd::prelude::*;

use crate::arena::{indices_of, pair_indices_of, Key};
use crate::set::bitset::relation::rights_last;
use crate::set::bitset::{BitSet, BitsetRelation};
use crate::kleene::{after_passes, settles, sound_oracle, top_value};
use crate::{
    assigned_value, Assignment, Bottom, Cartesian, CopiedIter, DependencyGraphSystem, Diagonal, Intersect, Maximal, PairUniverse, SetOps,
    seq_views, System, Union, Universe, Value, Visited, Without,
};

pub mod arguments;

pub use arguments::{argument_closure, ArgumentsOracle};

verus! {

pub trait LocalOracle<K, V: PartialOrd, PS: View, S: System<K, V>> {
    /// What `approximate_flow` returns, over the views of its arguments.
    spec fn flow(&self, assignment: HashMap<K, V>, possible: PS::V, system: S) -> PS::V;

    fn approximate_flow(&self, assignment: &HashMap<K, V>, possible: &PS, system: &S) -> (r: PS)
        ensures
            r@ == self.flow(*assignment, possible@, *system),
    ;
}

/// Combinators of local oracles.
pub trait CombineLocal<K, V: PartialOrd, PS: View, S: System<K, V>>: LocalOracle<K, V, PS, S> + Sized {
    /// The oracle that applies `other` to what `self` returns.
    fn then<O: LocalOracle<K, V, PS, S>>(self, other: O) -> (r: ComposeLocal<K, V, PS, S, O, Self>)
        ensures
            r.outer_oracle() == other,
            r.inner_oracle() == self,
    {
        ComposeLocal { outer: other, inner: self, _phantom_data: PhantomData }
    }

    /// The oracle that keeps the pairs that both `other` and `self` return.
    fn and<O: LocalOracle<K, V, PS, S>>(self, other: O) -> (r: IntersectLocal<K, V, PS, S, O, Self>) where
        PS: Intersect,
        ensures
            r.left_oracle() == other,
            r.right_oracle() == self,
    {
        IntersectLocal { left: other, right: self, _phantom_data: PhantomData }
    }
}

impl<K, V: PartialOrd, PS: View, S: System<K, V>, T: LocalOracle<K, V, PS, S>> CombineLocal<K, V, PS, S> for T {
}

/// Every pair of `universe` whose right element is not visited, every visited element with
/// itself, and every pair `(x, y)` with `y` visited and `x` in `deps(y)`.
pub open spec fn local_flow(
    universe: Set<usize>,
    visited: Set<usize>,
    deps: spec_fn(usize) -> Set<usize>,
) -> Set<(usize, usize)> {
    Set::new(
        |p: (usize, usize)|
            (universe.contains(p.0) && universe.contains(p.1) && !visited.contains(p.1)) || (
            visited.contains(p.0) && p.1 == p.0) || (visited.contains(p.1) && deps(p.1).contains(p.0)),
    )
}

/// The indices of the right components of a sequence of `(set, key)` entries.
pub open spec fn right_indices<T, U: Key>(it: Seq<(BitSet<T>, U)>) -> Seq<usize> {
    it.map_values(|e: (BitSet<T>, U)| e.1.key_index())
}

/// Where every entry holds the same set, the last entry for `right` holds it exactly when some
/// entry is for `right`.
pub proof fn lemma_rights_last_uniform<T, U: Key>(it: Seq<(BitSet<T>, U)>, s: Set<usize>, right: usize)
    requires
        forall|i: int| 0 <= i < it.len() ==> (#[trigger] it[i]).0@ == s,
    ensures
        rights_last(it, right) == if right_indices(it).contains(right) {
            s
        } else {
            Set::<usize>::empty()
        },
    decreases it.len(),
{
    if it.len() == 0 {
    } else {
        let init = it.drop_last();
        assert(right_indices(it) =~= right_indices(init).push(it.last().1.key_index()));
        vstd::seq_lib::lemma_seq_contains_after_push(right_indices(init), it.last().1.key_index(), right);
        assert forall|i: int| 0 <= i < init.len() implies (#[trigger] init[i]).0@ == s by {
            assert(init[i] == it[i]);
        }
        lemma_rights_last_uniform(init, s, right);
        assert(it.last() == it[it.len() - 1]);
    }
}

/// A composition of local oracles: `outer` applied to what `inner` returns.
pub struct ComposeLocal<K, V, PS, S, T, U> {
    outer: T,
    inner: U,
    _phantom_data: PhantomData<(K, V, PS, S)>,
}

impl<K, V, PS, S, T, U> ComposeLocal<K, V, PS, S, T, U> {
    pub closed spec fn outer_oracle(self) -> T {
        self.outer
    }

    pub closed spec fn inner_oracle(self) -> U {
        self.inner
    }
}

impl<
    K,
    V: PartialOrd,
    PS: View,
    S: System<K, V>,
    T: LocalOracle<K, V, PS, S>,
    U: LocalOracle<K, V, PS, S>,
> LocalOracle<K, V, PS, S> for ComposeLocal<K, V, PS, S, T, U> {
    open spec fn flow(&self, assignment: HashMap<K, V>, possible: PS::V, system: S) -> PS::V {
        self.outer_oracle().flow(assignment, self.inner_oracle().flow(assignment, possible, system), system)
    }

    fn approximate_flow(&self, assignment: &HashMap<K, V>, possible: &PS, system: &S) -> (r: PS) {
        let inner = self.inner.approximate_flow(assignment, possible, system);
        self.outer.approximate_flow(assignment, &inner, system)
    }
}

impl<K, V, PS, S, T: Clone, U: Clone> Clone for ComposeLocal<K, V, PS, S, T, U> {
    fn clone(&self) -> Self {
        ComposeLocal { outer: self.outer.clone(), inner: self.inner.clone(), _phantom_data: PhantomData }
    }
}

/// An intersection of local oracles: the pairs that both return.
pub struct IntersectLocal<K, V, PS, S, T, U> {
    left: T,
    right: U,
    _phantom_data: PhantomData<(K, V, PS, S)>,
}

impl<K, V, PS, S, T, U> IntersectLocal<K, V, PS, S, T, U> {
    pub closed spec fn left_oracle(self) -> T {
        self.left
    }

    pub closed spec fn right_oracle(self) -> U {
        self.right
    }
}

impl<
    K: Key,
    V: PartialOrd,
    S: System<K, V>,
    T: LocalOracle<K, V, BitsetRelation<K, K>, S>,
    U: LocalOracle<K, V, BitsetRelation<K, K>, S>,
> LocalOracle<K, V, BitsetRelation<K, K>, S> for IntersectLocal<K, V, BitsetRelation<K, K>, S, T, U> {
    open spec fn flow(&self, assignment: HashMap<K, V>, possible: Set<(usize, usize)>, system: S) -> Set<(usize, usize)> {
        self.left_oracle().flow(assignment, possible, system).intersect(
            self.right_oracle().flow(assignment, possible, system),
        )
    }

    fn approximate_flow(&self, assignment: &HashMap<K, V>, possible: &BitsetRelation<K, K>, system: &S) -> (r: BitsetRelation<K, K>) {
        let left = self.left.approximate_flow(assignment, possible, system);
        let right = self.right.approximate_flow(assignment, possible, system);
        left.intersect(&right)
    }
}

impl<K, V, PS, S, T: Clone, U: Clone> Clone for IntersectLocal<K, V, PS, S, T, U> {
    fn clone(&self) -> Self {
        IntersectLocal { left: self.left.clone(), right: self.right.clone(), _phantom_data: PhantomData }
    }
}

/// The oracle that returns the whole pair universe of the system.
pub struct TrivialOracle<PS>(PhantomData<PS>);

impl<K> TrivialOracle<HashSet<(K, K)>> {
    /// The name the oracle is shown by.
    pub fn name(&self) -> (r: String)
        ensures
            r@ == "Trivial:hashset"@,
    {
        String::from_str("Trivial:hashset")
    }

    pub fn hashset() -> Self {
        TrivialOracle(PhantomData)
    }
}

impl<K> TrivialOracle<BitsetRelation<K, K>> {
    /// The name the oracle is shown by.
    pub fn name(&self) -> (r: String)
        ensures
            r@ == "Trivial:bitset"@,
    {
        String::from_str("Trivial:bitset")
    }

    pub fn bitset() -> Self {
        TrivialOracle(PhantomData)
    }
}

impl<PS> Default for TrivialOracle<PS> {
    fn default() -> Self {
        TrivialOracle(PhantomData)
    }
}

impl<PS> Clone for TrivialOracle<PS> {
    fn clone(&self) -> Self {
        TrivialOracle(PhantomData)
    }
}

impl<K, V: PartialOrd + Maximal, PS: View, S: System<K, V> + PairUniverse<PS>> LocalOracle<K, V, PS, S> for TrivialOracle<PS> {
    open spec fn flow(&self, assignment: HashMap<K, V>, possible: PS::V, system: S) -> PS::V {
        system.pair_universe_set()
    }

    fn approximate_flow(&self, assignment: &HashMap<K, V>, possible: &PS, system: &S) -> (r: PS) {
        system.pair_universe()
    }
}

/// The oracle that returns the relation it is given.
pub struct IdentityOracle<PS>(PhantomData<PS>);

impl<K> IdentityOracle<HashSet<(K, K)>> {
    /// The name the oracle is shown by.
    pub fn name(&self) -> (r: String)
        ensures
            r@ == "Identity:hashset"@,
    {
        String::from_str("Identity:hashset")
    }

    pub fn hashset() -> Self {
        IdentityOracle(PhantomData)
    }
}

impl<K> IdentityOracle<BitsetRelation<K, K>> {
    /// The name the oracle is shown by.
    pub fn name(&self) -> (r: String)
        ensures
            r@ == "Identity:bitset"@,
    {
        String::from_str("Identity:bitset")
    }

    pub fn bitset() -> Self {
        IdentityOracle(PhantomData)
    }
}

impl<PS> Default for IdentityOracle<PS> {
    fn default() -> Self {
        IdentityOracle(PhantomData)
    }
}

impl<K: Key, V: PartialOrd + Maximal, S: System<K, V>> LocalOracle<K, V, BitsetRelation<K, K>, S> for IdentityOracle<BitsetRelation<K, K>> {
    open spec fn flow(&self, assignment: HashMap<K, V>, possible: Set<(usize, usize)>, system: S) -> Set<(usize, usize)> {
        possible
    }

    fn approximate_flow(&self, assignment: &HashMap<K, V>, possible: &BitsetRelation<K, K>, system: &S) -> (r: BitsetRelation<K, K>) {
        possible.clone()
    }
}


/// The oracle that keeps, besides the pairs `local_flow` always keeps, every pair `(x, y)` with
/// `y` visited and not yet at the greatest value of its domain.
pub struct LocalMaxR<U>(PhantomData<U>);

impl<K> LocalMaxR<HashSet<K>> {
    /// The name the oracle is shown by.
    pub fn name(&self) -> (r: String)
        ensures
            r@ == "LocalMaxR:hashset"@,
    {
        String::from_str("LocalMaxR:hashset")
    }

    pub fn hashset() -> Self {
        LocalMaxR(PhantomData)
    }
}

impl<K> LocalMaxR<BitSet<K>> {
    /// The name the oracle is shown by.
    pub fn name(&self) -> (r: String)
        ensures
            r@ == "LocalMaxR:bitset"@,
    {
        String::from_str("LocalMaxR:bitset")
    }

    pub fn bitset() -> Self {
        LocalMaxR(PhantomData)
    }
}

impl<U> Default for LocalMaxR<U> {
    fn default() -> Self {
        LocalMaxR(PhantomData)
    }
}

impl<U> Clone for LocalMaxR<U> {
    fn clone(&self) -> Self {
        LocalMaxR(PhantomData)
    }
}

/// The variable with index `y` evaluates to a value below the greatest of its domain.
pub open spec fn unsettled<K: Key, V: PartialOrd + Maximal, S: System<K, V>>(system: S, assignment: HashMap<K, V>, y: usize) -> bool {
    !system.evaluation(K::key_of(y), assignment@).maximal()
}

impl<
    K: Key,
    V: PartialOrd + Maximal,
    S: System<K, V> + Universe<BitSet<K>> + Visited<BitSet<K>>,
> LocalOracle<K, V, BitsetRelation<K, K>, S> for LocalMaxR<BitSet<K>> {
    open spec fn flow(&self, assignment: HashMap<K, V>, possible: Set<(usize, usize)>, system: S) -> Set<(usize, usize)> {
        local_flow(
            system.universe_set(),
            system.visited_set(),
            |y: usize| if unsettled(system, assignment, y) { system.universe_set() } else { Set::empty() },
        )
    }

    fn approximate_flow(&self, assignment: &HashMap<K, V>, possible: &BitsetRelation<K, K>, system: &S) -> (r: BitsetRelation<K, K>) {
        let visited = system.visited();
        let universe = system.universe();
        let unvisited = universe.clone().without(&visited);
        let unvisited_dep = universe.cartesian(&unvisited);
        let self_dep = visited.diagonal();
        let ys = visited.copied_iter();
        let ghost u = universe@;
        let ghost yi = indices_of(ys@);
        let mut rights: Vec<(BitSet<K>, K)> = Vec::new();
        let mut j: usize = 0;
        while j < ys.len()
            invariant
                0 <= j <= ys@.len(),
                universe@ == u,
                yi == indices_of(ys@),
                forall|i: int| 0 <= i < ys@.len() ==> (#[trigger] ys@[i]).key_index() < usize::MAX,
                forall|i: int| 0 <= i < rights@.len() ==> (#[trigger] rights@[i]).0@ == u,
                forall|i: int| 0 <= i < rights@.len() ==> (#[trigger] rights@[i]).1.key_index() < usize::MAX,
                forall|y: usize| #[trigger] right_indices(rights@).contains(y) <==> (yi.subrange(0, j as int).contains(y)
                    && unsettled(*system, *assignment, y)),
            decreases ys@.len() - j,
        {
            let y = ys[j];
            let value = system.evaluate(y, assignment);
            let ghost prev = rights@;
            proof {
                K::lemma_key_index(y, 0);
                assert(yi[j as int] == y.key_index());
            }
            if !value.is_maximal() {
                rights.push((universe.clone(), y));
                proof {
                    assert(right_indices(rights@) =~= right_indices(prev).push(y.key_index()));
                }
            } else {
                proof {
                    assert(right_indices(rights@) =~= right_indices(prev));
                }
            }
            proof {
                let sub = yi.subrange(0, j as int);
                assert(yi.subrange(0, j + 1) =~= sub.push(y.key_index()));
                assert forall|x: usize| #[trigger] right_indices(rights@).contains(x) <==> (yi.subrange(0, j + 1).contains(x)
                    && unsettled(*system, *assignment, x)) by {
                    vstd::seq_lib::lemma_seq_contains_after_push(sub, y.key_index(), x);
                    vstd::seq_lib::lemma_seq_contains_after_push(right_indices(prev), y.key_index(), x);
                }
            }
            j = j + 1;
        }
        let ghost rs = rights@;
        let max_dep = BitsetRelation::from_rights(rights);
        let r = unvisited_dep.union(self_dep).union(max_dep);
        proof {
            assert(yi.subrange(0, yi.len() as int) =~= yi);
            let expected = self.flow(*assignment, possible@, *system);
            assert forall|p: (usize, usize)| #[trigger] r@.contains(p) <==> expected.contains(p) by {
                lemma_rights_last_uniform(rs, u, p.1);
                assert(yi.to_set().contains(p.1) == yi.contains(p.1));
            }
            assert(r@ =~= expected);
        }
        r
    }
}


/// The oracle that keeps the pairs of the given relation whose two variables are both below the
/// greatest value of their domain in the assignment.
pub struct SMax<PS>(PhantomData<PS>);

impl<K> SMax<HashSet<(K, K)>> {
    /// The name the oracle is shown by.
    pub fn name(&self) -> (r: String)
        ensures
            r@ == "SMax:hashset"@,
    {
        String::from_str("SMax:hashset")
    }

    pub fn hashset() -> Self {
        SMax(PhantomData)
    }
}

impl<K> SMax<BitsetRelation<K, K>> {
    /// The name the oracle is shown by.
    pub fn name(&self) -> (r: String)
        ensures
            r@ == "SMax:bitset"@,
    {
        String::from_str("SMax:bitset")
    }

    pub fn bitset() -> Self {
        SMax(PhantomData)
    }
}

impl<PS> Default for SMax<PS> {
    fn default() -> Self {
        SMax(PhantomData)
    }
}

impl<PS> Clone for SMax<PS> {
    fn clone(&self) -> Self {
        SMax(PhantomData)
    }
}

/// The variable with index `x` is below the greatest value of its domain in the assignment.
pub open spec fn open_in<K: Key, V: Bottom + Maximal>(assignment: Map<K, V>, x: usize) -> bool {
    !assigned_value(assignment, K::key_of(x)).maximal()
}

impl<
    K: Key + Eq + Hash,
    V: PartialOrd + Maximal + Bottom + Copy,
    S: System<K, V>,
> LocalOracle<K, V, BitsetRelation<K, K>, S> for SMax<BitsetRelation<K, K>> {
    open spec fn flow(&self, assignment: HashMap<K, V>, possible: Set<(usize, usize)>, system: S) -> Set<(usize, usize)> {
        possible.filter(|p: (usize, usize)| open_in(assignment@, p.0) && open_in(assignment@, p.1))
    }

    fn approximate_flow(&self, assignment: &HashMap<K, V>, possible: &BitsetRelation<K, K>, system: &S) -> (r: BitsetRelation<K, K>) {
        let pairs = possible.copied_iter();
        let ghost pi = pair_indices_of(pairs@);
        let mut kept: Vec<(K, K)> = Vec::new();
        let mut j: usize = 0;
        while j < pairs.len()
            invariant
                0 <= j <= pairs@.len(),
                pi == pair_indices_of(pairs@),
                forall|i: int| 0 <= i < pairs@.len() ==> (#[trigger] pi[i]).0 < usize::MAX && pi[i].1 < usize::MAX,
                forall|i: int| 0 <= i < kept@.len() ==> (#[trigger] pair_indices_of(kept@)[i]).0 < usize::MAX
                    && pair_indices_of(kept@)[i].1 < usize::MAX,
                forall|p: (usize, usize)| #[trigger] pair_indices_of(kept@).contains(p) <==> (pi.subrange(0, j as int).contains(p)
                    && open_in(assignment@, p.0) && open_in(assignment@, p.1)),
            decreases pairs@.len() - j,
        {
            let (x, y) = pairs[j];
            let vx = assignment.get_assignment(&x);
            let vy = assignment.get_assignment(&y);
            let ghost prev = kept@;
            proof {
                K::lemma_key_index(x, 0);
                K::lemma_key_index(y, 0);
                assert(pi[j as int] == (x.key_index(), y.key_index()));
            }
            if !vx.is_maximal() && !vy.is_maximal() {
                kept.push((x, y));
                proof {
                    assert(pair_indices_of(kept@) =~= pair_indices_of(prev).push((x.key_index(), y.key_index())));
                }
            } else {
                proof {
                    assert(pair_indices_of(kept@) =~= pair_indices_of(prev));
                }
            }
            proof {
                let sub = pi.subrange(0, j as int);
                assert(pi.subrange(0, j + 1) =~= sub.push(pi[j as int]));
                assert forall|p: (usize, usize)| #[trigger] pair_indices_of(kept@).contains(p) <==> (pi.subrange(0, j + 1).contains(p)
                    && open_in(assignment@, p.0) && open_in(assignment@, p.1)) by {
                    vstd::seq_lib::lemma_seq_contains_after_push(sub, pi[j as int], p);
                    vstd::seq_lib::lemma_seq_contains_after_push(pair_indices_of(prev), pi[j as int], p);
                }
            }
            j = j + 1;
        }
        let r = BitsetRelation::from_pairs(kept);
        proof {
            assert(pi.subrange(0, pi.len() as int) =~= pi);
            let expected = self.flow(*assignment, possible@, *system);
            assert forall|p: (usize, usize)| #[trigger] r@.contains(p) <==> expected.contains(p) by {
                assert(pi.to_set().contains(p) == pi.contains(p));
            }
            assert(r@ =~= expected);
        }
        r
    }
}


/// The oracle that keeps a pair `(x, y)` of the given relation where `y` may still depend on `x`
/// by the weights of the hyperedges of `y`.
pub struct WeightedDepOracle<PS>(PhantomData<PS>);

impl<K> WeightedDepOracle<HashSet<(K, K)>> {
    /// The name the oracle is shown by.
    pub fn name(&self) -> (r: String)
        ensures
            r@ == "WeightedDep:hashset"@,
    {
        String::from_str("WeightedDep:hashset")
    }

    pub fn hashset() -> Self {
        WeightedDepOracle(PhantomData)
    }
}

impl<K> WeightedDepOracle<BitsetRelation<K, K>> {
    /// The name the oracle is shown by.
    pub fn name(&self) -> (r: String)
        ensures
            r@ == "WeightedDep:bitset"@,
    {
        String::from_str("WeightedDep:bitset")
    }

    pub fn bitset() -> Self {
        WeightedDepOracle(PhantomData)
    }
}

impl<PS> Default for WeightedDepOracle<PS> {
    fn default() -> Self {
        WeightedDepOracle(PhantomData)
    }
}

impl<PS> Clone for WeightedDepOracle<PS> {
    fn clone(&self) -> Self {
        WeightedDepOracle(PhantomData)
    }
}

/// The hyperedge has a target with index `x`, and every weight on it lies below `bound`.
pub open spec fn supports<K: Key, V: Value>(targets: Seq<(K, V)>, x: usize, bound: V) -> bool {
    &&& exists|i: int| 0 <= i < targets.len() && (#[trigger] targets[i]).0.key_index() == x
    &&& forall|i: int| 0 <= i < targets.len() ==> (#[trigger] targets[i]).1.below(&bound)
}

/// Some hyperedge supports `x` under `bound`.
pub open spec fn some_edge_supports<K: Key, V: Value>(edges: Seq<Seq<(K, V)>>, x: usize, bound: V) -> bool {
    exists|t: int| 0 <= t < edges.len() && supports(#[trigger] edges[t], x, bound)
}

/// `y` may still depend on `x`: they are the same, `y` is not expanded, some `z` of the universe
/// lies between them in `possible`, or a hyperedge of `y` through `x` has every weight below the
/// value of `y`.
pub open spec fn weighted_keep<K: Key, V: Value + Bottom>(
    assignment: Map<K, V>,
    possible: Set<(usize, usize)>,
    universe: Set<usize>,
    hyperedges: Option<Seq<Seq<(K, V)>>>,
    x: usize,
    y: usize,
) -> bool {
    ||| x == y
    ||| hyperedges is None
    ||| exists|z: usize| #[trigger] universe.contains(z) && possible.contains((x, z)) && possible.contains((z, y))
    ||| some_edge_supports(hyperedges->Some_0, x, assigned_value(assignment, K::key_of(y)))
}

/// Whether the hyperedge supports `x` under `bound`.
fn edge_supports<K: Key, V: Value>(targets: &Vec<(K, V)>, x: usize, bound: &V) -> (r: bool)
    ensures
        r == supports(targets@, x, *bound),
{
    let mut found = false;
    let mut all_below = true;
    let mut i: usize = 0;
    while i < targets.len()
        invariant
            0 <= i <= targets@.len(),
            found == exists|k: int| 0 <= k < i && (#[trigger] targets@[k]).0.key_index() == x,
            all_below == forall|k: int| 0 <= k < i ==> (#[trigger] targets@[k]).1.below(bound),
        decreases targets@.len() - i,
    {
        let (z, w) = targets[i];
        if z.index() == x {
            found = true;
        }
        if !w.is_below(bound) {
            all_below = false;
        }
        proof {
            assert(targets@[i as int] == (z, w));
            if !all_below {
                if w.below(bound) {
                    let k = choose|k: int| 0 <= k < i && !(#[trigger] targets@[k]).1.below(bound);
                }
            }
        }
        i = i + 1;
    }
    found && all_below
}

/// Whether some hyperedge supports `x` under `bound`.
fn any_edge_supports<K: Key, V: Value>(edges: &Vec<Vec<(K, V)>>, x: usize, bound: &V) -> (r: bool)
    ensures
        r == some_edge_supports(seq_views(edges@), x, *bound),
{
    let mut t: usize = 0;
    while t < edges.len()
        invariant
            0 <= t <= edges@.len(),
            forall|k: int| 0 <= k < t ==> !supports((#[trigger] edges@[k])@, x, *bound),
        decreases edges@.len() - t,
    {
        if edge_supports(&edges[t], x, bound) {
            proof {
                assert(seq_views(edges@)[t as int] == edges@[t as int]@);
            }
            return true;
        }
        t = t + 1;
    }
    proof {
        assert forall|k: int| 0 <= k < edges@.len() implies !supports(#[trigger] seq_views(edges@)[k], x, *bound) by {
            assert(seq_views(edges@)[k] == edges@[k]@);
        }
    }
    false
}

/// Whether some `z` of the keys lies between `x` and `y` in the relation.
fn any_between<K: Key>(possible: &BitsetRelation<K, K>, zs: &Vec<K>, x: K, y: K) -> (r: bool)
    ensures
        r == exists|i: int| 0 <= i < zs@.len() && possible@.contains((x.key_index(), (#[trigger] zs@[i]).key_index()))
            && possible@.contains((zs@[i].key_index(), y.key_index())),
{
    let mut i: usize = 0;
    while i < zs.len()
        invariant
            0 <= i <= zs@.len(),
            forall|k: int| 0 <= k < i ==> !(possible@.contains((x.key_index(), (#[trigger] zs@[k]).key_index()))
                && possible@.contains((zs@[k].key_index(), y.key_index()))),
        decreases zs@.len() - i,
    {
        let z = zs[i];
        if possible.get((x, z)) && possible.get((z, y)) {
            return true;
        }
        i = i + 1;
    }
    false
}

impl<
    K: Key + Eq + Hash,
    V: PartialOrd + Maximal + Bottom + Value,
    S: System<K, V> + DependencyGraphSystem<K, (K, V)> + Universe<BitSet<K>>,
> LocalOracle<K, V, BitsetRelation<K, K>, S> for WeightedDepOracle<BitsetRelation<K, K>> {
    open spec fn flow(&self, assignment: HashMap<K, V>, possible: Set<(usize, usize)>, system: S) -> Set<(usize, usize)> {
        possible.filter(
            |p: (usize, usize)|
                weighted_keep(assignment@, possible, system.universe_set(), system.hyperedges(K::key_of(p.1)), p.0, p.1),
        )
    }

    fn approximate_flow(&self, assignment: &HashMap<K, V>, possible: &BitsetRelation<K, K>, system: &S) -> (r: BitsetRelation<K, K>) {
        let universe = system.universe();
        let zs = universe.copied_iter();
        let pairs = possible.copied_iter();
        let ghost pi = pair_indices_of(pairs@);
        let ghost u = universe@;
        let ghost keep = |p: (usize, usize)|
            weighted_keep(assignment@, possible@, u, system.hyperedges(K::key_of(p.1)), p.0, p.1);
        let mut kept: Vec<(K, K)> = Vec::new();
        let mut j: usize = 0;
        while j < pairs.len()
            invariant
                0 <= j <= pairs@.len(),
                pi == pair_indices_of(pairs@),
                indices_of(zs@).to_set() == u,
                forall|i: int| 0 <= i < pairs@.len() ==> (#[trigger] pi[i]).0 < usize::MAX && pi[i].1 < usize::MAX,
                forall|i: int| 0 <= i < kept@.len() ==> (#[trigger] pair_indices_of(kept@)[i]).0 < usize::MAX
                    && pair_indices_of(kept@)[i].1 < usize::MAX,
                keep == (|p: (usize, usize)|
                    weighted_keep(assignment@, possible@, u, system.hyperedges(K::key_of(p.1)), p.0, p.1)),
                forall|p: (usize, usize)| #[trigger] pair_indices_of(kept@).contains(p) <==> (pi.subrange(0, j as int).contains(p)
                    && keep(p)),
            decreases pairs@.len() - j,
        {
            let (x, y) = pairs[j];
            proof {
                K::lemma_key_index(x, 0);
                K::lemma_key_index(y, 0);
                assert(pi[j as int] == (x.key_index(), y.key_index()));
            }
            let keep_pair = if x.index() == y.index() {
                true
            } else {
                match system.get_hyperedges(y) {
                    None => true,
                    Some(edges) => {
                        if any_between(possible, &zs, x, y) {
                            proof {
                                let i = choose|i: int| 0 <= i < zs@.len() && possible@.contains((x.key_index(), (#[trigger] zs@[i]).key_index()))
                                    && possible@.contains((zs@[i].key_index(), y.key_index()));
                                assert(indices_of(zs@)[i] == zs@[i].key_index());
                                assert(indices_of(zs@).contains(zs@[i].key_index()));
                                assert(u.contains(zs@[i].key_index()));
                            }
                            true
                        } else {
                            proof {
                                assert forall|z: usize| #[trigger] u.contains(z) implies !(possible@.contains((x.key_index(), z))
                                    && possible@.contains((z, y.key_index()))) by {
                                    assert(indices_of(zs@).to_set().contains(z));
                                    let i = choose|i: int| 0 <= i < indices_of(zs@).len() && indices_of(zs@)[i] == z;
                                    assert(zs@[i].key_index() == z);
                                }
                            }
                            let bound = assignment.get_assignment(&y);
                            any_edge_supports(&edges, x.index(), &bound)
                        }
                    },
                }
            };
            let ghost prev = kept@;
            if keep_pair {
                kept.push((x, y));
                proof {
                    assert(pair_indices_of(kept@) =~= pair_indices_of(prev).push((x.key_index(), y.key_index())));
                }
            } else {
                proof {
                    assert(pair_indices_of(kept@) =~= pair_indices_of(prev));
                }
            }
            proof {
                assert(keep_pair == keep((x.key_index(), y.key_index())));
                let sub = pi.subrange(0, j as int);
                assert(pi.subrange(0, j + 1) =~= sub.push(pi[j as int]));
                assert forall|p: (usize, usize)| #[trigger] pair_indices_of(kept@).contains(p) <==> (pi.subrange(0, j + 1).contains(p)
                    && keep(p)) by {
                    vstd::seq_lib::lemma_seq_contains_after_push(sub, pi[j as int], p);
                    vstd::seq_lib::lemma_seq_contains_after_push(pair_indices_of(prev), pi[j as int], p);
                }
            }
            j = j + 1;
        }
        let r = BitsetRelation::from_pairs(kept);
        proof {
            assert(pi.subrange(0, pi.len() as int) =~= pi);
            let expected = self.flow(*assignment, possible@, *system);
            assert forall|p: (usize, usize)| #[trigger] r@.contains(p) <==> expected.contains(p) by {
                assert(pi.to_set().contains(p) == pi.contains(p));
            }
            assert(r@ =~= expected);
        }
        r
    }
}

/// Whatever the relation, a value that is the greatest of its domain has nothing above it.
pub open spec fn maximal_is_top<V: Maximal + Value>() -> bool {
    forall|x: V| #[trigger] x.maximal() ==> top_value(x)
}

/// The identity oracle is sound: it answers the relation it is asked.
pub proof fn lemma_identity_sound<K: Key, V: PartialOrd + Maximal + Value + Bottom, S: System<K, V> + Universe<BitSet<K>>>(
    oracle: IdentityOracle<BitsetRelation<K, K>>,
    system: S,
)
    ensures
        sound_oracle(oracle, system),
{
}

/// The trivial oracle is sound where, in every state a run reaches, the pair universe holds every
/// pair of the variables of the system.
pub proof fn lemma_trivial_sound<K: Key, V: PartialOrd + Maximal + Value + Bottom, S: System<K, V> + Universe<BitSet<K>> + PairUniverse<
    BitsetRelation<K, K>,
>>(oracle: TrivialOracle<BitsetRelation<K, K>>, system: S)
    requires
        forall|n: nat, p: (usize, usize)|
            system.universe_set().contains(p.0) && system.universe_set().contains(p.1) ==> #[trigger] after_passes(
                system,
                n,
            ).with_lock(true).pair_universe_set().contains(p),
    ensures
        sound_oracle(oracle, system),
{
    let u = system.universe_set();
    assert forall|n: nat, a: HashMap<K, V>, asked: Set<(usize, usize)>, t: usize|
        #[trigger] settles(system, a@, oracle.flow(a, asked, after_passes(system, n).with_lock(true)), t, u) || !settles(system, a@, asked, t, u) by {
        let r = oracle.flow(a, asked, after_passes(system, n).with_lock(true));
        if settles(system, a@, asked, t, u) && !top_value(assigned_value(a@, K::key_of(t))) {
            assert(r.contains((t, t)));
            assert forall|l: usize| #[trigger] u.contains(l) && !top_value(assigned_value(a@, K::key_of(l))) implies r.contains((l, t)) by {}
        }
    }
}

/// The maximal oracle is sound where a value that is the greatest of its domain has nothing above
/// it: it drops only pairs with such a value.
pub proof fn lemma_smax_sound<K: Key + Eq + Hash, V: PartialOrd + Maximal + Value + Bottom, S: System<K, V> + Universe<BitSet<K>>>(
    oracle: SMax<BitsetRelation<K, K>>,
    system: S,
)
    requires
        maximal_is_top::<V>(),
    ensures
        sound_oracle(oracle, system),
{
    let u = system.universe_set();
    assert forall|n: nat, a: HashMap<K, V>, asked: Set<(usize, usize)>, t: usize|
        #[trigger] settles(system, a@, oracle.flow(a, asked, after_passes(system, n).with_lock(true)), t, u) || !settles(system, a@, asked, t, u) by {
        let r = oracle.flow(a, asked, after_passes(system, n).with_lock(true));
        if settles(system, a@, asked, t, u) && !top_value(assigned_value(a@, K::key_of(t))) {
            assert(open_in(a@, t));
            assert(asked.contains((t, t)));
            assert(r.contains((t, t)));
            if !top_value(system.evaluation(K::key_of(t), a@)) {
                assert forall|l: usize| #[trigger] u.contains(l) && !top_value(assigned_value(a@, K::key_of(l))) implies r.contains((l, t)) by {
                    assert(open_in(a@, l));
                    assert(asked.contains((l, t)));
                }
            }
        }
    }
}

/// The oracle of local maxima is sound where a value that is the greatest of its domain has
/// nothing above it, and where, in every state a run reaches, the variables are those of the system
/// and each evaluates as in the system: a visited variable that evaluates to the greatest value
/// keeps itself as its one dependency, and it takes that value when next evaluated.
pub proof fn lemma_local_max_r_sound<
    K: Key,
    V: PartialOrd + Maximal + Value + Bottom,
    S: System<K, V> + Universe<BitSet<K>> + Visited<BitSet<K>>,
>(oracle: LocalMaxR<BitSet<K>>, system: S)
    requires
        maximal_is_top::<V>(),
        forall|n: nat| #[trigger] after_passes(system, n).with_lock(true).universe_set() == system.universe_set(),
        forall|n: nat, k: K, a: Map<K, V>|
            #[trigger] after_passes(system, n).with_lock(true).evaluation(k, a) == system.evaluation(k, a),
    ensures
        sound_oracle(oracle, system),
{
    let u = system.universe_set();
    assert forall|n: nat, a: HashMap<K, V>, asked: Set<(usize, usize)>, t: usize|
        #[trigger] settles(system, a@, oracle.flow(a, asked, after_passes(system, n).with_lock(true)), t, u) || !settles(system, a@, asked, t, u) by {
        let st = after_passes(system, n).with_lock(true);
        let r = oracle.flow(a, asked, st);
        if settles(system, a@, asked, t, u) && !top_value(assigned_value(a@, K::key_of(t))) {
            assert(st.universe_set() == u);
            assert(u.contains(t));
            assert(r.contains((t, t)));
            if !st.visited_set().contains(t) || unsettled(st, a, t) {
                assert forall|l: usize| #[trigger] u.contains(l) && !top_value(assigned_value(a@, K::key_of(l))) implies r.contains((l, t)) by {}
            } else {
                assert(st.evaluation(K::key_of(t), a@) == system.evaluation(K::key_of(t), a@));
                assert(top_value(system.evaluation(K::key_of(t), a@)));
            }
        }
    }
}

/// Applying one sound oracle to what another sound oracle answers is sound.
pub proof fn lemma_compose_sound<
    K: Key,
    V: PartialOrd + Value + Bottom,
    S: System<K, V> + Universe<BitSet<K>>,
    T: LocalOracle<K, V, BitsetRelation<K, K>, S>,
    U: LocalOracle<K, V, BitsetRelation<K, K>, S>,
>(oracle: ComposeLocal<K, V, BitsetRelation<K, K>, S, T, U>, system: S)
    requires
        sound_oracle(oracle.outer_oracle(), system),
        sound_oracle(oracle.inner_oracle(), system),
    ensures
        sound_oracle(oracle, system),
{
    let u = system.universe_set();
    assert forall|n: nat, a: HashMap<K, V>, asked: Set<(usize, usize)>, t: usize|
        #[trigger] settles(system, a@, oracle.flow(a, asked, after_passes(system, n).with_lock(true)), t, u) || !settles(system, a@, asked, t, u) by {
        let st = after_passes(system, n).with_lock(true);
        let mid = oracle.inner_oracle().flow(a, asked, st);
        if settles(system, a@, asked, t, u) {
            assert(settles(system, a@, mid, t, u));
            assert(settles(system, a@, oracle.outer_oracle().flow(a, mid, st), t, u));
        }
    }
}

/// Keeping what both of two sound oracles answer is sound.
pub proof fn lemma_intersect_sound<
    K: Key,
    V: PartialOrd + Value + Bottom,
    S: System<K, V> + Universe<BitSet<K>>,
    T: LocalOracle<K, V, BitsetRelation<K, K>, S>,
    U: LocalOracle<K, V, BitsetRelation<K, K>, S>,
>(oracle: IntersectLocal<K, V, BitsetRelation<K, K>, S, T, U>, system: S)
    requires
        sound_oracle(oracle.left_oracle(), system),
        sound_oracle(oracle.right_oracle(), system),
    ensures
        sound_oracle(oracle, system),
{
    let u = system.universe_set();
    assert forall|n: nat, a: HashMap<K, V>, asked: Set<(usize, usize)>, t: usize|
        #[trigger] settles(system, a@, oracle.flow(a, asked, after_passes(system, n).with_lock(true)), t, u) || !settles(system, a@, asked, t, u) by {
        let st = after_passes(system, n).with_lock(true);
        let l1 = oracle.left_oracle().flow(a, asked, st);
        let r1 = oracle.right_oracle().flow(a, asked, st);
        if settles(system, a@, asked, t, u) {
            assert(settles(system, a@, l1, t, u));
            assert(settles(system, a@, r1, t, u));
            if !top_value(assigned_value(a@, K::key_of(t))) && !top_value(system.evaluation(K::key_of(t), a@)) {
                assert forall|l: usize| #[trigger] u.contains(l) && !top_value(assigned_value(a@, K::key_of(l))) implies l1.intersect(r1).contains(
                    (l, t),
                ) by {
                    assert(l1.contains((l, t)));
                    assert(r1.contains((l, t)));
                }
            }
        }
    }
}

/// What the weighted-dependency oracle keeps of a pair `(x, y)` of distinct variables where `y` is
/// expanded and no variable of the universe lies between them in the asked relation: the pair
/// stays exactly when it was asked and some hyperedge of `y` has a target `x` and has every one of
/// its weights strictly below the value of `y`.
pub proof fn lemma_weighted_dep_keeps_supported_pairs<
    K: Key + Eq + Hash,
    V: PartialOrd + Maximal + Bottom + Value,
    S: System<K, V> + DependencyGraphSystem<K, (K, V)> + Universe<BitSet<K>>,
>(
    oracle: WeightedDepOracle<BitsetRelation<K, K>>,
    assignment: HashMap<K, V>,
    possible: Set<(usize, usize)>,
    system: S,
    x: usize,
    y: usize,
)
    requires
        x != y,
        system.hyperedges(K::key_of(y)) is Some,
        forall|z: usize| #[trigger] system.universe_set().contains(z) ==> !(possible.contains((x, z)) && possible.contains((z, y))),
    ensures
        oracle.flow(assignment, possible, system).contains((x, y)) <==> possible.contains((x, y)) && exists|t: int, i: int|
            {
                &&& 0 <= t < system.hyperedges(K::key_of(y))->Some_0.len()
                &&& 0 <= i < system.hyperedges(K::key_of(y))->Some_0[t].len()
                &&& (#[trigger] system.hyperedges(K::key_of(y))->Some_0[t][i]).0.key_index() == x
                &&& forall|j: int|
                    0 <= j < system.hyperedges(K::key_of(y))->Some_0[t].len() ==> (#[trigger] system.hyperedges(
                        K::key_of(y),
                    )->Some_0[t][j]).1.below(&assigned_value(assignment@, K::key_of(y)))
            },
{
    let edges = system.hyperedges(K::key_of(y))->Some_0;
    let bound = assigned_value(assignment@, K::key_of(y));
    if oracle.flow(assignment, possible, system).contains((x, y)) {
        assert(weighted_keep(assignment@, possible, system.universe_set(), system.hyperedges(K::key_of(y)), x, y));
        assert(some_edge_supports(edges, x, bound));
        let t = choose|t: int| 0 <= t < edges.len() && supports(#[trigger] edges[t], x, bound);
        let i = choose|i: int| 0 <= i < edges[t].len() && (#[trigger] edges[t][i]).0.key_index() == x;
        assert(edges[t][i].0.key_index() == x);
    }
    if possible.contains((x, y)) && exists|t: int, i: int|
        {
            &&& 0 <= t < edges.len()
            &&& 0 <= i < edges[t].len()
            &&& (#[trigger] edges[t][i]).0.key_index() == x
            &&& forall|j: int| 0 <= j < edges[t].len() ==> (#[trigger] edges[t][j]).1.below(&bound)
        } {
        let (t, i) = choose|t: int, i: int|
            {
                &&& 0 <= t < edges.len()
                &&& 0 <= i < edges[t].len()
                &&& (#[trigger] edges[t][i]).0.key_index() == x
                &&& forall|j: int| 0 <= j < edges[t].len() ==> (#[trigger] edges[t][j]).1.below(&bound)
            };
        assert(supports(edges[t], x, bound));
        assert(some_edge_supports(edges, x, bound));
    }
}

/// The weighted-dependency oracle keeps only asked pairs, and keeps every asked pair of a variable
/// with itself, every asked pair into a variable that is not expanded, and every asked pair with a
/// variable of the universe between its two in the asked relation.
pub proof fn lemma_weighted_dep_keeps_asked_pairs<
    K: Key + Eq + Hash,
    V: PartialOrd + Maximal + Bottom + Value,
    S: System<K, V> + DependencyGraphSystem<K, (K, V)> + Universe<BitSet<K>>,
>(
    oracle: WeightedDepOracle<BitsetRelation<K, K>>,
    assignment: HashMap<K, V>,
    possible: Set<(usize, usize)>,
    system: S,
)
    ensures
        oracle.flow(assignment, possible, system).subset_of(possible),
        forall|x: usize| #[trigger] possible.contains((x, x)) ==> oracle.flow(assignment, possible, system).contains((x, x)),
        forall|x: usize, y: usize|
            possible.contains((x, y)) && system.hyperedges(K::key_of(y)) is None ==> #[trigger] oracle.flow(
                assignment,
                possible,
                system,
            ).contains((x, y)),
        forall|x: usize, y: usize, z: usize|
            possible.contains((x, y)) && system.universe_set().contains(z) && #[trigger] possible.contains((x, z)) && #[trigger] possible.contains(
                (z, y),
            ) ==> oracle.flow(assignment, possible, system).contains((x, y)),
{
}

} // verus!
