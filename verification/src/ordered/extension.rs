//! Strategic local oracles built from what the terms of a system depend on, with weights.
use std::collections::HashMap;
use std::hash::Hash;
use std::marker::PhantomData;
use vstd::prelude::*;

use crate::arena::{indices_of, Key};
use crate::extension::TermSystem;
use crate::ordered::oracle::StrategicLocalOracle;
use crate::ordered::strategy::{
    item_pairs, keep_pairs_in, union_min, BinaryHeapStrategy, StrategyItem, StrategyWeight,
};
use crate::set::bitset::BitSet;
use crate::{assigned_value, Assignment, Bottom, Cartesian, CopiedIter, System, Universe, Value, Visited, Without};

verus! {

/// What the value of a term may depend on, with weights, for the terms of one kind of system.
pub trait StrategicExtension<VarKey, VarValue, TermKey, VarName, VS, VarStrat: View, PairStrat: View, S> {
    /// Whether `result` is what `depends` may return, over the views of its arguments.
    spec fn depends_on(
        &self,
        term: TermKey,
        assignment: HashMap<VarKey, VarValue>,
        strategy: PairStrat::V,
        system: S,
        result: VarStrat::V,
    ) -> bool;

    /// The variables that the value of the term may depend on, with weights.
    fn depends(&self, term: TermKey, assignment: &HashMap<VarKey, VarValue>, strategy: &PairStrat, system: &S) -> (r: VarStrat)
        ensures
            self.depends_on(term, *assignment, strategy@, *system, r@),
    ;
}

/// The strategic local oracle of an extension.
pub struct StrategicExtensionOracle<VarKey, VarValue, TermKey, VarName, VS, VarStrat, S, E> {
    extension: E,
    _phantom_data: PhantomData<(TermKey, VarKey, VarValue, VarName, VS, VarStrat, S)>,
}

impl<VarKey, VarValue, TermKey, VarName, VS, VarStrat, S, E> StrategicExtensionOracle<VarKey, VarValue, TermKey, VarName, VS, VarStrat, S, E> {
    pub closed spec fn extension_spec(self) -> E {
        self.extension
    }

    pub fn new(extension: E) -> (r: Self)
        ensures
            r.extension_spec() == extension,
    {
        StrategicExtensionOracle { extension, _phantom_data: PhantomData }
    }
}

impl<VarKey, VarValue, TermKey, VarName, VS, VarStrat, S, E: Clone> Clone for StrategicExtensionOracle<
    VarKey,
    VarValue,
    TermKey,
    VarName,
    VS,
    VarStrat,
    S,
    E,
> {
    fn clone(&self) -> Self {
        StrategicExtensionOracle { extension: self.extension.clone(), _phantom_data: PhantomData }
    }
}

/// Each visited variable with itself: infinitely far when it evaluates to its value, at weight
/// zero when it does not.
pub open spec fn self_items<K: Key, V: PartialOrd + Bottom, S: System<K, V>>(
    ys: Seq<K>,
    assignment: HashMap<K, V>,
    system: S,
) -> Seq<(StrategyWeight, (K, K))> {
    ys.map_values(
        |x: K|
            (if assigned_value(assignment@, x) == system.evaluation(x, assignment@) {
                StrategyWeight::Infinity
            } else {
                StrategyWeight::Num(0)
            }, (x, x)),
    )
}

/// For each variable `y` of `ys` in turn, the weighted dependencies `x` of its term as items for
/// the pairs `(x, y)`.
pub open spec fn term_items<K>(ys: Seq<K>, deps: Seq<Seq<(StrategyWeight, K)>>) -> Seq<(StrategyWeight, (K, K))>
    decreases ys.len(),
{
    if ys.len() == 0 || deps.len() == 0 {
        Seq::empty()
    } else {
        term_items(ys.drop_last(), deps.drop_last()) + deps.last().map_values(
            |e: (StrategyWeight, K)| (e.0, (e.1, ys.last())),
        )
    }
}

impl<
    K: Key + Eq + Hash,
    V: PartialOrd + Bottom + Value,
    T: Copy,
    N,
    S: TermSystem<K, V, T> + Visited<BitSet<K>> + Universe<BitSet<K>>,
    E: StrategicExtension<K, V, T, N, BitSet<K>, BinaryHeapStrategy<K>, BinaryHeapStrategy<(K, K)>, S>,
> StrategicLocalOracle<K, V, BinaryHeapStrategy<(K, K)>, S> for StrategicExtensionOracle<
    K,
    V,
    T,
    N,
    BitSet<K>,
    BinaryHeapStrategy<K>,
    S,
    E,
> {
    /// The pairs of the strategy into unvisited variables keep their weights, a visited `y`
    /// depends on what its term depends on, and on itself infinitely far when it evaluates to its
    /// value and at weight zero when it does not; a pair from both takes the lower weight. The
    /// visited variables are taken in some order without repetition.
    open spec fn strategy_flow(
        &self,
        assignment: HashMap<K, V>,
        strategy: Seq<(StrategyWeight, (K, K))>,
        system: S,
        result: Seq<(StrategyWeight, (K, K))>,
    ) -> bool {
        exists|ys: Seq<K>, deps: Seq<Seq<(StrategyWeight, K)>>|
            {
                &&& indices_of(ys).to_set() == system.visited_set()
                &&& indices_of(ys).no_duplicates()
                &&& deps.len() == ys.len()
                &&& forall|i: int| 0 <= i < ys.len() ==> self.extension_spec().depends_on(
                    system.definition_of(#[trigger] ys[i]),
                    assignment,
                    strategy,
                    system,
                    deps[i],
                )
                &&& result == union_min(
                    term_items(ys, deps) + keep_pairs_in(
                        strategy,
                        Set::new(
                            |p: (usize, usize)|
                                system.universe_set().contains(p.0) && system.universe_set().contains(p.1)
                                    && !system.visited_set().contains(p.1),
                        ),
                    ),
                    self_items(ys, assignment, system),
                )
            }
    }

    fn get_strategy(&self, assignment: &HashMap<K, V>, strategy: &BinaryHeapStrategy<(K, K)>, system: &S) -> (r: BinaryHeapStrategy<(K, K)>) {
        let visited = system.visited();
        let universe = system.universe();
        let unvisited = universe.clone().without(&visited);
        let cart = universe.cartesian(&unvisited);
        let unvisited_dep = strategy.duplicate().intersect_pairs(&cart);
        let ys = visited.copied_iter();
        let mut self_dep: BinaryHeapStrategy<(K, K)> = BinaryHeapStrategy::new();
        let mut term_dep: BinaryHeapStrategy<(K, K)> = BinaryHeapStrategy::new();
        let ghost mut deps: Seq<Seq<(StrategyWeight, K)>> = Seq::empty();
        let mut j: usize = 0;
        while j < ys.len()
            invariant
                0 <= j <= ys@.len(),
                deps.len() == j,
                self_dep@ == self_items(ys@.take(j as int), *assignment, *system),
                term_dep@ == term_items(ys@.take(j as int), deps),
                forall|i: int| 0 <= i < j ==> self.extension.depends_on(
                    system.definition_of(#[trigger] ys@[i]),
                    *assignment,
                    strategy@,
                    *system,
                    deps[i],
                ),
            decreases ys@.len() - j,
        {
            let x = ys[j];
            let current = assignment.get_assignment(&x);
            let evaluated = system.evaluate(x, assignment);
            let weight = if current.same_value(&evaluated) {
                StrategyWeight::Infinity
            } else {
                StrategyWeight::Num(0)
            };
            self_dep.push(StrategyItem(weight, (x, x)));
            let d = self.extension.depends(system.definition(x), assignment, strategy, system);
            let items = d.iter();
            let ghost term_before = term_dep@;
            let mut k: usize = 0;
            while k < items.len()
                invariant
                    0 <= k <= items@.len(),
                    item_pairs(items@) == d@,
                    term_dep@ == term_before + d@.take(k as int).map_values(|e: (StrategyWeight, K)| (e.0, (e.1, x))),
                decreases items@.len() - k,
            {
                let item = items[k];
                term_dep.push(StrategyItem(item.0, (item.1, x)));
                proof {
                    assert(d@[k as int] == (item.0, item.1));
                    assert(d@.take(k + 1) =~= d@.take(k as int).push((item.0, item.1)));
                    assert(term_dep@ =~= term_before + d@.take(k + 1).map_values(|e: (StrategyWeight, K)| (e.0, (e.1, x))));
                }
                k = k + 1;
            }
            proof {
                assert(d@.take(d@.len() as int) =~= d@);
                let ghost prev_deps = deps;
                deps = deps.push(d@);
                assert(ys@.take(j + 1).drop_last() =~= ys@.take(j as int));
                assert(deps.drop_last() =~= prev_deps);
                assert(ys@.take(j + 1).last() == x);
                assert(self_dep@ =~= self_items(ys@.take(j + 1), *assignment, *system));
                assert forall|i: int| 0 <= i < j + 1 implies self.extension.depends_on(
                    system.definition_of(#[trigger] ys@[i]),
                    *assignment,
                    strategy@,
                    *system,
                    deps[i],
                ) by {
                    if i < j {
                        assert(deps[i] == prev_deps[i]);
                    }
                }
            }
            j = j + 1;
        }
        proof {
            assert(ys@.take(ys@.len() as int) =~= ys@);
        }
        let mut ret = term_dep.append(unvisited_dep);
        ret.union_with_min(self_dep);
        proof {
            let rel = Set::new(
                |p: (usize, usize)|
                    system.universe_set().contains(p.0) && system.universe_set().contains(p.1)
                        && !system.visited_set().contains(p.1),
            );
            assert(cart@ =~= rel);
        }
        ret
    }
}

} // verus!
