//! Local oracles built from what the terms of a system depend on.
use std::collections::HashMap;
use std::marker::PhantomData;
use vstd::prelude::*;

use crate::arena::{indices_of, Key};
use crate::oracle::{local_flow, right_indices, LocalOracle};
use crate::set::bitset::relation::rights_last;
use crate::set::bitset::{BitSet, BitsetRelation};
use crate::{Cartesian, CopiedIter, Diagonal, System, Union, Universe, Visited, Without};

verus! {

/// A system whose variables are each defined by a term.
pub trait TermSystem<VarKey: Copy, VarValue: PartialOrd, TermKey: Copy>: System<VarKey, VarValue> {
    /// The term that defines a variable.
    spec fn definition_of(&self, variable: VarKey) -> TermKey;

    fn definition(&self, variable: VarKey) -> (r: TermKey)
        ensures
            r == self.definition_of(variable),
    ;
}

/// What the value of a term may depend on, for the terms of one kind of system.
pub trait LocalExtension<VarKey: Copy, VarValue: PartialOrd, TermKey: Copy, VarSet: View, PairSet: View, Sys: TermSystem<
    VarKey,
    VarValue,
    TermKey,
>> {
    /// What `depends` returns, over the views of its arguments.
    spec fn dependencies(&self, term: TermKey, assignment: HashMap<VarKey, VarValue>, possible: PairSet::V, system: Sys) -> VarSet::V;

    /// The variables that the value of `term` may depend on.
    fn depends(&self, term: TermKey, assignment: &HashMap<VarKey, VarValue>, possible: &PairSet, system: &Sys) -> (r: VarSet)
        ensures
            r@ == self.dependencies(term, *assignment, possible@, *system),
    ;
}

/// The local oracle of an extension: every unvisited variable may depend on anything, and a
/// visited variable on itself and on what its term depends on.
pub struct ExtensionOracle<K, V, T, VS, PS, S, E> {
    extension: E,
    _phantom_data: PhantomData<(K, V, T, VS, PS, S)>,
}

impl<K, V, T, VS, PS, S, E> ExtensionOracle<K, V, T, VS, PS, S, E> {
    pub closed spec fn extension_spec(self) -> E {
        self.extension
    }

    pub fn new(extension: E) -> (r: Self)
        ensures
            r.extension_spec() == extension,
    {
        ExtensionOracle { extension, _phantom_data: PhantomData }
    }
}

impl<K, V, T, VS, PS, S, E: Clone> Clone for ExtensionOracle<K, V, T, VS, PS, S, E> {
    fn clone(&self) -> Self {
        ExtensionOracle { extension: self.extension.clone(), _phantom_data: PhantomData }
    }
}

/// Where the right components are distinct, the last entry for the right component of entry `i`
/// is entry `i`.
pub proof fn lemma_rights_last_distinct<T, U: Key>(it: Seq<(BitSet<T>, U)>, i: int)
    requires
        right_indices(it).no_duplicates(),
        0 <= i < it.len(),
    ensures
        rights_last(it, it[i].1.key_index()) == it[i].0@,
    decreases it.len(),
{
    if i == it.len() - 1 {
    } else {
        let init = it.drop_last();
        assert(right_indices(init) =~= right_indices(it).drop_last());
        assert(right_indices(it)[i] == it[i].1.key_index());
        assert(right_indices(it)[it.len() - 1] == it.last().1.key_index());
        assert(init[i] == it[i]);
        lemma_rights_last_distinct(init, i);
    }
}

/// Without an entry for `right`, the relation has nothing in its column.
pub proof fn lemma_rights_last_absent<T, U: Key>(it: Seq<(BitSet<T>, U)>, right: usize)
    requires
        !right_indices(it).contains(right),
    ensures
        rights_last(it, right) == Set::<usize>::empty(),
    decreases it.len(),
{
    if it.len() > 0 {
        let init = it.drop_last();
        assert(right_indices(init) =~= right_indices(it).drop_last());
        assert(right_indices(it)[it.len() - 1] == it.last().1.key_index());
        if right_indices(init).contains(right) {
            let k = choose|k: int| 0 <= k < right_indices(init).len() && right_indices(init)[k] == right;
            assert(right_indices(it)[k] == right);
        }
        lemma_rights_last_absent(init, right);
    }
}

impl<
    K: Key,
    V: PartialOrd,
    T: Copy,
    S: TermSystem<K, V, T> + Universe<BitSet<K>> + Visited<BitSet<K>>,
    E: LocalExtension<K, V, T, BitSet<K>, BitsetRelation<K, K>, S>,
> LocalOracle<K, V, BitsetRelation<K, K>, S> for ExtensionOracle<K, V, T, BitSet<K>, BitsetRelation<K, K>, S, E> {
    open spec fn flow(&self, assignment: HashMap<K, V>, possible: Set<(usize, usize)>, system: S) -> Set<(usize, usize)> {
        local_flow(
            system.universe_set(),
            system.visited_set(),
            |y: usize| self.extension_spec().dependencies(system.definition_of(K::key_of(y)), assignment, possible, system),
        )
    }

    fn approximate_flow(&self, assignment: &HashMap<K, V>, possible: &BitsetRelation<K, K>, system: &S) -> (r: BitsetRelation<K, K>) {
        let visited = system.visited();
        let universe = system.universe();
        let unvisited = universe.clone().without(&visited);
        let unvisited_dep = universe.cartesian(&unvisited);
        let self_dep = visited.diagonal();
        let ys = visited.copied_iter();
        let ghost yi = indices_of(ys@);
        let ghost deps = |y: usize| self.extension.dependencies(system.definition_of(K::key_of(y)), *assignment, possible@, *system);
        let mut rights: Vec<(BitSet<K>, K)> = Vec::new();
        let mut j: usize = 0;
        while j < ys.len()
            invariant
                0 <= j <= ys@.len(),
                rights@.len() == j,
                yi == indices_of(ys@),
                deps == (|y: usize| self.extension.dependencies(system.definition_of(K::key_of(y)), *assignment, possible@, *system)),
                forall|i: int| 0 <= i < ys@.len() ==> (#[trigger] ys@[i]).key_index() < usize::MAX,
                forall|i: int| 0 <= i < j ==> (#[trigger] rights@[i]).1 == ys@[i],
                forall|i: int| 0 <= i < j ==> (#[trigger] rights@[i]).0@ == deps(ys@[i].key_index()),
            decreases ys@.len() - j,
        {
            let y = ys[j];
            let term = system.definition(y);
            let d = self.extension.depends(term, assignment, possible, system);
            proof {
                K::lemma_key_index(y, 0);
            }
            rights.push((d, y));
            j = j + 1;
        }
        let ghost rs = rights@;
        proof {
            assert(right_indices(rs) =~= yi);
        }
        let term_dep = BitsetRelation::from_rights(rights);
        let r = self_dep.union(unvisited_dep).union(term_dep);
        proof {
            let expected = self.flow(*assignment, possible@, *system);
            assert forall|p: (usize, usize)| #[trigger] r@.contains(p) <==> expected.contains(p) by {
                assert(yi.to_set().contains(p.1) == yi.contains(p.1));
                if yi.contains(p.1) {
                    let i = choose|i: int| 0 <= i < yi.len() && yi[i] == p.1;
                    lemma_rights_last_distinct(rs, i);
                } else {
                    lemma_rights_last_absent(rs, p.1);
                }
            }
            assert(r@ =~= expected);
        }
        r
    }
}

/// What the extension oracle answers: every visited variable is its own dependency; every
/// variable of the universe is a dependency of each unvisited variable of the universe; and a
/// visited variable has another variable as a dependency exactly where that variable is in the
/// dependencies the extension gives for its term.
pub proof fn lemma_extension_flow<
    K: Key,
    V: PartialOrd,
    T: Copy,
    S: TermSystem<K, V, T> + Universe<BitSet<K>> + Visited<BitSet<K>>,
    E: LocalExtension<K, V, T, BitSet<K>, BitsetRelation<K, K>, S>,
>(
    oracle: ExtensionOracle<K, V, T, BitSet<K>, BitsetRelation<K, K>, S, E>,
    assignment: HashMap<K, V>,
    possible: Set<(usize, usize)>,
    system: S,
)
    ensures
        forall|x: usize| #[trigger] system.visited_set().contains(x) ==> oracle.flow(assignment, possible, system).contains((x, x)),
        forall|x: usize, y: usize|
            system.universe_set().contains(x) && system.universe_set().contains(y) && !system.visited_set().contains(y) ==> #[trigger] oracle.flow(
                assignment,
                possible,
                system,
            ).contains((x, y)),
        forall|x: usize, y: usize|
            system.visited_set().contains(y) && x != y ==> (#[trigger] oracle.flow(assignment, possible, system).contains((x, y))
                <== oracle.extension_spec().dependencies(system.definition_of(K::key_of(y)), assignment, possible, system).contains(x)),
        forall|x: usize, y: usize|
            system.visited_set().contains(y) && x != y ==> (#[trigger] oracle.flow(assignment, possible, system).contains((x, y))
                ==> oracle.extension_spec().dependencies(system.definition_of(K::key_of(y)), assignment, possible, system).contains(x)),
{
}

} // verus!
