//! Boolean systems of equations: terms, and the local extensions that follow their structure.
use std::collections::{HashMap, HashSet};
use std::hash::Hash;
use std::marker::PhantomData;
use vstd::prelude::*;

use crate::arena::Key;
use crate::extension::{ExtensionOracle, LocalExtension, TermSystem};
use crate::ordered::extension::{StrategicExtension, StrategicExtensionOracle};
use crate::ordered::strategy::{
    extend_map, item_pairs, keep_right, weight_le, BinaryHeapStrategy, LazyHeap, StrategyItem, StrategyWeight,
};
use crate::set::bitset::{BitSet, BitsetRelation};
use crate::{assigned_value, Assignment, SetOps, SliceRight, UnionWith};

pub mod system;

pub use system::BoolSystemImpl;

verus! {

/// A term of a Boolean system: a constant, a variable, or a disjunction or conjunction of terms.
#[derive(Debug)]
pub enum BoolTerm<V, T> {
    True,
    False,
    Variable(V),
    Or(Vec<T>),
    And(Vec<T>),
}

/// The subterms of a term, in order.
pub open spec fn subterms<V, T>(t: BoolTerm<V, T>) -> Seq<T> {
    match t {
        BoolTerm::Or(ks) => ks@,
        BoolTerm::And(ks) => ks@,
        _ => Seq::empty(),
    }
}

/// Two terms are the same: of one kind, over the same variable or the same subterms in order.
pub open spec fn same_term<V, T>(a: BoolTerm<V, T>, b: BoolTerm<V, T>) -> bool {
    match (a, b) {
        (BoolTerm::True, BoolTerm::True) => true,
        (BoolTerm::False, BoolTerm::False) => true,
        (BoolTerm::Variable(x), BoolTerm::Variable(y)) => x == y,
        (BoolTerm::Or(p), BoolTerm::Or(q)) => p@ == q@,
        (BoolTerm::And(p), BoolTerm::And(q)) => p@ == q@,
        _ => false,
    }
}

/// A copy of a list of keys.
fn copy_keys<T: Copy>(ks: &Vec<T>) -> (r: Vec<T>)
    ensures
        r@ == ks@,
{
    let mut r: Vec<T> = Vec::new();
    let mut j: usize = 0;
    while j < ks.len()
        invariant
            0 <= j <= ks@.len(),
            r@ == ks@.take(j as int),
        decreases ks@.len() - j,
    {
        r.push(ks[j]);
        proof {
            assert(ks@.take(j + 1) =~= ks@.take(j as int).push(ks@[j as int]));
        }
        j = j + 1;
    }
    proof {
        assert(ks@.take(ks@.len() as int) =~= ks@);
    }
    r
}

impl<V: Copy, T: Copy> Clone for BoolTerm<V, T> {
    fn clone(&self) -> (r: Self)
        ensures
            same_term(r, *self),
    {
        match self {
            BoolTerm::True => BoolTerm::True,
            BoolTerm::False => BoolTerm::False,
            BoolTerm::Variable(v) => BoolTerm::Variable(*v),
            BoolTerm::Or(ks) => BoolTerm::Or(copy_keys(ks)),
            BoolTerm::And(ks) => BoolTerm::And(copy_keys(ks)),
        }
    }
}

/// A Boolean system: each variable defined by a term, each term found by its key.
pub trait BoolSystem<V: Copy, T: Copy, N>: TermSystem<V, bool, T> + Sized {
    /// The term of a key.
    spec fn term_of(&self, term_key: T) -> BoolTerm<V, T>;

    /// The height of a term: above the heights of its subterms.
    spec fn height(&self, term_key: T) -> nat;

    /// Subterms are lower than their term.
    proof fn lemma_subterms_lower(&self, term_key: T)
        ensures
            forall|i: int|
                0 <= i < subterms(self.term_of(term_key)).len() ==> #[trigger] self.height(subterms(self.term_of(term_key))[i])
                    < self.height(term_key),
    ;

    /// The term of a key.
    fn get_term(&self, term_key: T) -> (r: BoolTerm<V, T>)
        ensures
            same_term(r, self.term_of(term_key)),
    ;

    /// The value of a term under an assignment.
    spec fn value_of(&self, term_key: T, assignment: Map<V, bool>) -> bool;

    /// The value of a term under an assignment.
    fn evaluate_term(&self, term_key: T, assignment: &HashMap<V, bool>) -> (r: bool)
        ensures
            r == self.value_of(term_key, assignment@),
    ;
}

/// The local extension of Boolean systems.
pub struct BoolExtension<TermKey, VarName, VarSet>(PhantomData<(TermKey, VarName, VarSet)>);

impl<K, T, N> BoolExtension<T, N, HashSet<K>> {
    /// The name the oracle is shown by.
    pub fn name(&self) -> (r: String)
        ensures
            r@ == "Bool:hashset"@,
    {
        String::from_str("Bool:hashset")
    }

    pub fn hashset() -> Self {
        BoolExtension(PhantomData)
    }
}

impl<K, T, N> BoolExtension<T, N, BitSet<K>> {
    /// The name the oracle is shown by.
    pub fn name(&self) -> (r: String)
        ensures
            r@ == "Bool:bitset"@,
    {
        String::from_str("Bool:bitset")
    }

    pub fn bitset() -> Self {
        BoolExtension(PhantomData)
    }
}

impl<TermKey, VarName, VarSet> BoolExtension<TermKey, VarName, VarSet> {
    /// The local oracle of the extension.
    pub fn as_oracle<VarKey, PairSet, System>(self) -> (r: ExtensionOracle<VarKey, bool, TermKey, VarSet, PairSet, System, Self>)
        ensures
            r.extension_spec() == self,
    {
        ExtensionOracle::new(self)
    }
}

impl<TermKey, VarName, VarSet> Default for BoolExtension<TermKey, VarName, VarSet> {
    fn default() -> Self {
        BoolExtension(PhantomData)
    }
}

impl<TermKey, VarName, VarSet> Clone for BoolExtension<TermKey, VarName, VarSet> {
    fn clone(&self) -> Self {
        BoolExtension(PhantomData)
    }
}

/// The strategic local extension of Boolean systems.
pub struct StrategicBoolExtension<VS>(PhantomData<VS>);

impl<K> StrategicBoolExtension<HashSet<K>> {
    /// The name the oracle is shown by.
    pub fn name(&self) -> (r: String)
        ensures
            r@ == "StrategicBool:hashset"@,
    {
        String::from_str("StrategicBool:hashset")
    }

    pub fn hashset() -> Self {
        StrategicBoolExtension(PhantomData)
    }
}

impl<K> StrategicBoolExtension<BitSet<K>> {
    /// The name the oracle is shown by.
    pub fn name(&self) -> (r: String)
        ensures
            r@ == "StrategicBool:bitset"@,
    {
        String::from_str("StrategicBool:bitset")
    }

    pub fn bitset() -> Self {
        StrategicBoolExtension(PhantomData)
    }
}

impl<VS> StrategicBoolExtension<VS> {
    /// The strategic local oracle of the extension.
    pub fn as_oracle<K, V, T, N, VarStrat, S>(self) -> (r: StrategicExtensionOracle<K, V, T, N, VS, VarStrat, S, Self>)
        ensures
            r.extension_spec() == self,
    {
        StrategicExtensionOracle::new(self)
    }
}

impl<VS> Default for StrategicBoolExtension<VS> {
    fn default() -> Self {
        StrategicBoolExtension(PhantomData)
    }
}

impl<VS> Clone for StrategicBoolExtension<VS> {
    fn clone(&self) -> Self {
        StrategicBoolExtension(PhantomData)
    }
}

/// The variables that the value of the term of `t` may depend on, given the pairs that
/// `possible` holds: a false variable depends on what may reach it; a disjunction whose subterms
/// are all false on what they depend on; a false conjunction on what its false subterms depend
/// on, unless one of them depends on nothing.
pub open spec fn bool_deps<K: Key, T: Copy, N, S: BoolSystem<K, T, N>>(s: S, t: T, a: Map<K, bool>, possible: Set<(usize, usize)>) -> Set<usize>
    decreases s.height(t) + 1, 0nat,
{
    match s.term_of(t) {
        BoolTerm::Variable(y) => if !assigned_value(a, y) {
            Set::new(|l: usize| possible.contains((l, y.key_index())))
        } else {
            Set::empty()
        },
        BoolTerm::Or(ks) => if forall|i: int| 0 <= i < ks@.len() ==> !s.value_of(#[trigger] ks@[i], a) {
            deps_union(s, t, a, possible, ks@.len() as nat, false)
        } else {
            Set::empty()
        },
        BoolTerm::And(ks) => if and_blocked(s, t, a, possible, ks@.len() as nat) {
            Set::empty()
        } else {
            deps_union(s, t, a, possible, ks@.len() as nat, true)
        },
        _ => Set::empty(),
    }
}

/// The union of what the first `n` subterms of the term of `t` depend on; where `false_only`,
/// of the false subterms alone.
pub open spec fn deps_union<K: Key, T: Copy, N, S: BoolSystem<K, T, N>>(
    s: S,
    t: T,
    a: Map<K, bool>,
    possible: Set<(usize, usize)>,
    n: nat,
    false_only: bool,
) -> Set<usize>
    decreases s.height(t), n,
{
    if n == 0 || n > subterms(s.term_of(t)).len() {
        Set::empty()
    } else {
        let k = subterms(s.term_of(t))[n - 1];
        proof {
            s.lemma_subterms_lower(t);
            assert(s.height(k) < s.height(t));
        }
        let rest = deps_union(s, t, a, possible, (n - 1) as nat, false_only);
        if false_only && s.value_of(k, a) {
            rest
        } else {
            rest.union(bool_deps(s, k, a, possible))
        }
    }
}

/// Whether one of the first `n` subterms of the conjunction `t` is false and depends on nothing,
/// while `t` is false.
pub open spec fn and_blocked<K: Key, T: Copy, N, S: BoolSystem<K, T, N>>(
    s: S,
    t: T,
    a: Map<K, bool>,
    possible: Set<(usize, usize)>,
    n: nat,
) -> bool
    decreases s.height(t), n,
{
    if n == 0 || n > subterms(s.term_of(t)).len() {
        false
    } else {
        let k = subterms(s.term_of(t))[n - 1];
        proof {
            s.lemma_subterms_lower(t);
            assert(s.height(k) < s.height(t));
        }
        and_blocked(s, t, a, possible, (n - 1) as nat) || (!s.value_of(k, a) && bool_deps(s, k, a, possible).is_empty()
            && !s.value_of(t, a))
    }
}

/// A blocked conjunction stays blocked over more subterms.
proof fn lemma_blocked_grows<K: Key, T: Copy, N, S: BoolSystem<K, T, N>>(
    s: S,
    t: T,
    a: Map<K, bool>,
    possible: Set<(usize, usize)>,
    m: nat,
    n: nat,
)
    requires
        m <= n <= subterms(s.term_of(t)).len(),
        and_blocked(s, t, a, possible, m),
    ensures
        and_blocked(s, t, a, possible, n),
    decreases n - m,
{
    if m < n {
        lemma_blocked_grows(s, t, a, possible, m, (n - 1) as nat);
    }
}

/// What the term of `term` may depend on; see `bool_deps`.
fn bool_depends<K: Key + Eq + Hash, T: Copy, N, S: BoolSystem<K, T, N>>(
    term: T,
    assignment: &HashMap<K, bool>,
    possible: &BitsetRelation<K, K>,
    system: &S,
) -> (r: BitSet<K>)
    ensures
        r@ == bool_deps(*system, term, assignment@, possible@),
    decreases system.height(term),
{
    let ghost a = assignment@;
    let ghost p = possible@;
    let shape = system.get_term(term);
    proof {
        system.lemma_subterms_lower(term);
    }
    match shape {
        BoolTerm::Variable(y) => {
            if !assignment.get_assignment(&y) {
                possible.slice_right(y)
            } else {
                BitSet::new()
            }
        },
        BoolTerm::True => BitSet::new(),
        BoolTerm::False => BitSet::new(),
        BoolTerm::Or(ks) => {
            let ghost subs = subterms(system.term_of(term));
            let mut all_false = true;
            let mut j: usize = 0;
            while j < ks.len()
                invariant
                    0 <= j <= ks@.len(),
                    ks@ == subs,
                    all_false <==> forall|i: int| 0 <= i < j ==> !system.value_of(#[trigger] ks@[i], a),
                    a == assignment@,
                decreases ks@.len() - j,
            {
                if system.evaluate_term(ks[j], assignment) {
                    all_false = false;
                }
                j = j + 1;
            }
            if all_false {
                let mut acc = BitSet::new();
                let mut j: usize = 0;
                while j < ks.len()
                    invariant
                        0 <= j <= ks@.len(),
                        ks@ == subs,
                        subs == subterms(system.term_of(term)),
                        forall|i: int| 0 <= i < subs.len() ==> #[trigger] system.height(subs[i]) < system.height(term),
                        acc@ == deps_union(*system, term, a, p, j as nat, false),
                        a == assignment@,
                        p == possible@,
                    decreases ks@.len() - j,
                {
                    let d = bool_depends(ks[j], assignment, possible, system);
                    acc.union_with(d);
                    j = j + 1;
                }
                acc
            } else {
                BitSet::new()
            }
        },
        BoolTerm::And(ks) => {
            let ghost subs = subterms(system.term_of(term));
            let mut acc = BitSet::new();
            let mut j: usize = 0;
            while j < ks.len()
                invariant
                    0 <= j <= ks@.len(),
                    ks@ == subs,
                    subs == subterms(system.term_of(term)),
                    forall|i: int| 0 <= i < subs.len() ==> #[trigger] system.height(subs[i]) < system.height(term),
                    !and_blocked(*system, term, a, p, j as nat),
                    system.term_of(term) is And,
                    acc@ == deps_union(*system, term, a, p, j as nat, true),
                    a == assignment@,
                    p == possible@,
                decreases ks@.len() - j,
            {
                let k = ks[j];
                if !system.evaluate_term(k, assignment) {
                    let d = bool_depends(k, assignment, possible, system);
                    if d.is_empty() && !system.evaluate_term(term, assignment) {
                        proof {
                            assert(and_blocked(*system, term, a, p, (j + 1) as nat));
                            lemma_blocked_grows(*system, term, a, p, (j + 1) as nat, ks@.len() as nat);
                            assert(subterms(system.term_of(term)).len() == ks@.len());
                        }
                        return BitSet::new();
                    }
                    acc.union_with(d);
                }
                j = j + 1;
            }
            acc
        },
    }
}

impl<K: Key + Eq + Hash, T: Copy, N, S: BoolSystem<K, T, N>> LocalExtension<K, bool, T, BitSet<K>, BitsetRelation<K, K>, S> for BoolExtension<
    T,
    N,
    BitSet<K>,
> {
    open spec fn dependencies(&self, term: T, assignment: HashMap<K, bool>, possible: Set<(usize, usize)>, system: S) -> Set<usize> {
        bool_deps(system, term, assignment@, possible)
    }

    fn depends(&self, term: T, assignment: &HashMap<K, bool>, possible: &BitsetRelation<K, K>, system: &S) -> (r: BitSet<K>) {
        bool_depends(term, assignment, possible, system)
    }
}

/// The sum of two weights, held at the largest number where it would leave the range; anything
/// plus `Infinity` is `Infinity`.
pub open spec fn weight_sum(a: StrategyWeight, b: StrategyWeight) -> StrategyWeight {
    match (a, b) {
        (StrategyWeight::Num(x), StrategyWeight::Num(y)) => if x + y <= u64::MAX {
            StrategyWeight::Num((x + y) as u64)
        } else {
            StrategyWeight::Num(u64::MAX)
        },
        _ => StrategyWeight::Infinity,
    }
}

/// The earlier of two weights.
pub open spec fn weight_min(a: StrategyWeight, b: StrategyWeight) -> StrategyWeight {
    if weight_le(a, b) {
        a
    } else {
        b
    }
}

/// The union of two weightings: a value in both gets `f` of its two weights.
pub open spec fn union_by<K>(m1: Map<K, StrategyWeight>, m2: Map<K, StrategyWeight>, f: spec_fn(StrategyWeight, StrategyWeight) -> StrategyWeight) -> Map<
    K,
    StrategyWeight,
> {
    Map::new(
        |k: K| m1.contains_key(k) || m2.contains_key(k),
        |k: K|
            if m1.contains_key(k) && m2.contains_key(k) {
                f(m1[k], m2[k])
            } else if m1.contains_key(k) {
                m1[k]
            } else {
                m2[k]
            },
    )
}

/// The weight of each value of a list of weighted values; a later weight wins.
pub open spec fn pair_weights<K>(s: Seq<(StrategyWeight, K)>) -> Map<K, StrategyWeight>
    decreases s.len(),
{
    if s.len() == 0 {
        Map::empty()
    } else {
        pair_weights(s.drop_last()).insert(s.last().1, s.last().0)
    }
}

/// Inserting items into an empty weighting gives the weights of their pairs.
proof fn lemma_extend_pairs<K>(items: Seq<StrategyItem<K>>)
    ensures
        extend_map(Map::empty(), items) == pair_weights(item_pairs(items)),
    decreases items.len(),
{
    if items.len() > 0 {
        assert(item_pairs(items).drop_last() =~= item_pairs(items.drop_last()));
        lemma_extend_pairs(items.drop_last());
    }
}

/// The weighted variables that the value of the term of `t` may depend on, under a strategy: a
/// false variable on the pairs of the strategy into it; a disjunction whose subterms are all
/// false on what they depend on, at the lower weight; a conjunction on what its false subterms
/// depend on, at the summed weight.
pub open spec fn strat_bool_deps<K: Key, T: Copy, N, S: BoolSystem<K, T, N>>(
    s: S,
    t: T,
    a: Map<K, bool>,
    strategy: Seq<(StrategyWeight, (K, K))>,
) -> Map<K, StrategyWeight>
    decreases s.height(t) + 1, 0nat,
{
    match s.term_of(t) {
        BoolTerm::Variable(y) => if !assigned_value(a, y) {
            pair_weights(keep_right(strategy, y.key_index()))
        } else {
            Map::empty()
        },
        BoolTerm::Or(ks) => if forall|i: int| 0 <= i < ks@.len() ==> !s.value_of(#[trigger] ks@[i], a) {
            strat_union(s, t, a, strategy, ks@.len() as nat, false)
        } else {
            Map::empty()
        },
        BoolTerm::And(ks) => strat_union(s, t, a, strategy, ks@.len() as nat, true),
        _ => Map::empty(),
    }
}

/// The union over the first `n` subterms of the term of `t`: for a conjunction, over its false
/// subterms at the summed weight; otherwise over all of them at the lower weight.
pub open spec fn strat_union<K: Key, T: Copy, N, S: BoolSystem<K, T, N>>(
    s: S,
    t: T,
    a: Map<K, bool>,
    strategy: Seq<(StrategyWeight, (K, K))>,
    n: nat,
    conjunction: bool,
) -> Map<K, StrategyWeight>
    decreases s.height(t), n,
{
    if n == 0 || n > subterms(s.term_of(t)).len() {
        Map::empty()
    } else {
        let k = subterms(s.term_of(t))[n - 1];
        proof {
            s.lemma_subterms_lower(t);
            assert(s.height(k) < s.height(t));
        }
        let rest = strat_union(s, t, a, strategy, (n - 1) as nat, conjunction);
        if conjunction {
            if s.value_of(k, a) {
                rest
            } else {
                union_by(rest, strat_bool_deps(s, k, a, strategy), |x: StrategyWeight, y: StrategyWeight| weight_sum(x, y))
            }
        } else {
            union_by(rest, strat_bool_deps(s, k, a, strategy), |x: StrategyWeight, y: StrategyWeight| weight_min(x, y))
        }
    }
}

/// `r` lists every weighted value of `m` once.
pub open spec fn lists_weights<K>(r: Seq<(StrategyWeight, K)>, m: Map<K, StrategyWeight>) -> bool {
    &&& r.len() == m.dom().len()
    &&& forall|i: int| 0 <= i < r.len() ==> m.contains_key((#[trigger] r[i]).1) && m[r[i].1] == r[i].0
    &&& forall|k: K| #[trigger] m.contains_key(k) ==> r.contains((m[k], k))
}

/// The earlier of two weights.
fn min_weight(x: StrategyWeight, y: StrategyWeight) -> (r: StrategyWeight)
    ensures
        r == weight_min(x, y),
{
    x.min(y)
}

/// The sum of two weights, held at the largest number where it would leave the range.
fn sum_weight(x: StrategyWeight, y: StrategyWeight) -> (r: StrategyWeight)
    ensures
        r == weight_sum(x, y),
{
    match (x, y) {
        (StrategyWeight::Num(p), StrategyWeight::Num(q)) => StrategyWeight::Num(p.saturating_add(q)),
        _ => StrategyWeight::Infinity,
    }
}

/// Join `other` into `acc`, a value in both at the lower weight.
fn join_min<K: Key + Eq + Hash>(acc: &mut LazyHeap<K, BinaryHeapStrategy<K>>, other: LazyHeap<K, BinaryHeapStrategy<K>>)
    ensures
        final(acc).items() == union_by(old(acc).items(), other.items(), |x: StrategyWeight, y: StrategyWeight| weight_min(x, y)),
{
    let ghost before = acc.items();
    let ghost theirs = other.items();
    acc.union_with_by(
        other,
        min_weight,
    );
    proof {
        assert(acc.items() =~= union_by(before, theirs, |x: StrategyWeight, y: StrategyWeight| weight_min(x, y)));
    }
}

/// Join `other` into `acc`, a value in both at the summed weight.
fn join_sum<K: Key + Eq + Hash>(acc: &mut LazyHeap<K, BinaryHeapStrategy<K>>, other: LazyHeap<K, BinaryHeapStrategy<K>>)
    ensures
        final(acc).items() == union_by(old(acc).items(), other.items(), |x: StrategyWeight, y: StrategyWeight| weight_sum(x, y)),
{
    let ghost before = acc.items();
    let ghost theirs = other.items();
    acc.union_with_by(
        other,
        sum_weight,
    );
    proof {
        assert(acc.items() =~= union_by(before, theirs, |x: StrategyWeight, y: StrategyWeight| weight_sum(x, y)));
    }
}

/// What the term of `term` may depend on, with weights; see `strat_bool_deps`.
fn strat_bool_depends<K: Key + Eq + Hash, T: Copy, N, S: BoolSystem<K, T, N>>(
    term: T,
    assignment: &HashMap<K, bool>,
    strategy: &BinaryHeapStrategy<(K, K)>,
    system: &S,
) -> (r: LazyHeap<K, BinaryHeapStrategy<K>>)
    ensures
        r.items() == strat_bool_deps(*system, term, assignment@, strategy@),
    decreases system.height(term),
{
    let ghost a = assignment@;
    let ghost p = strategy@;
    let shape = system.get_term(term);
    proof {
        system.lemma_subterms_lower(term);
    }
    match shape {
        BoolTerm::Variable(y) => {
            if !assignment.get_assignment(&y) {
                let sliced = strategy.slice_right_ref(y);
                let items = sliced.iter();
                proof {
                    lemma_extend_pairs(items@);
                }
                LazyHeap::from_items(items)
            } else {
                LazyHeap::new()
            }
        },
        BoolTerm::True => LazyHeap::new(),
        BoolTerm::False => LazyHeap::new(),
        BoolTerm::Or(ks) => {
            let ghost subs = subterms(system.term_of(term));
            let mut all_false = true;
            let mut j: usize = 0;
            while j < ks.len()
                invariant
                    0 <= j <= ks@.len(),
                    ks@ == subs,
                    all_false <==> forall|i: int| 0 <= i < j ==> !system.value_of(#[trigger] ks@[i], a),
                    a == assignment@,
                decreases ks@.len() - j,
            {
                if system.evaluate_term(ks[j], assignment) {
                    all_false = false;
                }
                j = j + 1;
            }
            if all_false {
                let mut acc = LazyHeap::new();
                let mut j: usize = 0;
                while j < ks.len()
                    invariant
                        0 <= j <= ks@.len(),
                        ks@ == subs,
                        subs == subterms(system.term_of(term)),
                        forall|i: int| 0 <= i < subs.len() ==> #[trigger] system.height(subs[i]) < system.height(term),
                        acc.items() == strat_union(*system, term, a, p, j as nat, false),
                        a == assignment@,
                        p == strategy@,
                    decreases ks@.len() - j,
                {
                    let d = strat_bool_depends(ks[j], assignment, strategy, system);
                    join_min(&mut acc, d);
                    j = j + 1;
                }
                acc
            } else {
                LazyHeap::new()
            }
        },
        BoolTerm::And(ks) => {
            let ghost subs = subterms(system.term_of(term));
            let mut acc = LazyHeap::new();
            let mut j: usize = 0;
            while j < ks.len()
                invariant
                    0 <= j <= ks@.len(),
                    ks@ == subs,
                    subs == subterms(system.term_of(term)),
                    forall|i: int| 0 <= i < subs.len() ==> #[trigger] system.height(subs[i]) < system.height(term),
                    acc.items() == strat_union(*system, term, a, p, j as nat, true),
                    a == assignment@,
                    p == strategy@,
                decreases ks@.len() - j,
            {
                let k = ks[j];
                if !system.evaluate_term(k, assignment) {
                    let d = strat_bool_depends(k, assignment, strategy, system);
                    join_sum(&mut acc, d);
                }
                j = j + 1;
            }
            acc
        },
    }
}

impl<K: Key + Eq + Hash, T: Copy, N, S: BoolSystem<K, T, N>> StrategicExtension<
    K,
    bool,
    T,
    N,
    BitSet<K>,
    BinaryHeapStrategy<K>,
    BinaryHeapStrategy<(K, K)>,
    S,
> for StrategicBoolExtension<BitSet<K>> {
    /// The result lists each weighted variable of `strat_bool_deps` once.
    open spec fn depends_on(
        &self,
        term: T,
        assignment: HashMap<K, bool>,
        strategy: Seq<(StrategyWeight, (K, K))>,
        system: S,
        result: Seq<(StrategyWeight, K)>,
    ) -> bool {
        lists_weights(result, strat_bool_deps(system, term, assignment@, strategy))
    }

    fn depends(&self, term: T, assignment: &HashMap<K, bool>, strategy: &BinaryHeapStrategy<(K, K)>, system: &S) -> (r: BinaryHeapStrategy<K>) {
        let weights = strat_bool_depends(term, assignment, strategy, system);
        let items = weights.iter();
        let r = BinaryHeapStrategy::from_items(items);
        proof {
            let m = weights.items();
            assert forall|k: K| #[trigger] m.contains_key(k) implies r@.contains((m[k], k)) by {
                assert(items@.contains(StrategyItem(m[k], k)));
                let i = choose|i: int| 0 <= i < items@.len() && items@[i] == StrategyItem(m[k], k);
                assert(r@[i] == (m[k], k));
            }
        }
        r
    }
}

} // verus!
