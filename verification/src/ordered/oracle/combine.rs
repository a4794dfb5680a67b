//! Combinators of strategic local oracles, and strategic local oracles made of local ones.
use std::collections::HashMap;
use std::marker::PhantomData;
use vstd::prelude::*;

use crate::arena::{pair_indices_of, Key};
use crate::oracle::LocalOracle;
use crate::ordered::oracle::StrategicLocalOracle;
use crate::ordered::strategy::{last_weight, intersected_by, keep_pairs_in, BinaryHeapStrategy, IntersectBy, StrategyItem, StrategyWeight};
use crate::set::bitset::BitsetRelation;
use crate::kleene::{settles, top_value};
use crate::ordered::kleene::{answer_state, item_pair_set, sound_strategic_oracle};
use crate::set::bitset::BitSet;
use crate::{assigned_value, Bottom, System, Universe, Value};

verus! {

/// A composition of strategic local oracles: `outer` applied to the strategy that `inner` returns.
pub struct ComposeStrategic<K, V, PS, S, T, U> {
    outer: T,
    inner: U,
    _phantom_data: PhantomData<(K, V, PS, S)>,
}

impl<K, V, PS, S, T, U> ComposeStrategic<K, V, PS, S, T, U> {
    pub closed spec fn outer_oracle(self) -> T {
        self.outer
    }

    pub closed spec fn inner_oracle(self) -> U {
        self.inner
    }
}

impl<
    K,
    V: PartialOrd,
    PS: View,
    S: System<K, V>,
    T: StrategicLocalOracle<K, V, PS, S>,
    U: StrategicLocalOracle<K, V, PS, S>,
> StrategicLocalOracle<K, V, PS, S> for ComposeStrategic<K, V, PS, S, T, U> {
    open spec fn strategy_flow(&self, assignment: HashMap<K, V>, strategy: PS::V, system: S, result: PS::V) -> bool {
        exists|mid: PS::V|
            #[trigger] self.inner_oracle().strategy_flow(assignment, strategy, system, mid) && self.outer_oracle().strategy_flow(
                assignment,
                mid,
                system,
                result,
            )
    }

    fn get_strategy(&self, assignment: &HashMap<K, V>, strategy: &PS, system: &S) -> (r: PS) {
        let mid = self.inner.get_strategy(assignment, strategy, system);
        let r = self.outer.get_strategy(assignment, &mid, system);
        proof {
            assert(self.inner_oracle().strategy_flow(*assignment, strategy@, *system, mid@));
        }
        r
    }
}

impl<K, V, PS, S, T: Clone, U: Clone> Clone for ComposeStrategic<K, V, PS, S, T, U> {
    fn clone(&self) -> Self {
        ComposeStrategic { outer: self.outer.clone(), inner: self.inner.clone(), _phantom_data: PhantomData }
    }
}

/// An intersection of strategic local oracles: the items of `left` whose pair `right` weighs as
/// well, weighted by `f` of the two weights.
pub struct IntersectByStrategic<K, V, PS, S, T, U, F: Fn(StrategyWeight, StrategyWeight) -> StrategyWeight> {
    left: T,
    right: U,
    name: Option<&'static str>,
    f: F,
    _phantom_data: PhantomData<(K, V, PS, S)>,
}

impl<K, V, PS, S, T, U, F: Fn(StrategyWeight, StrategyWeight) -> StrategyWeight> IntersectByStrategic<K, V, PS, S, T, U, F> {
    pub closed spec fn left_oracle(self) -> T {
        self.left
    }

    pub closed spec fn right_oracle(self) -> U {
        self.right
    }

    /// The function that weighs a pair of both.
    pub closed spec fn weigher(self) -> F {
        self.f
    }

    /// The name the intersection is shown by, if any.
    pub closed spec fn label(self) -> Option<&'static str> {
        self.name
    }

    /// The weigher accepts every pair of weights.
    #[verifier::type_invariant]
    closed spec fn weigher_total(self) -> bool {
        forall|a: StrategyWeight, b: StrategyWeight| call_requires(self.f, (a, b))
    }

    /// The name the intersection is shown by, if any.
    pub fn name(&self) -> (r: Option<&'static str>)
        ensures
            r == self.label(),
    {
        self.name
    }
}

impl<
    K: Key,
    V: PartialOrd,
    S: System<K, V>,
    T: StrategicLocalOracle<K, V, BinaryHeapStrategy<(K, K)>, S>,
    U: StrategicLocalOracle<K, V, BinaryHeapStrategy<(K, K)>, S>,
    F: Fn(StrategyWeight, StrategyWeight) -> StrategyWeight,
> StrategicLocalOracle<K, V, BinaryHeapStrategy<(K, K)>, S> for IntersectByStrategic<
    K,
    V,
    BinaryHeapStrategy<(K, K)>,
    S,
    T,
    U,
    F,
> where (K, K): Copy {
    open spec fn strategy_flow(
        &self,
        assignment: HashMap<K, V>,
        strategy: Seq<(StrategyWeight, (K, K))>,
        system: S,
        result: Seq<(StrategyWeight, (K, K))>,
    ) -> bool {
        exists|l: Seq<(StrategyWeight, (K, K))>, r: Seq<(StrategyWeight, (K, K))>|
            #[trigger] self.left_oracle().strategy_flow(assignment, strategy, system, l) && #[trigger] self.right_oracle().strategy_flow(
                assignment,
                strategy,
                system,
                r,
            ) && intersected_by(l, r, &self.weigher(), result)
    }

    fn get_strategy(&self, assignment: &HashMap<K, V>, strategy: &BinaryHeapStrategy<(K, K)>, system: &S) -> (r: BinaryHeapStrategy<(K, K)>) {
        proof {
            use_type_invariant(self);
        }
        let l = self.left.get_strategy(assignment, strategy, system);
        let rr = self.right.get_strategy(assignment, strategy, system);
        let ghost lv = l@;
        let ghost rv = rr@;
        let r = l.intersect_by(&rr, &self.f);
        proof {
            assert(self.left_oracle().strategy_flow(*assignment, strategy@, *system, lv));
            assert(self.right_oracle().strategy_flow(*assignment, strategy@, *system, rv));
        }
        r
    }
}

impl<K, V, PS, S, T: Clone, U: Clone, F: Fn(StrategyWeight, StrategyWeight) -> StrategyWeight + Copy> Clone for IntersectByStrategic<
    K,
    V,
    PS,
    S,
    T,
    U,
    F,
> {
    fn clone(&self) -> Self {
        proof {
            use_type_invariant(self);
        }
        IntersectByStrategic {
            left: self.left.clone(),
            right: self.right.clone(),
            name: self.name,
            f: self.f,
            _phantom_data: PhantomData,
        }
    }
}

/// Combinators of strategic local oracles.
pub trait CombineStrategic<K, V: PartialOrd, PS: View, S: System<K, V>>: StrategicLocalOracle<K, V, PS, S> + Sized {
    /// The oracle that applies `other` to the strategy that `self` returns.
    fn then<O: StrategicLocalOracle<K, V, PS, S>>(self, other: O) -> (r: ComposeStrategic<K, V, PS, S, O, Self>)
        ensures
            r.outer_oracle() == other,
            r.inner_oracle() == self,
    {
        ComposeStrategic { outer: other, inner: self, _phantom_data: PhantomData }
    }

    /// The oracle that keeps the items of `self` whose pair `other` weighs as well, weighted by `f`
    /// of the two weights.
    fn and_by<O: StrategicLocalOracle<K, V, PS, S>, F: Fn(StrategyWeight, StrategyWeight) -> StrategyWeight>(self, other: O, f: F) -> (r:
        IntersectByStrategic<K, V, PS, S, Self, O, F>)
        requires
            forall|a: StrategyWeight, b: StrategyWeight| call_requires(f, (a, b)),
        ensures
            r.left_oracle() == self,
            r.right_oracle() == other,
            r.weigher() == f,
            r.label() == None::<&'static str>,
    {
        IntersectByStrategic { left: self, right: other, name: None, f, _phantom_data: PhantomData }
    }

    /// As `and_by`, shown by the given name.
    fn and_by_with_name<O: StrategicLocalOracle<K, V, PS, S>, F: Fn(StrategyWeight, StrategyWeight) -> StrategyWeight>(
        self,
        other: O,
        f: F,
        name: &'static str,
    ) -> (r: IntersectByStrategic<K, V, PS, S, Self, O, F>)
        requires
            forall|a: StrategyWeight, b: StrategyWeight| call_requires(f, (a, b)),
        ensures
            r.left_oracle() == self,
            r.right_oracle() == other,
            r.weigher() == f,
            r.label() == Some(name),
    {
        IntersectByStrategic { left: self, right: other, name: Some(name), f, _phantom_data: PhantomData }
    }
}

impl<K, V: PartialOrd, PS: View, S: System<K, V>, T: StrategicLocalOracle<K, V, PS, S>> CombineStrategic<K, V, PS, S> for T {
}

/// The pairs of the items of `s` whose indices a relation can hold.
pub open spec fn domain_pairs<K: Key>(s: Seq<(StrategyWeight, (K, K))>) -> Set<(usize, usize)> {
    Set::new(
        |p: (usize, usize)|
            p.0 < usize::MAX && p.1 < usize::MAX && exists|i: int|
                0 <= i < s.len() && (#[trigger] s[i]).1.0.key_index() == p.0 && s[i].1.1.key_index() == p.1,
    )
}

/// The relation of the pairs of a strategy.
fn pair_domain<K: Key>(strategy: &BinaryHeapStrategy<(K, K)>) -> (r: BitsetRelation<K, K>)
    ensures
        r@ == domain_pairs(strategy@),
{
    let items = strategy.iter();
    let mut pairs: Vec<(K, K)> = Vec::new();
    let mut j: usize = 0;
    while j < items.len()
        invariant
            0 <= j <= items@.len(),
            crate::ordered::strategy::item_pairs(items@) == strategy@,
            forall|i: int| 0 <= i < pairs@.len() ==> (#[trigger] pair_indices_of(pairs@)[i]).0 < usize::MAX
                && pair_indices_of(pairs@)[i].1 < usize::MAX,
            forall|p: (usize, usize)| #[trigger] pair_indices_of(pairs@).contains(p) <==> (p.0 < usize::MAX && p.1 < usize::MAX
                && exists|i: int| 0 <= i < j && (#[trigger] strategy@[i]).1.0.key_index() == p.0 && strategy@[i].1.1.key_index() == p.1),
        decreases items@.len() - j,
    {
        let (x, y) = items[j].1;
        proof {
            assert(strategy@[j as int] == (items@[j as int].0, items@[j as int].1));
        }
        if x.index() < usize::MAX && y.index() < usize::MAX {
            let ghost before = pairs@;
            pairs.push((x, y));
            proof {
                assert(pair_indices_of(pairs@) =~= pair_indices_of(before).push((x.key_index(), y.key_index())));
                assert forall|p: (usize, usize)| #[trigger] pair_indices_of(pairs@).contains(p) <==> (p.0 < usize::MAX && p.1
                    < usize::MAX && exists|i: int|
                    0 <= i < j + 1 && (#[trigger] strategy@[i]).1.0.key_index() == p.0 && strategy@[i].1.1.key_index() == p.1) by {
                    vstd::seq_lib::lemma_seq_contains_after_push(pair_indices_of(before), (x.key_index(), y.key_index()), p);
                }
            }
        } else {
            proof {
                assert forall|p: (usize, usize)| #[trigger] pair_indices_of(pairs@).contains(p) <==> (p.0 < usize::MAX && p.1
                    < usize::MAX && exists|i: int|
                    0 <= i < j + 1 && (#[trigger] strategy@[i]).1.0.key_index() == p.0 && strategy@[i].1.1.key_index() == p.1) by {
                    if p.0 < usize::MAX && p.1 < usize::MAX && exists|i: int|
                        0 <= i < j + 1 && (#[trigger] strategy@[i]).1.0.key_index() == p.0 && strategy@[i].1.1.key_index() == p.1 {
                        let i = choose|i: int|
                            0 <= i < j + 1 && (#[trigger] strategy@[i]).1.0.key_index() == p.0 && strategy@[i].1.1.key_index() == p.1;
                        assert(i < j);
                    }
                }
            }
        }
        j = j + 1;
    }
    let r = BitsetRelation::from_pairs(pairs);
    proof {
        assert(r@ =~= domain_pairs(strategy@)) by {
            assert forall|p: (usize, usize)| r@.contains(p) == domain_pairs(strategy@).contains(p) by {
                assert(r@.contains(p) == pair_indices_of(pairs@).contains(p));
            }
        }
    }
    r
}

/// A local oracle made strategic: each pair it keeps of the strategy's domain gets the same
/// weight.
pub struct Constant<K, V, PS, S, O> {
    oracle: O,
    value: StrategyWeight,
    _phantom_data: PhantomData<(K, V, PS, S)>,
}

impl<K, V, PS, S, O> Constant<K, V, PS, S, O> {
    pub closed spec fn inner_oracle(self) -> O {
        self.oracle
    }

    /// The weight of every pair.
    pub closed spec fn weight(self) -> StrategyWeight {
        self.value
    }
}

impl<K: Key, V: PartialOrd, S: System<K, V>, O: LocalOracle<K, V, BitsetRelation<K, K>, S>> StrategicLocalOracle<
    K,
    V,
    BinaryHeapStrategy<(K, K)>,
    S,
> for Constant<K, V, BitsetRelation<K, K>, S, O> {
    open spec fn strategy_flow(
        &self,
        assignment: HashMap<K, V>,
        strategy: Seq<(StrategyWeight, (K, K))>,
        system: S,
        result: Seq<(StrategyWeight, (K, K))>,
    ) -> bool {
        &&& forall|i: int| 0 <= i < result.len() ==> (#[trigger] result[i]).0 == self.weight()
        &&& forall|p: (usize, usize)| #[trigger] self.inner_oracle().flow(assignment, domain_pairs(strategy), system).contains(p)
            <==> exists|i: int| 0 <= i < result.len() && (#[trigger] result[i]).1.0.key_index() == p.0 && result[i].1.1.key_index() == p.1
    }

    fn get_strategy(&self, assignment: &HashMap<K, V>, strategy: &BinaryHeapStrategy<(K, K)>, system: &S) -> (r: BinaryHeapStrategy<(K, K)>) {
        let domain = pair_domain(strategy);
        let rel = self.oracle.approximate_flow(assignment, &domain, system);
        let pairs = rel.pairs();
        let mut r: BinaryHeapStrategy<(K, K)> = BinaryHeapStrategy::new();
        let mut j: usize = 0;
        while j < pairs.len()
            invariant
                0 <= j <= pairs@.len(),
                r@.len() == j,
                forall|i: int| 0 <= i < j ==> (#[trigger] r@[i]) == (self.value, pairs@[i]),
            decreases pairs@.len() - j,
        {
            r.push(StrategyItem(self.value, pairs[j]));
            j = j + 1;
        }
        proof {
            assert forall|p: (usize, usize)| #[trigger] rel@.contains(p) <==> exists|i: int|
                0 <= i < r@.len() && (#[trigger] r@[i]).1.0.key_index() == p.0 && r@[i].1.1.key_index() == p.1 by {
                if rel@.contains(p) {
                    assert(pair_indices_of(pairs@).to_set().contains(p));
                    let i = choose|i: int| 0 <= i < pair_indices_of(pairs@).len() && pair_indices_of(pairs@)[i] == p;
                    assert(r@[i] == (self.value, pairs@[i]));
                }
                if exists|i: int| 0 <= i < r@.len() && (#[trigger] r@[i]).1.0.key_index() == p.0 && r@[i].1.1.key_index() == p.1 {
                    let i = choose|i: int| 0 <= i < r@.len() && (#[trigger] r@[i]).1.0.key_index() == p.0 && r@[i].1.1.key_index() == p.1;
                    assert(r@[i] == (self.value, pairs@[i]));
                    assert(pair_indices_of(pairs@)[i] == p);
                    assert(pair_indices_of(pairs@).to_set().contains(p));
                }
            }
        }
        r
    }
}

impl<K, V, PS, S, O: Clone> Clone for Constant<K, V, PS, S, O> {
    fn clone(&self) -> Self {
        Constant { oracle: self.oracle.clone(), value: self.value, _phantom_data: PhantomData }
    }
}

/// A local oracle made strategic: the items of the strategy whose pair it keeps, with their
/// weights.
pub struct Ordered<K, V, PS, S, O> {
    oracle: O,
    _phantom_data: PhantomData<(K, V, PS, S)>,
}

impl<K, V, PS, S, O> Ordered<K, V, PS, S, O> {
    pub closed spec fn inner_oracle(self) -> O {
        self.oracle
    }
}

impl<K: Key, V: PartialOrd, S: System<K, V>, O: LocalOracle<K, V, BitsetRelation<K, K>, S>> StrategicLocalOracle<
    K,
    V,
    BinaryHeapStrategy<(K, K)>,
    S,
> for Ordered<K, V, BitsetRelation<K, K>, S, O> {
    open spec fn strategy_flow(
        &self,
        assignment: HashMap<K, V>,
        strategy: Seq<(StrategyWeight, (K, K))>,
        system: S,
        result: Seq<(StrategyWeight, (K, K))>,
    ) -> bool {
        result == keep_pairs_in(strategy, self.inner_oracle().flow(assignment, domain_pairs(strategy), system))
    }

    fn get_strategy(&self, assignment: &HashMap<K, V>, strategy: &BinaryHeapStrategy<(K, K)>, system: &S) -> (r: BinaryHeapStrategy<(K, K)>) {
        let domain = pair_domain(strategy);
        let rel = self.oracle.approximate_flow(assignment, &domain, system);
        strategy.duplicate().intersect_pairs(&rel)
    }
}

impl<K, V, PS, S, O: Clone> Clone for Ordered<K, V, PS, S, O> {
    fn clone(&self) -> Self {
        Ordered { oracle: self.oracle.clone(), _phantom_data: PhantomData }
    }
}

/// Local oracles made strategic with one weight for every pair.
pub trait ToConstant<K, V: PartialOrd, PS: View, S: System<K, V>>: LocalOracle<K, V, PS, S> + Sized {
    /// The strategic oracle that weighs every pair this oracle keeps by `value`.
    fn constant(self, value: StrategyWeight) -> (r: Constant<K, V, PS, S, Self>)
        ensures
            r.inner_oracle() == self,
            r.weight() == value,
    {
        Constant { oracle: self, value, _phantom_data: PhantomData }
    }
}

impl<K, V: PartialOrd, PS: View, S: System<K, V>, T: LocalOracle<K, V, PS, S>> ToConstant<K, V, PS, S> for T {
}

/// Local oracles made strategic with the weights of the strategy.
pub trait ToOrdered<K, V: PartialOrd, PS: View, S: System<K, V>>: LocalOracle<K, V, PS, S> + Sized {
    /// The strategic oracle that keeps the weights of the strategy for the pairs this oracle keeps.
    fn ordered(self) -> (r: Ordered<K, V, PS, S, Self>)
        ensures
            r.inner_oracle() == self,
    {
        Ordered { oracle: self, _phantom_data: PhantomData }
    }
}

impl<K, V: PartialOrd, PS: View, S: System<K, V>, T: LocalOracle<K, V, PS, S>> ToOrdered<K, V, PS, S> for T {
}

/// Applying one sound strategic oracle to what another sound strategic oracle answers is sound.
pub proof fn lemma_compose_strategic_sound<
    K: Key,
    V: PartialOrd + Value + Bottom,
    S: System<K, V> + Universe<BitSet<K>>,
    T: StrategicLocalOracle<K, V, BinaryHeapStrategy<(K, K)>, S>,
    U: StrategicLocalOracle<K, V, BinaryHeapStrategy<(K, K)>, S>,
>(oracle: ComposeStrategic<K, V, BinaryHeapStrategy<(K, K)>, S, T, U>, system: S)
    requires
        sound_strategic_oracle(oracle.outer_oracle(), system),
        sound_strategic_oracle(oracle.inner_oracle(), system),
    ensures
        sound_strategic_oracle(oracle, system),
{
    let u = system.universe_set();
    assert forall|j: int, a: HashMap<K, V>, asked: Seq<(StrategyWeight, (K, K))>, result: Seq<(StrategyWeight, (K, K))>, t: usize|
        #![trigger oracle.strategy_flow(a, asked, answer_state(system, j), result), settles(system, a@, item_pair_set(result), t, u)]
        0 <= j && oracle.strategy_flow(a, asked, answer_state(system, j), result) && settles(system, a@, item_pair_set(asked), t, u)
        implies settles(system, a@, item_pair_set(result), t, u) by {
        let st = answer_state(system, j);
        let mid = choose|mid: Seq<(StrategyWeight, (K, K))>|
            #[trigger] oracle.inner_oracle().strategy_flow(a, asked, st, mid) && oracle.outer_oracle().strategy_flow(a, mid, st, result);
        assert(settles(system, a@, item_pair_set(mid), t, u));
        assert(settles(system, a@, item_pair_set(result), t, u));
    }
}

/// The pairs of a nonempty strategy are those of all but its last item and the pair of its last.
proof fn lemma_item_pair_set_last<K: Key>(s: Seq<(StrategyWeight, (K, K))>)
    requires
        s.len() > 0,
    ensures
        item_pair_set(s) == item_pair_set(s.drop_last()).insert((s.last().1.0.key_index(), s.last().1.1.key_index())),
{
    let d = s.drop_last();
    let q = (s.last().1.0.key_index(), s.last().1.1.key_index());
    assert forall|p: (usize, usize)| item_pair_set(s).contains(p) <==> item_pair_set(d).insert(q).contains(p) by {
        if item_pair_set(s).contains(p) && p != q {
            let i = choose|i: int| 0 <= i < s.len() && (#[trigger] s[i]).1.0.key_index() == p.0 && s[i].1.1.key_index() == p.1;
            assert(d[i] == s[i]);
        }
        if item_pair_set(d).contains(p) {
            let i = choose|i: int| 0 <= i < d.len() && (#[trigger] d[i]).1.0.key_index() == p.0 && d[i].1.1.key_index() == p.1;
            assert(d[i] == s[i]);
        }
        if p == q {
            assert(s[s.len() - 1] == s.last());
        }
    }
    assert(item_pair_set(s) =~= item_pair_set(d).insert(q));
}

/// A strategy has a last weight for a pair exactly when it holds the pair.
proof fn lemma_last_weight_some<K: Key>(s: Seq<(StrategyWeight, (K, K))>, u: usize, v: usize)
    ensures
        last_weight(s, u, v) is Some <==> item_pair_set(s).contains((u, v)),
    decreases s.len(),
{
    if s.len() > 0 {
        lemma_last_weight_some(s.drop_last(), u, v);
        lemma_item_pair_set_last(s);
    } else {
        assert(item_pair_set(s) =~= Set::<(usize, usize)>::empty());
    }
}

/// Intersecting two strategies keeps the pairs both hold.
proof fn lemma_intersected_pairs<K: Key, F: Fn(StrategyWeight, StrategyWeight) -> StrategyWeight>(
    s: Seq<(StrategyWeight, (K, K))>,
    other: Seq<(StrategyWeight, (K, K))>,
    f: F,
    r: Seq<(StrategyWeight, (K, K))>,
)
    requires
        intersected_by(s, other, f, r),
    ensures
        item_pair_set(r) == item_pair_set(s).intersect(item_pair_set(other)),
    decreases s.len(),
{
    if s.len() == 0 {
        assert(item_pair_set(s) =~= Set::<(usize, usize)>::empty());
        assert(item_pair_set(r) =~= Set::<(usize, usize)>::empty());
        assert(item_pair_set(r) =~= item_pair_set(s).intersect(item_pair_set(other)));
    } else {
        let q = (s.last().1.0.key_index(), s.last().1.1.key_index());
        lemma_last_weight_some(other, q.0, q.1);
        lemma_item_pair_set_last(s);
        match last_weight(other, q.0, q.1) {
            None => {
                lemma_intersected_pairs(s.drop_last(), other, f, r);
                assert(item_pair_set(r) =~= item_pair_set(s).intersect(item_pair_set(other)));
            },
            Some(_) => {
                lemma_intersected_pairs(s.drop_last(), other, f, r.drop_last());
                lemma_item_pair_set_last(r);
                assert(item_pair_set(r) =~= item_pair_set(s).intersect(item_pair_set(other)));
            },
        }
    }
}

/// Keeping, weighed anew, the pairs that both of two sound strategic oracles answer is sound.
pub proof fn lemma_intersect_strategic_sound<
    K: Key,
    V: PartialOrd + Value + Bottom,
    S: System<K, V> + Universe<BitSet<K>>,
    T: StrategicLocalOracle<K, V, BinaryHeapStrategy<(K, K)>, S>,
    U: StrategicLocalOracle<K, V, BinaryHeapStrategy<(K, K)>, S>,
    F: Fn(StrategyWeight, StrategyWeight) -> StrategyWeight,
>(oracle: IntersectByStrategic<K, V, BinaryHeapStrategy<(K, K)>, S, T, U, F>, system: S)
    where (K, K): Copy
    requires
        sound_strategic_oracle(oracle.left_oracle(), system),
        sound_strategic_oracle(oracle.right_oracle(), system),
    ensures
        sound_strategic_oracle(oracle, system),
{
    let u = system.universe_set();
    assert forall|j: int, a: HashMap<K, V>, asked: Seq<(StrategyWeight, (K, K))>, result: Seq<(StrategyWeight, (K, K))>, t: usize|
        #![trigger oracle.strategy_flow(a, asked, answer_state(system, j), result), settles(system, a@, item_pair_set(result), t, u)]
        0 <= j && oracle.strategy_flow(a, asked, answer_state(system, j), result) && settles(system, a@, item_pair_set(asked), t, u)
        implies settles(system, a@, item_pair_set(result), t, u) by {
        let st = answer_state(system, j);
        let (l, r) = choose|l: Seq<(StrategyWeight, (K, K))>, r: Seq<(StrategyWeight, (K, K))>|
            #[trigger] oracle.left_oracle().strategy_flow(a, asked, st, l) && #[trigger] oracle.right_oracle().strategy_flow(a, asked, st, r)
                && intersected_by(l, r, &oracle.weigher(), result);
        assert(settles(system, a@, item_pair_set(l), t, u));
        assert(settles(system, a@, item_pair_set(r), t, u));
        lemma_intersected_pairs(l, r, &oracle.weigher(), result);
        if !top_value(assigned_value(a@, K::key_of(t))) && !top_value(system.evaluation(K::key_of(t), a@)) {
            assert forall|x: usize| #[trigger] u.contains(x) && !top_value(assigned_value(a@, K::key_of(x))) implies item_pair_set(
                result,
            ).contains((x, t)) by {
                assert(item_pair_set(l).contains((x, t)));
                assert(item_pair_set(r).contains((x, t)));
            }
        }
    }
}

} // verus!
