//! Strategic local oracles: from an assignment and a strategy over pairs of variables, a strategy
//! that weighs the pairs `(x, y)` where `y` may still depend on `x`.
use std::collections::HashMap;
use std::hash::Hash;
use std::marker::PhantomData;
use vstd::prelude::*;

use crate::arena::Key;
use crate::ordered::strategy::{keep_left, keep_right, BinaryHeapStrategy, Length, StrategyItem, StrategyWeight};
use crate::kleene::settles;
use crate::ordered::kleene::{answer_state, item_pair_set, sound_strategic_oracle};
use crate::set::bitset::BitSet;
use crate::{Bottom, System, Universe, Value};

pub mod arguments;
pub mod combine;
pub mod height;

pub use arguments::StrategicArgumentsOracle;
pub use combine::{CombineStrategic, ComposeStrategic, Constant, IntersectByStrategic, Ordered, ToConstant, ToOrdered};
pub use height::StrategicHeightOracle;

verus! {

pub trait StrategicLocalOracle<K, V: PartialOrd, PS: View, S: System<K, V>> {
    /// Whether `result` is what `get_strategy` may return, over the views of its arguments.
    spec fn strategy_flow(&self, assignment: HashMap<K, V>, strategy: PS::V, system: S, result: PS::V) -> bool;

    fn get_strategy(&self, assignment: &HashMap<K, V>, strategy: &PS, system: &S) -> (r: PS)
        ensures
            self.strategy_flow(*assignment, strategy@, *system, r@),
    ;
}

/// The items of `s`, each weighted by `weight` of the index of its left component.
pub open spec fn reweighted<K: Key>(s: Seq<(StrategyWeight, (K, K))>, weight: spec_fn(usize) -> StrategyWeight) -> Seq<
    (StrategyWeight, (K, K)),
> {
    Seq::new(s.len(), |i: int| (weight(s[i].1.0.key_index()), s[i].1))
}

/// The number of items of `s` whose value has index `x` as its right component (`by_right`) or
/// as its left, or what that number leaves below `u64::MAX` (`inverse`).
pub open spec fn count_weight<K: Key>(s: Seq<(StrategyWeight, (K, K))>, x: usize, by_right: bool, inverse: bool) -> StrategyWeight {
    let n = if by_right {
        keep_right(s, x).len()
    } else {
        keep_left(s, x).len()
    };
    if inverse {
        StrategyWeight::Num((u64::MAX - n) as u64)
    } else {
        StrategyWeight::Num(n as u64)
    }
}

/// Slicing keeps at most every item.
pub proof fn lemma_keep_len<K: Key>(s: Seq<(StrategyWeight, (K, K))>, x: usize)
    ensures
        keep_right(s, x).len() <= s.len(),
        keep_left(s, x).len() <= s.len(),
    decreases s.len(),
{
    if s.len() > 0 {
        lemma_keep_len(s.drop_last(), x);
    }
}

/// The strategy with every item weighted by the count of items that share its left component as
/// their right one (`by_right`) or their left one.
fn reweigh<K: Key + Eq + Hash>(strategy: &BinaryHeapStrategy<(K, K)>, by_right: bool, inverse: bool) -> (r: BinaryHeapStrategy<(K, K)>)
    ensures
        r@ == reweighted(strategy@, |x: usize| count_weight(strategy@, x, by_right, inverse)),
{
    proof {
        K::lemma_key_model();
        broadcast use vstd::std_specs::hash::group_hash_axioms;
    }
    let items = strategy.iter();
    let ghost s = strategy@;
    let mut lens: HashMap<K, u64> = HashMap::new();
    let mut out: Vec<StrategyItem<(K, K)>> = Vec::new();
    let mut j: usize = 0;
    while j < items.len()
        invariant
            0 <= j <= items@.len(),
            s == strategy@,
            crate::ordered::strategy::item_pairs(items@) == s,
            vstd::std_specs::hash::obeys_key_model::<K>(),
            forall|k: K| #[trigger] lens@.contains_key(k) ==> StrategyWeight::Num(lens@[k]) == count_weight(
                s,
                k.key_index(),
                by_right,
                inverse,
            ),
            out@.len() == j,
            forall|i: int| 0 <= i < j ==> (#[trigger] out@[i]).1 == s[i].1 && out@[i].0 == count_weight(
                s,
                s[i].1.0.key_index(),
                by_right,
                inverse,
            ),
        decreases items@.len() - j,
    {
        let StrategyItem(_, (x, y)) = items[j];
        proof {
            broadcast use vstd::std_specs::hash::group_hash_axioms;
            assert(s[j as int] == (items@[j as int].0, items@[j as int].1));
            lemma_keep_len(s, x.key_index());
        }
        let c: u64 = match lens.get(&x) {
            Some(c) => *c,
            None => {
                let n = if by_right {
                    strategy.slice_right_ref(x).length()
                } else {
                    strategy.slice_left_ref(x).length()
                };
                let c: u64 = if inverse {
                    u64::MAX - (n as u64)
                } else {
                    n as u64
                };
                lens.insert(x, c);
                c
            },
        };
        out.push(StrategyItem(StrategyWeight::Num(c), (x, y)));
        j = j + 1;
    }
    let r = BinaryHeapStrategy::from_items(out);
    proof {
        assert(r@ =~= reweighted(s, |x: usize| count_weight(s, x, by_right, inverse)));
    }
    r
}

/// Weighs each pair `(x, y)` by the number of pairs that `x` depends on.
pub struct CountOracle<VS>(PhantomData<VS>);

/// Weighs each pair `(x, y)` by what the number of pairs that `x` depends on leaves below
/// `u64::MAX`.
pub struct InverseCountOracle<VS>(PhantomData<VS>);

/// Weighs each pair `(x, y)` by the number of pairs that `x` depends on.
pub struct DependencyCountOracle<VS>(PhantomData<VS>);

/// Weighs each pair `(x, y)` by what the number of pairs that `x` depends on leaves below
/// `u64::MAX`.
pub struct InverseDependencyCountOracle<VS>(PhantomData<VS>);

/// Weighs each pair `(x, y)` by the number of pairs that depend on `x`.
pub struct DependentCountOracle<VS>(PhantomData<VS>);

/// Weighs each pair `(x, y)` by what the number of pairs that depend on `x` leaves below
/// `u64::MAX`.
pub struct InverseDependentCountOracle<VS>(PhantomData<VS>);

impl<VS> CountOracle<VS> {
    /// The name the oracle is shown by.
    pub fn name(&self) -> (r: String)
        ensures
            r@ == "Count"@,
    {
        String::from_str("Count")
    }

    pub fn new() -> Self {
        CountOracle(PhantomData)
    }
}

impl<VS> InverseCountOracle<VS> {
    /// The name the oracle is shown by.
    pub fn name(&self) -> (r: String)
        ensures
            r@ == "Count⁻¹"@,
    {
        String::from_str("Count⁻¹")
    }

    pub fn new() -> Self {
        InverseCountOracle(PhantomData)
    }
}

impl<VS> DependencyCountOracle<VS> {
    /// The name the oracle is shown by.
    pub fn name(&self) -> (r: String)
        ensures
            r@ == "DependencyCount"@,
    {
        String::from_str("DependencyCount")
    }

    pub fn new() -> Self {
        DependencyCountOracle(PhantomData)
    }
}

impl<VS> InverseDependencyCountOracle<VS> {
    /// The name the oracle is shown by.
    pub fn name(&self) -> (r: String)
        ensures
            r@ == "DependencyCount⁻¹"@,
    {
        String::from_str("DependencyCount⁻¹")
    }

    pub fn new() -> Self {
        InverseDependencyCountOracle(PhantomData)
    }
}

impl<VS> DependentCountOracle<VS> {
    /// The name the oracle is shown by.
    pub fn name(&self) -> (r: String)
        ensures
            r@ == "DependentCount"@,
    {
        String::from_str("DependentCount")
    }

    pub fn new() -> Self {
        DependentCountOracle(PhantomData)
    }
}

impl<VS> InverseDependentCountOracle<VS> {
    /// The name the oracle is shown by.
    pub fn name(&self) -> (r: String)
        ensures
            r@ == "DependentCount⁻¹"@,
    {
        String::from_str("DependentCount⁻¹")
    }

    pub fn new() -> Self {
        InverseDependentCountOracle(PhantomData)
    }
}

impl<VS> Default for CountOracle<VS> {
    fn default() -> Self {
        CountOracle(PhantomData)
    }
}

impl<VS> Clone for CountOracle<VS> {
    fn clone(&self) -> Self {
        CountOracle(PhantomData)
    }
}

impl<VS> Default for InverseCountOracle<VS> {
    fn default() -> Self {
        InverseCountOracle(PhantomData)
    }
}

impl<VS> Clone for InverseCountOracle<VS> {
    fn clone(&self) -> Self {
        InverseCountOracle(PhantomData)
    }
}

impl<VS> Default for DependencyCountOracle<VS> {
    fn default() -> Self {
        DependencyCountOracle(PhantomData)
    }
}

impl<VS> Clone for DependencyCountOracle<VS> {
    fn clone(&self) -> Self {
        DependencyCountOracle(PhantomData)
    }
}

impl<VS> Default for InverseDependencyCountOracle<VS> {
    fn default() -> Self {
        InverseDependencyCountOracle(PhantomData)
    }
}

impl<VS> Clone for InverseDependencyCountOracle<VS> {
    fn clone(&self) -> Self {
        InverseDependencyCountOracle(PhantomData)
    }
}

impl<VS> Default for DependentCountOracle<VS> {
    fn default() -> Self {
        DependentCountOracle(PhantomData)
    }
}

impl<VS> Clone for DependentCountOracle<VS> {
    fn clone(&self) -> Self {
        DependentCountOracle(PhantomData)
    }
}

impl<VS> Default for InverseDependentCountOracle<VS> {
    fn default() -> Self {
        InverseDependentCountOracle(PhantomData)
    }
}

impl<VS> Clone for InverseDependentCountOracle<VS> {
    fn clone(&self) -> Self {
        InverseDependentCountOracle(PhantomData)
    }
}

impl<K: Key + Eq + Hash, V: PartialOrd, S: System<K, V>> StrategicLocalOracle<K, V, BinaryHeapStrategy<(K, K)>, S> for CountOracle<
    BinaryHeapStrategy<K>,
> {
    open spec fn strategy_flow(
        &self,
        assignment: HashMap<K, V>,
        strategy: Seq<(StrategyWeight, (K, K))>,
        system: S,
        result: Seq<(StrategyWeight, (K, K))>,
    ) -> bool {
        result == reweighted(strategy, |x: usize| count_weight(strategy, x, true, false))
    }

    fn get_strategy(&self, assignment: &HashMap<K, V>, strategy: &BinaryHeapStrategy<(K, K)>, system: &S) -> (r: BinaryHeapStrategy<(K, K)>) {
        reweigh(strategy, true, false)
    }
}

impl<K: Key + Eq + Hash, V: PartialOrd, S: System<K, V>> StrategicLocalOracle<K, V, BinaryHeapStrategy<(K, K)>, S> for InverseCountOracle<
    BinaryHeapStrategy<K>,
> {
    open spec fn strategy_flow(
        &self,
        assignment: HashMap<K, V>,
        strategy: Seq<(StrategyWeight, (K, K))>,
        system: S,
        result: Seq<(StrategyWeight, (K, K))>,
    ) -> bool {
        result == reweighted(strategy, |x: usize| count_weight(strategy, x, true, true))
    }

    fn get_strategy(&self, assignment: &HashMap<K, V>, strategy: &BinaryHeapStrategy<(K, K)>, system: &S) -> (r: BinaryHeapStrategy<(K, K)>) {
        reweigh(strategy, true, true)
    }
}

impl<K: Key + Eq + Hash, V: PartialOrd, S: System<K, V>> StrategicLocalOracle<K, V, BinaryHeapStrategy<(K, K)>, S> for DependencyCountOracle<
    BinaryHeapStrategy<K>,
> {
    open spec fn strategy_flow(
        &self,
        assignment: HashMap<K, V>,
        strategy: Seq<(StrategyWeight, (K, K))>,
        system: S,
        result: Seq<(StrategyWeight, (K, K))>,
    ) -> bool {
        result == reweighted(strategy, |x: usize| count_weight(strategy, x, true, false))
    }

    fn get_strategy(&self, assignment: &HashMap<K, V>, strategy: &BinaryHeapStrategy<(K, K)>, system: &S) -> (r: BinaryHeapStrategy<(K, K)>) {
        reweigh(strategy, true, false)
    }
}

impl<K: Key + Eq + Hash, V: PartialOrd, S: System<K, V>> StrategicLocalOracle<K, V, BinaryHeapStrategy<(K, K)>, S> for InverseDependencyCountOracle<
    BinaryHeapStrategy<K>,
> {
    open spec fn strategy_flow(
        &self,
        assignment: HashMap<K, V>,
        strategy: Seq<(StrategyWeight, (K, K))>,
        system: S,
        result: Seq<(StrategyWeight, (K, K))>,
    ) -> bool {
        result == reweighted(strategy, |x: usize| count_weight(strategy, x, true, true))
    }

    fn get_strategy(&self, assignment: &HashMap<K, V>, strategy: &BinaryHeapStrategy<(K, K)>, system: &S) -> (r: BinaryHeapStrategy<(K, K)>) {
        reweigh(strategy, true, true)
    }
}

impl<K: Key + Eq + Hash, V: PartialOrd, S: System<K, V>> StrategicLocalOracle<K, V, BinaryHeapStrategy<(K, K)>, S> for DependentCountOracle<
    BinaryHeapStrategy<K>,
> {
    open spec fn strategy_flow(
        &self,
        assignment: HashMap<K, V>,
        strategy: Seq<(StrategyWeight, (K, K))>,
        system: S,
        result: Seq<(StrategyWeight, (K, K))>,
    ) -> bool {
        result == reweighted(strategy, |x: usize| count_weight(strategy, x, false, false))
    }

    fn get_strategy(&self, assignment: &HashMap<K, V>, strategy: &BinaryHeapStrategy<(K, K)>, system: &S) -> (r: BinaryHeapStrategy<(K, K)>) {
        reweigh(strategy, false, false)
    }
}

impl<K: Key + Eq + Hash, V: PartialOrd, S: System<K, V>> StrategicLocalOracle<K, V, BinaryHeapStrategy<(K, K)>, S> for InverseDependentCountOracle<
    BinaryHeapStrategy<K>,
> {
    open spec fn strategy_flow(
        &self,
        assignment: HashMap<K, V>,
        strategy: Seq<(StrategyWeight, (K, K))>,
        system: S,
        result: Seq<(StrategyWeight, (K, K))>,
    ) -> bool {
        result == reweighted(strategy, |x: usize| count_weight(strategy, x, false, true))
    }

    fn get_strategy(&self, assignment: &HashMap<K, V>, strategy: &BinaryHeapStrategy<(K, K)>, system: &S) -> (r: BinaryHeapStrategy<(K, K)>) {
        reweigh(strategy, false, true)
    }
}

/// Weighing the items of a strategy anew keeps its pairs.
pub proof fn lemma_reweighted_pairs<K: Key>(s: Seq<(StrategyWeight, (K, K))>, weight: spec_fn(usize) -> StrategyWeight)
    ensures
        item_pair_set(reweighted(s, weight)) == item_pair_set(s),
{
    let r = reweighted(s, weight);
    assert forall|p: (usize, usize)| item_pair_set(r).contains(p) <==> item_pair_set(s).contains(p) by {
        if item_pair_set(r).contains(p) {
            let i = choose|i: int| 0 <= i < r.len() && (#[trigger] r[i]).1.0.key_index() == p.0 && r[i].1.1.key_index() == p.1;
            assert(s[i].1 == r[i].1);
        }
        if item_pair_set(s).contains(p) {
            let i = choose|i: int| 0 <= i < s.len() && (#[trigger] s[i]).1.0.key_index() == p.0 && s[i].1.1.key_index() == p.1;
            assert(s[i].1 == r[i].1);
        }
    }
    assert(item_pair_set(r) =~= item_pair_set(s));
}

/// The counting oracles are sound: they weigh the pairs they are asked anew and keep them all.
pub proof fn lemma_count_oracles_sound<K: Key + Eq + Hash, V: PartialOrd + Value + Bottom, S: System<K, V> + Universe<BitSet<K>>>(
    count: CountOracle<BinaryHeapStrategy<K>>,
    inverse_count: InverseCountOracle<BinaryHeapStrategy<K>>,
    dependency_count: DependencyCountOracle<BinaryHeapStrategy<K>>,
    inverse_dependency_count: InverseDependencyCountOracle<BinaryHeapStrategy<K>>,
    dependent_count: DependentCountOracle<BinaryHeapStrategy<K>>,
    inverse_dependent_count: InverseDependentCountOracle<BinaryHeapStrategy<K>>,
    system: S,
)
    ensures
        sound_strategic_oracle(count, system),
        sound_strategic_oracle(inverse_count, system),
        sound_strategic_oracle(dependency_count, system),
        sound_strategic_oracle(inverse_dependency_count, system),
        sound_strategic_oracle(dependent_count, system),
        sound_strategic_oracle(inverse_dependent_count, system),
{
    assert forall|j: int, a: HashMap<K, V>, asked: Seq<(StrategyWeight, (K, K))>, result: Seq<(StrategyWeight, (K, K))>, t: usize|
        #![trigger count.strategy_flow(a, asked, answer_state(system, j), result), settles(system, a@, item_pair_set(result), t, system.universe_set())]
        0 <= j && count.strategy_flow(a, asked, answer_state(system, j), result) && settles(system, a@, item_pair_set(asked), t, system.universe_set())
        implies settles(system, a@, item_pair_set(result), t, system.universe_set()) by {
        lemma_reweighted_pairs(asked, |x: usize| count_weight(asked, x, true, false));
    }
    assert forall|j: int, a: HashMap<K, V>, asked: Seq<(StrategyWeight, (K, K))>, result: Seq<(StrategyWeight, (K, K))>, t: usize|
        #![trigger inverse_count.strategy_flow(a, asked, answer_state(system, j), result), settles(system, a@, item_pair_set(result), t, system.universe_set())]
        0 <= j && inverse_count.strategy_flow(a, asked, answer_state(system, j), result) && settles(system, a@, item_pair_set(asked), t, system.universe_set())
        implies settles(system, a@, item_pair_set(result), t, system.universe_set()) by {
        lemma_reweighted_pairs(asked, |x: usize| count_weight(asked, x, true, true));
    }
    assert forall|j: int, a: HashMap<K, V>, asked: Seq<(StrategyWeight, (K, K))>, result: Seq<(StrategyWeight, (K, K))>, t: usize|
        #![trigger dependency_count.strategy_flow(a, asked, answer_state(system, j), result), settles(system, a@, item_pair_set(result), t, system.universe_set())]
        0 <= j && dependency_count.strategy_flow(a, asked, answer_state(system, j), result) && settles(system, a@, item_pair_set(asked), t, system.universe_set())
        implies settles(system, a@, item_pair_set(result), t, system.universe_set()) by {
        lemma_reweighted_pairs(asked, |x: usize| count_weight(asked, x, true, false));
    }
    assert forall|j: int, a: HashMap<K, V>, asked: Seq<(StrategyWeight, (K, K))>, result: Seq<(StrategyWeight, (K, K))>, t: usize|
        #![trigger inverse_dependency_count.strategy_flow(a, asked, answer_state(system, j), result), settles(system, a@, item_pair_set(result), t, system.universe_set())]
        0 <= j && inverse_dependency_count.strategy_flow(a, asked, answer_state(system, j), result) && settles(system, a@, item_pair_set(asked), t, system.universe_set())
        implies settles(system, a@, item_pair_set(result), t, system.universe_set()) by {
        lemma_reweighted_pairs(asked, |x: usize| count_weight(asked, x, true, true));
    }
    assert forall|j: int, a: HashMap<K, V>, asked: Seq<(StrategyWeight, (K, K))>, result: Seq<(StrategyWeight, (K, K))>, t: usize|
        #![trigger dependent_count.strategy_flow(a, asked, answer_state(system, j), result), settles(system, a@, item_pair_set(result), t, system.universe_set())]
        0 <= j && dependent_count.strategy_flow(a, asked, answer_state(system, j), result) && settles(system, a@, item_pair_set(asked), t, system.universe_set())
        implies settles(system, a@, item_pair_set(result), t, system.universe_set()) by {
        lemma_reweighted_pairs(asked, |x: usize| count_weight(asked, x, false, false));
    }
    assert forall|j: int, a: HashMap<K, V>, asked: Seq<(StrategyWeight, (K, K))>, result: Seq<(StrategyWeight, (K, K))>, t: usize|
        #![trigger inverse_dependent_count.strategy_flow(a, asked, answer_state(system, j), result), settles(system, a@, item_pair_set(result), t, system.universe_set())]
        0 <= j && inverse_dependent_count.strategy_flow(a, asked, answer_state(system, j), result) && settles(system, a@, item_pair_set(asked), t, system.universe_set())
        implies settles(system, a@, item_pair_set(result), t, system.universe_set()) by {
        lemma_reweighted_pairs(asked, |x: usize| count_weight(asked, x, false, true));
    }
}

} // verus!
