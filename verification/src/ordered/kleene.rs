use std::collections::HashMap;
use std::hash::Hash;
use vstd::prelude::*;

use crate::arena::{pair_indices_of, Key};
use crate::kleene::{
    above_fixed_points, after_passes, arguments_determine, at_most, below_fixed_points, bottom_greatest, bottom_least, changes,
    closed_under, deps_of, fixed_point, least_fixed_point, lemma_least_value, lemma_least_value_settled,
    lemma_lower_above_fixed_points, lemma_raise_below_fixed_points, lemma_raise_post_fixed, lemma_settles_grows, monotone,
    order_antisymmetric, order_transitive, post_fixed, settles, stable, steady_universe,
};
use crate::ordered::oracle::StrategicLocalOracle;
use crate::ordered::strategy::{
    item_pairs, keep_in, keep_right, BinaryHeapStrategy, Length, Strategy, StrategyItem, StrategyWeight,
};
use crate::set::bitset::{BitSet, BitsetRelation};
use crate::{
    assigned_value, Arguments, Assignment, Bottom, Cartesian, CopiedIter, IsSubset, PairUniverse, SetOps, System, Union,
    Universe, Value, Without,
};

verus! {

/// The indices of the values of a list of weighted items.
pub open spec fn value_indices<T: Key>(s: Seq<(StrategyWeight, T)>) -> Set<usize> {
    Set::new(|x: usize| exists|i: int| 0 <= i < s.len() && (#[trigger] s[i]).1.key_index() == x)
}

/// The pairs that arguments `args` add to the discovered variables `d`: those over the new
/// arguments and `d` with at least one new argument.
pub open spec fn new_pairs(args: Set<usize>, d: Set<usize>) -> Set<(usize, usize)> {
    let a = args.difference(d);
    Set::new(|p: (usize, usize)| (a.contains(p.0) && (a.contains(p.1) || d.contains(p.1))) || (d.contains(p.0) && a.contains(p.1)))
}

/// The dependencies of the target of index `t` that entry `j` of a run evaluates, in the order of
/// the answer: in the first entry only those among the discovered variables.
pub open spec fn segment_todo<K: Key>(
    answers: Seq<Seq<(StrategyWeight, (K, K))>>,
    discovered: Seq<Set<usize>>,
    t: usize,
    j: int,
) -> Seq<(StrategyWeight, K)> {
    if j == 0 {
        keep_in(keep_right(answers[0], t), Set::new(|v: K| discovered[0].contains(v.key_index())))
    } else {
        keep_right(answers[j], t)
    }
}

/// The state of the system in which the oracle gives answer `j` of a run: the first without a
/// lock, each later one with the system locked after `j - 1` passes.
pub open spec fn answer_state<K, V: PartialOrd, S: System<K, V>>(system: S, j: int) -> S {
    if j == 0 {
        system
    } else {
        after_passes(system, (j - 1) as nat).with_lock(true)
    }
}

/// Entry `j + 1` of an ordered run follows from entry `j` by the evaluation of the variable of
/// index `x`: its value is set, the discovered variables are read anew, and the oracle is asked on
/// its last answer, every item at infinite weight, followed by the pairs that the new arguments
/// add, at infinite weight.
pub open spec fn ordered_next_entry<K: Key, V: PartialOrd + Bottom, S: System<K, V> + Arguments<K, BitSet<K>> + Universe<BitSet<K>>>(
    system: S,
    j: int,
    x: usize,
    assignments: Seq<HashMap<K, V>>,
    discovered: Seq<Set<usize>>,
    asked: Seq<Seq<(StrategyWeight, (K, K))>>,
    answers: Seq<Seq<(StrategyWeight, (K, K))>>,
) -> bool {
    let st = after_passes(system, j as nat);
    let k = K::key_of(x);
    let prev = answers[j];
    &&& assignments[j + 1]@ == assignments[j]@.insert(k, st.evaluation(k, assignments[j]@))
    &&& discovered[j + 1] == st.universe_set()
    &&& prev.len() <= asked[j + 1].len()
    &&& forall|i: int| 0 <= i < prev.len() ==> #[trigger] asked[j + 1][i] == (StrategyWeight::Infinity, prev[i].1)
    &&& forall|i: int| 0 <= i < asked[j + 1].len() ==> (#[trigger] asked[j + 1][i]).0 == StrategyWeight::Infinity
    &&& pair_indices_of(asked[j + 1].skip(prev.len() as int).map_values(|e: (StrategyWeight, (K, K))| e.1)).to_set() == new_pairs(
        st.argument_set(k),
        discovered[j],
    )
}

/// A run of ordered local Kleene iteration from `system` for the target of index `t`. Entry `j`
/// holds the assignment, the discovered variables, the strategy the oracle was asked on and its
/// answer; the first entry starts from the bottom assignment and every pair of the system at
/// infinite weight. `steps` lists each evaluated variable with whether it called for another pass,
/// `seg` the entry it was evaluated in and `pos` its place among the dependencies that entry
/// evaluates: no place is taken twice in one entry, and each step that calls for a pass makes the
/// next entry.
pub open spec fn ordered_run<K: Key, V: PartialOrd + Bottom, S: System<K, V> + Arguments<K, BitSet<K>> + Universe<BitSet<K>> + PairUniverse<
    BitsetRelation<K, K>,
>, O: StrategicLocalOracle<K, V, BinaryHeapStrategy<(K, K)>, S>>(
    oracle: O,
    system: S,
    t: usize,
    assignments: Seq<HashMap<K, V>>,
    discovered: Seq<Set<usize>>,
    asked: Seq<Seq<(StrategyWeight, (K, K))>>,
    answers: Seq<Seq<(StrategyWeight, (K, K))>>,
    steps: Seq<(usize, bool)>,
    seg: Seq<int>,
    pos: Seq<int>,
) -> bool {
    let n = answers.len();
    &&& n >= 1
    &&& assignments.len() == n && discovered.len() == n && asked.len() == n
    &&& assignments[0]@ == Map::<K, V>::empty()
    &&& discovered[0] == system.universe_set()
    &&& forall|i: int| 0 <= i < asked[0].len() ==> (#[trigger] asked[0][i]).0 == StrategyWeight::Infinity
    &&& pair_indices_of(asked[0].map_values(|e: (StrategyWeight, (K, K))| e.1)).to_set() == system.pair_universe_set()
    &&& forall|j: int| 0 <= j < n ==> #[trigger] oracle.strategy_flow(assignments[j], asked[j], answer_state(system, j), answers[j])
    &&& seg.len() == steps.len() && pos.len() == steps.len()
    &&& steps.len() > 0 ==> seg[0] == 0
    &&& forall|s: int| 0 <= s < steps.len() - 1 ==> #[trigger] seg[s + 1] == seg[s] + (if steps[s].1 {
        1int
    } else {
        0int
    })
    &&& n - 1 == (if steps.len() == 0 {
        0int
    } else {
        seg[steps.len() - 1] + (if steps[steps.len() - 1].1 {
            1int
        } else {
            0int
        })
    })
    &&& forall|s: int|
        0 <= s < steps.len() ==> {
            &&& 0 <= #[trigger] seg[s] < n
            &&& 0 <= pos[s] < segment_todo(answers, discovered, t, seg[s]).len()
            &&& segment_todo(answers, discovered, t, seg[s])[pos[s]].1.key_index() == steps[s].0
            &&& steps[s].1 == changes(after_passes(system, seg[s] as nat), assignments[seg[s]], discovered[seg[s]], steps[s].0)
            &&& steps[s].1 ==> seg[s] + 1 < n && ordered_next_entry(system, seg[s], steps[s].0, assignments, discovered, asked, answers)
        }
    &&& forall|s1: int, s2: int| 0 <= s1 < s2 < steps.len() && #[trigger] seg[s1] == #[trigger] seg[s2] ==> pos[s1] != pos[s2]
}

/// One more evaluation, of the variable at place `p` among the dependencies of the last entry,
/// extends an ordered run: by a step in the last entry where it calls for no pass, and by a step
/// and the entry it makes where it does.
proof fn lemma_ordered_run_step<K: Key, V: PartialOrd + Bottom, S: System<K, V> + Arguments<K, BitSet<K>> + Universe<BitSet<K>> + PairUniverse<
    BitsetRelation<K, K>,
>, O: StrategicLocalOracle<K, V, BinaryHeapStrategy<(K, K)>, S>>(
    oracle: O,
    system: S,
    t: usize,
    assignments: Seq<HashMap<K, V>>,
    discovered: Seq<Set<usize>>,
    asked: Seq<Seq<(StrategyWeight, (K, K))>>,
    answers: Seq<Seq<(StrategyWeight, (K, K))>>,
    steps: Seq<(usize, bool)>,
    seg: Seq<int>,
    pos: Seq<int>,
    x: usize,
    p: int,
    adv: bool,
    new_assignment: HashMap<K, V>,
    new_disc: Set<usize>,
    new_asked: Seq<(StrategyWeight, (K, K))>,
    new_answer: Seq<(StrategyWeight, (K, K))>,
)
    requires
        ordered_run(oracle, system, t, assignments, discovered, asked, answers, steps, seg, pos),
        forall|s: int| 0 <= s < steps.len() && seg[s] == answers.len() - 1 ==> #[trigger] pos[s] != p,
        0 <= p < segment_todo(answers, discovered, t, answers.len() - 1).len(),
        segment_todo(answers, discovered, t, answers.len() - 1)[p].1.key_index() == x,
        adv == changes(after_passes(system, (answers.len() - 1) as nat), assignments.last(), discovered.last(), x),
        adv ==> ordered_next_entry(
            system,
            answers.len() - 1,
            x,
            assignments.push(new_assignment),
            discovered.push(new_disc),
            asked.push(new_asked),
            answers,
        ) && oracle.strategy_flow(new_assignment, new_asked, answer_state(system, answers.len() as int), new_answer),
    ensures
        adv ==> ordered_run(
            oracle,
            system,
            t,
            assignments.push(new_assignment),
            discovered.push(new_disc),
            asked.push(new_asked),
            answers.push(new_answer),
            steps.push((x, true)),
            seg.push(answers.len() - 1),
            pos.push(p),
        ),
        !adv ==> ordered_run(
            oracle,
            system,
            t,
            assignments,
            discovered,
            asked,
            answers,
            steps.push((x, false)),
            seg.push(answers.len() - 1),
            pos.push(p),
        ),
{
    let n = answers.len();
    let cur = n - 1;
    let steps2 = steps.push((x, adv));
    let seg2 = seg.push(cur);
    let pos2 = pos.push(p);
    if adv {
        let assignments2 = assignments.push(new_assignment);
        let discovered2 = discovered.push(new_disc);
        let asked2 = asked.push(new_asked);
        let answers2 = answers.push(new_answer);
        assert forall|j: int| 0 <= j < answers2.len() implies #[trigger] oracle.strategy_flow(
            assignments2[j],
            asked2[j],
            answer_state(system, j),
            answers2[j],
        ) by {
            if j < n {
                assert(oracle.strategy_flow(assignments[j], asked[j], answer_state(system, j), answers[j]));
            }
        }
        assert forall|j: int| 0 <= j < n implies segment_todo(answers2, discovered2, t, j) == segment_todo(answers, discovered, t, j) by {
            assert(answers2[j] == answers[j]);
            assert(discovered2[0] == discovered[0]);
        }
        assert forall|s: int| 0 <= s < steps2.len() - 1 implies #[trigger] seg2[s + 1] == seg2[s] + (if steps2[s].1 {
            1int
        } else {
            0int
        }) by {
            if s < steps.len() - 1 {
                assert(seg[s + 1] == seg[s] + (if steps[s].1 {
                    1int
                } else {
                    0int
                }));
            }
        }
        assert forall|s: int| 0 <= s < steps2.len() implies {
            &&& 0 <= #[trigger] seg2[s] < answers2.len()
            &&& 0 <= pos2[s] < segment_todo(answers2, discovered2, t, seg2[s]).len()
            &&& segment_todo(answers2, discovered2, t, seg2[s])[pos2[s]].1.key_index() == steps2[s].0
            &&& steps2[s].1 == changes(after_passes(system, seg2[s] as nat), assignments2[seg2[s]], discovered2[seg2[s]], steps2[s].0)
            &&& steps2[s].1 ==> seg2[s] + 1 < answers2.len() && ordered_next_entry(
                system,
                seg2[s],
                steps2[s].0,
                assignments2,
                discovered2,
                asked2,
                answers2,
            )
        } by {
            if s < steps.len() {
                assert(0 <= seg[s] < n);
                if steps[s].1 {
                    assert(ordered_next_entry(system, seg[s], steps[s].0, assignments, discovered, asked, answers));
                }
            }
        }
        assert forall|s1: int, s2: int|
            0 <= s1 < s2 < steps2.len() && #[trigger] seg2[s1] == #[trigger] seg2[s2] implies pos2[s1] != pos2[s2] by {
            if s2 < steps.len() {
                assert(seg[s1] == seg[s2]);
            } else {
                assert(seg[s1] == cur);
            }
        }
        assert(ordered_run(oracle, system, t, assignments2, discovered2, asked2, answers2, steps2, seg2, pos2));
    } else {
        assert forall|s: int| 0 <= s < steps2.len() - 1 implies #[trigger] seg2[s + 1] == seg2[s] + (if steps2[s].1 {
            1int
        } else {
            0int
        }) by {
            if s < steps.len() - 1 {
                assert(seg[s + 1] == seg[s] + (if steps[s].1 {
                    1int
                } else {
                    0int
                }));
            }
        }
        assert forall|s: int| 0 <= s < steps2.len() implies {
            &&& 0 <= #[trigger] seg2[s] < answers.len()
            &&& 0 <= pos2[s] < segment_todo(answers, discovered, t, seg2[s]).len()
            &&& segment_todo(answers, discovered, t, seg2[s])[pos2[s]].1.key_index() == steps2[s].0
            &&& steps2[s].1 == changes(after_passes(system, seg2[s] as nat), assignments[seg2[s]], discovered[seg2[s]], steps2[s].0)
            &&& steps2[s].1 ==> seg2[s] + 1 < answers.len() && ordered_next_entry(
                system,
                seg2[s],
                steps2[s].0,
                assignments,
                discovered,
                asked,
                answers,
            )
        } by {
            if s < steps.len() {
                assert(0 <= seg[s] < n);
            }
        }
        assert forall|s1: int, s2: int|
            0 <= s1 < s2 < steps2.len() && #[trigger] seg2[s1] == #[trigger] seg2[s2] implies pos2[s1] != pos2[s2] by {
            if s2 < steps.len() {
                assert(seg[s1] == seg[s2]);
            } else {
                assert(seg[s1] == cur);
            }
        }
        assert(ordered_run(oracle, system, t, assignments, discovered, asked, answers, steps2, seg2, pos2));
    }
}

/// Keeping fewer items keeps fewer values.
proof fn lemma_keep_in_values<T: Key>(s: Seq<(StrategyWeight, T)>, set: Set<T>)
    ensures
        value_indices(keep_in(s, set)).subset_of(value_indices(s)),
    decreases s.len(),
{
    if s.len() > 0 {
        lemma_keep_in_values(s.drop_last(), set);
        let r = keep_in(s.drop_last(), set);
        assert forall|x: usize| #[trigger] value_indices(keep_in(s, set)).contains(x) implies value_indices(s).contains(x) by {
            let k = keep_in(s, set);
            let i = choose|i: int| 0 <= i < k.len() && (#[trigger] k[i]).1.key_index() == x;
            if i < r.len() && (set.contains(s.last().1) ==> k == r.push(s.last())) {
                assert(k[i] == r[i]);
                assert(value_indices(r).contains(x));
                let j = choose|j: int| 0 <= j < s.drop_last().len() && (#[trigger] s.drop_last()[j]).1.key_index() == x;
                assert(s[j] == s.drop_last()[j]);
            } else {
                assert(s[s.len() - 1].1.key_index() == x);
            }
        }
    }
}

/// The pairs of indices of the items of a strategy.
pub open spec fn item_pair_set<K: Key>(s: Seq<(StrategyWeight, (K, K))>) -> Set<(usize, usize)> {
    Set::new(
        |p: (usize, usize)|
            exists|i: int| 0 <= i < s.len() && (#[trigger] s[i]).1.0.key_index() == p.0 && s[i].1.1.key_index() == p.1,
    )
}

/// A sound strategic oracle: asked, in a state a run of the system reaches, on a strategy whose
/// pairs settle a target over the variables of the system, it answers a strategy whose pairs settle
/// it too (see `settles`).
pub open spec fn sound_strategic_oracle<K: Key, V: PartialOrd + Value + Bottom, S: System<K, V> + Universe<BitSet<K>>, O: StrategicLocalOracle<
    K,
    V,
    BinaryHeapStrategy<(K, K)>,
    S,
>>(oracle: O, system: S) -> bool {
    forall|j: int, a: HashMap<K, V>, asked: Seq<(StrategyWeight, (K, K))>, result: Seq<(StrategyWeight, (K, K))>, t: usize|
        #![trigger oracle.strategy_flow(a, asked, answer_state(system, j), result), settles(system, a@, item_pair_set(result), t, system.universe_set())]
        0 <= j && oracle.strategy_flow(a, asked, answer_state(system, j), result) && settles(system, a@, item_pair_set(asked), t, system.universe_set())
            ==> settles(system, a@, item_pair_set(result), t, system.universe_set())
}

/// What ordered local Kleene iteration on `system` needs to reach the least fixed point: the bottom
/// value is least, the order of values is a partial order, evaluation is monotone and reads only
/// the arguments, the variables stay as they are and hold the target of index `t`, the pair
/// universe holds every pair of variables, and the oracle is sound.
pub open spec fn ordered_least_fixed_point_reachable<K: Key, V: PartialOrd + Value + Bottom, S: System<K, V> + Arguments<K, BitSet<K>> + Universe<
    BitSet<K>,
> + PairUniverse<BitsetRelation<K, K>>, O: StrategicLocalOracle<K, V, BinaryHeapStrategy<(K, K)>, S>>(oracle: O, system: S, t: usize) -> bool {
    &&& bottom_least::<V>()
    &&& order_antisymmetric::<V>()
    &&& order_transitive::<V>()
    &&& monotone(system)
    &&& arguments_determine(system)
    &&& steady_universe(system)
    &&& system.universe_set().contains(t)
    &&& forall|p: (usize, usize)|
        system.universe_set().contains(p.0) && system.universe_set().contains(p.1) ==> #[trigger] system.pair_universe_set().contains(p)
    &&& sound_strategic_oracle(oracle, system)
}

/// The pairs of a strategy are the pairs of indices of its values.
proof fn lemma_item_pair_set<K: Key>(s: Seq<(StrategyWeight, (K, K))>)
    ensures
        item_pair_set(s) == pair_indices_of(s.map_values(|e: (StrategyWeight, (K, K))| e.1)).to_set(),
{
    let q = pair_indices_of(s.map_values(|e: (StrategyWeight, (K, K))| e.1));
    assert forall|p: (usize, usize)| item_pair_set(s).contains(p) <==> q.to_set().contains(p) by {
        if item_pair_set(s).contains(p) {
            let i = choose|i: int| 0 <= i < s.len() && (#[trigger] s[i]).1.0.key_index() == p.0 && s[i].1.1.key_index() == p.1;
            assert(q[i] == p);
        }
        if q.to_set().contains(p) {
            let i = choose|i: int| 0 <= i < q.len() && q[i] == p;
            assert(s[i].1.0.key_index() == p.0);
        }
    }
    assert(item_pair_set(s) =~= q.to_set());
}

/// An item whose value has its right component at index `t` is kept, without that component.
proof fn lemma_keep_right_has<K: Key>(s: Seq<(StrategyWeight, (K, K))>, t: usize, i: int)
    requires
        0 <= i < s.len(),
        s[i].1.1.key_index() == t,
    ensures
        exists|k: int| 0 <= k < keep_right(s, t).len() && keep_right(s, t)[k] == (s[i].0, s[i].1.0),
    decreases s.len(),
{
    let r = keep_right(s.drop_last(), t);
    if i == s.len() - 1 {
        assert(keep_right(s, t) == r.push((s.last().0, s.last().1.0)));
        assert(keep_right(s, t)[r.len() as int] == (s[i].0, s[i].1.0));
    } else {
        lemma_keep_right_has(s.drop_last(), t, i);
        assert(s.drop_last()[i] == s[i]);
        let k = choose|k: int| 0 <= k < r.len() && r[k] == (s[i].0, s[i].1.0);
        assert(keep_right(s, t)[k] == r[k]);
    }
}

/// An item whose value is in the set is kept.
proof fn lemma_keep_in_has<T>(s: Seq<(StrategyWeight, T)>, set: Set<T>, i: int)
    requires
        0 <= i < s.len(),
        set.contains(s[i].1),
    ensures
        exists|k: int| 0 <= k < keep_in(s, set).len() && keep_in(s, set)[k] == s[i],
    decreases s.len(),
{
    let r = keep_in(s.drop_last(), set);
    if i == s.len() - 1 {
        assert(keep_in(s, set) == r.push(s.last()));
        assert(keep_in(s, set)[r.len() as int] == s[i]);
    } else {
        lemma_keep_in_has(s.drop_last(), set, i);
        assert(s.drop_last()[i] == s[i]);
        let k = choose|k: int| 0 <= k < r.len() && r[k] == s[i];
        assert(keep_in(s, set)[k] == r[k]);
    }
}

/// The pairs of a relation as items of infinite weight.
fn infinite_items<K: Key>(rel: &BitsetRelation<K, K>) -> (r: Vec<StrategyItem<(K, K)>>)
    ensures
        forall|i: int| 0 <= i < r@.len() ==> (#[trigger] r@[i]).0 == StrategyWeight::Infinity,
        pair_indices_of(r@.map_values(|i: StrategyItem<(K, K)>| i.1)).to_set() == rel@,
{
    let pairs = rel.copied_iter();
    let mut r: Vec<StrategyItem<(K, K)>> = Vec::new();
    let mut j: usize = 0;
    while j < pairs.len()
        invariant
            0 <= j <= pairs@.len(),
            r@.len() == j,
            forall|i: int| 0 <= i < j ==> (#[trigger] r@[i]).0 == StrategyWeight::Infinity && r@[i].1 == pairs@[i],
        decreases pairs@.len() - j,
    {
        r.push(StrategyItem::infinite(pairs[j]));
        j = j + 1;
    }
    proof {
        assert(r@.map_values(|i: StrategyItem<(K, K)>| i.1) =~= pairs@);
    }
    r
}

/// Evaluate the target by local Kleene iteration in the order of a strategy: the variable that
/// the strategy weighs lowest among the dependencies of the target is evaluated first. Returns
/// the value of the target with the number of variable evaluations, of oracle passes and of
/// discovered variables, or `None` when the evaluations would exceed the range of the counter.
///
/// The result comes from a run (see `ordered_run`) whose number of evaluations and passes it
/// gives, or whose evaluations reached `u32::MAX`; the system is left as its passes leave it. The
/// value is that of the target in the last assignment of the run, under which every dependency of
/// the target the last entry evaluates is stable. Where evaluation is monotone, that assignment
/// lies below every fixed point when the bottom value is least and above every fixed point when
/// the bottom value is greatest. Where the system and the oracle meet
/// `ordered_least_fixed_point_reachable` (a sound oracle, see `sound_strategic_oracle`), or where
/// those dependencies are closed and hold the target, the value is that of the least fixed point.
pub fn kleene_local<
    K: Key + Eq + Hash,
    V: PartialOrd + Bottom + Value,
    S: System<K, V> + Arguments<K, BitSet<K>> + Universe<BitSet<K>> + PairUniverse<BitsetRelation<K, K>>,
    O: StrategicLocalOracle<K, V, BinaryHeapStrategy<(K, K)>, S>,
>(system: &mut S, target: K, oracle: &O) -> (r: Option<(V, (u32, u32, usize))>)
    ensures
        r matches Some((v, (evaluations, passes, discovered))) ==> {
            &&& passes <= evaluations
            &&& discovered == final(system).universe_set().len()
            &&& exists|
                assignments: Seq<HashMap<K, V>>,
                disc: Seq<Set<usize>>,
                asked: Seq<Seq<(StrategyWeight, (K, K))>>,
                answers: Seq<Seq<(StrategyWeight, (K, K))>>,
                steps: Seq<(usize, bool)>,
                seg: Seq<int>,
                pos: Seq<int>,
            |
                {
                    let d = value_indices(segment_todo(answers, disc, target.key_index(), answers.len() - 1));
                    &&& #[trigger] ordered_run(*oracle, *old(system), target.key_index(), assignments, disc, asked, answers, steps, seg, pos)
                    &&& steps.len() == evaluations
                    &&& answers.len() == passes + 1
                    &&& *final(system) == after_passes(*old(system), passes as nat)
                    &&& v == assigned_value(assignments.last()@, target)
                    &&& forall|i: usize| #[trigger] d.contains(i) ==> stable(*final(system), assignments.last(), i)
                    &&& bottom_least::<V>() && monotone(*old(system)) && order_antisymmetric::<V>() && closed_under(*old(system), d)
                        && d.contains(target.key_index()) ==> forall|lfp: Map<K, V>| #[trigger] least_fixed_point(*old(system), lfp) ==> v
                        == assigned_value(lfp, target)
                }
        },
        r matches Some((v, _)) ==> ordered_least_fixed_point_reachable(*oracle, *old(system), target.key_index()) ==> forall|
            lfp: Map<K, V>,
        | #[trigger] least_fixed_point(*old(system), lfp) ==> v == assigned_value(lfp, target),
        r matches Some((v, _)) ==> bottom_least::<V>() && monotone(*old(system)) ==> forall|fp: Map<K, V>| #[trigger]
            fixed_point(*old(system), fp) ==> at_most(v, assigned_value(fp, target)),
        r matches Some((v, _)) ==> bottom_greatest::<V>() && monotone(*old(system)) ==> forall|fp: Map<K, V>| #[trigger]
            fixed_point(*old(system), fp) ==> at_most(assigned_value(fp, target), v),
        forall|k: K, a: Map<K, V>| #[trigger] final(system).evaluation(k, a) == old(system).evaluation(k, a),
        r is None ==> exists|
            assignments: Seq<HashMap<K, V>>,
            disc: Seq<Set<usize>>,
            asked: Seq<Seq<(StrategyWeight, (K, K))>>,
            answers: Seq<Seq<(StrategyWeight, (K, K))>>,
            steps: Seq<(usize, bool)>,
            seg: Seq<int>,
            pos: Seq<int>,
        |
            {
                &&& #[trigger] ordered_run(*oracle, *old(system), target.key_index(), assignments, disc, asked, answers, steps, seg, pos)
                &&& steps.len() == u32::MAX
                &&& *final(system) == after_passes(*old(system), (answers.len() - 1) as nat)
            },
{
    let ghost s0 = *system;
    let ghost t = target.key_index();
    let mut assignment = system.bottom_assignment();
    let mut discovered = system.universe();
    let mut strategy: BinaryHeapStrategy<(K, K)> = BinaryHeapStrategy::new();
    let pairs = system.pair_universe();
    let first_items = infinite_items(&pairs);
    let ghost first_pairs = first_items@;
    strategy.extend_items(first_items);
    let ghost first_asked = strategy@;
    proof {
        assert(first_asked =~= item_pairs(first_pairs));
        assert(first_asked.map_values(|e: (StrategyWeight, (K, K))| e.1) =~= first_pairs.map_values(
            |i: StrategyItem<(K, K)>| i.1,
        ));
    }
    strategy = oracle.get_strategy(&assignment, &strategy, system);
    let mut todo = strategy.slice_right_ref(target).intersect_keys(&discovered);
    let ghost mut assignments = seq![assignment];
    let ghost mut disc = seq![discovered@];
    let ghost mut asked = seq![first_asked];
    let ghost mut answers = seq![strategy@];
    let ghost mut steps: Seq<(usize, bool)> = Seq::empty();
    let ghost mut seg: Seq<int> = Seq::empty();
    let ghost mut pos: Seq<int> = Seq::empty();
    let ghost mut rem: Seq<int> = Seq::new(todo@.len(), |k: int| k);
    proof {
        assert(answer_state(s0, 0) == s0);
        assert(after_passes(s0, 0) == s0);
        assert(todo@ == segment_todo(answers, disc, t, 0));
        if ordered_least_fixed_point_reachable(*oracle, s0, t) {
            let u = s0.universe_set();
            assert(post_fixed(s0, assignment@)) by {
                assert forall|k: K| #[trigger] at_most(assigned_value(assignment@, k), s0.evaluation(k, assignment@)) by {}
            }
            lemma_item_pair_set(first_asked);
            assert(item_pair_set(first_asked) == s0.pair_universe_set());
            assert(s0.pair_universe_set().contains((t, t)));
            assert forall|l: usize| #[trigger] u.contains(l) && !crate::kleene::top_value(assigned_value(assignment@, K::key_of(l)))
                implies item_pair_set(first_asked).contains((l, t)) by {
                assert(s0.pair_universe_set().contains((l, t)));
            }
            assert(settles(s0, assignment@, item_pair_set(first_asked), t, u));
            assert(settles(s0, assignment@, item_pair_set(strategy@), t, u));
        }
    }
    let mut variable_iterations: u32 = 0;
    let mut oracle_iterations: u32 = 0;
    while todo.length() > 0
        invariant
            oracle_iterations <= variable_iterations,
            s0 == *old(system),
            t == target.key_index(),
            ordered_run(*oracle, s0, t, assignments, disc, asked, answers, steps, seg, pos),
            steps.len() == variable_iterations,
            answers.len() == oracle_iterations + 1,
            *system == after_passes(s0, oracle_iterations as nat),
            answers.last() == strategy@,
            assignments.last() == assignment,
            disc.last() == discovered@,
            rem.len() == todo@.len(),
            forall|k: int|
                0 <= k < rem.len() ==> 0 <= #[trigger] rem[k] < segment_todo(answers, disc, t, answers.len() - 1).len()
                    && todo@[k] == segment_todo(answers, disc, t, answers.len() - 1)[rem[k]],
            forall|a: int, b: int| 0 <= a < b < rem.len() ==> #[trigger] rem[a] != #[trigger] rem[b],
            forall|s: int, k: int|
                0 <= s < steps.len() && seg[s] == answers.len() - 1 && 0 <= k < rem.len() ==> #[trigger] pos[s] != #[trigger] rem[k],
            forall|i: usize|
                #[trigger] value_indices(segment_todo(answers, disc, t, answers.len() - 1)).contains(i) && !value_indices(todo@).contains(i)
                    ==> stable(*system, assignment, i),
            forall|k: K, a: Map<K, V>| #[trigger] system.evaluation(k, a) == s0.evaluation(k, a),
            below_fixed_points(s0, assignment@),
            above_fixed_points(s0, assignment@),
            ordered_least_fixed_point_reachable(*oracle, s0, t) ==> post_fixed(s0, assignment@) && settles(
                s0,
                assignment@,
                item_pair_set(strategy@),
                t,
                s0.universe_set(),
            ),
        decreases u32::MAX - variable_iterations,
    {
        if variable_iterations == u32::MAX {
            return None;
        }
        let ghost todo_before = todo@;
        let ghost cur_todo = segment_todo(answers, disc, t, answers.len() - 1);
        let x = match todo.extract_min() {
            Some(x) => x,
            None => {
                return None;
            },
        };
        let ghost i = choose|i: int|
            {
                &&& 0 <= i < todo_before.len()
                &&& todo_before[i].1 == x
                &&& forall|k: int| 0 <= k < todo_before.len() ==> crate::ordered::strategy::weight_le(todo_before[i].0, #[trigger] todo_before[k].0)
                &&& todo@ == todo_before.remove(i)
            };
        let ghost p = rem[i];
        proof {
            K::lemma_key_index(x, 0);
            assert(todo_before[i] == cur_todo[p]);
            assert(value_indices(cur_todo).contains(x.key_index())) by {
                assert(cur_todo[p].1.key_index() == x.key_index());
            }
            assert forall|y: usize| #[trigger] value_indices(todo@).contains(y) implies value_indices(todo_before).contains(y) by {
                let k = choose|k: int| 0 <= k < todo@.len() && (#[trigger] todo@[k]).1.key_index() == y;
                if k < i {
                    assert(todo@[k] == todo_before[k]);
                } else {
                    assert(todo@[k] == todo_before[k + 1]);
                }
            }
            assert forall|y: usize| #[trigger] value_indices(todo_before).contains(y) && y != x.key_index() implies value_indices(
                todo@,
            ).contains(y) by {
                let k = choose|k: int| 0 <= k < todo_before.len() && (#[trigger] todo_before[k]).1.key_index() == y;
                if k < i {
                    assert(todo@[k] == todo_before[k]);
                } else if k > i {
                    assert(todo@[k - 1] == todo_before[k]);
                }
            }
        }
        let ghost xi = x.key_index();
        let ghost cur = answers.len() - 1;
        let ghost st = *system;
        let ghost old_rem = rem;
        proof {
            rem = rem.remove(i);
        }
        variable_iterations = variable_iterations + 1;
        let evaluated = system.evaluate(x, &assignment);
        let args = system.arguments(x);
        let current = assignment.get_assignment(&x);
        let adv = !current.same_value(&evaluated) || !args.is_subset(&discovered);
        proof {
            assert(adv == changes(st, assignment, discovered@, xi));
        }
        if adv {
            oracle_iterations = oracle_iterations + 1;
            let ghost before = assignment;
            assignment.update_assignment(x, evaluated);
            proof {
                assert forall|k: K| k != x implies #[trigger] assigned_value(assignment@, k) == assigned_value(before@, k) by {}
                lemma_raise_below_fixed_points(s0, before@, assignment@, x);
                lemma_lower_above_fixed_points(s0, before@, assignment@, x);
                if ordered_least_fixed_point_reachable(*oracle, s0, t) {
                    lemma_raise_post_fixed(s0, before@, assignment@, x);
                }
            }
            let ghost old_disc = discovered@;
            let new_args = args.without(&discovered);
            let axa = new_args.cartesian(&new_args);
            let axd = new_args.cartesian(&discovered);
            let dxa = discovered.cartesian(&new_args);
            let new_pair_rel = axa.union(axd).union(dxa);
            proof {
                assert(new_pair_rel@ =~= new_pairs(args@, old_disc));
            }
            let ghost previous = strategy@;
            let new_items = infinite_items(&new_pair_rel);
            let ghost added = new_items@;
            strategy.extend_items(new_items);
            let ghost extended = strategy@;
            strategy.reset_weights();
            let ghost now_asked = strategy@;
            proof {
                if ordered_least_fixed_point_reachable(*oracle, s0, t) {
                    assert(item_pair_set(previous).subset_of(item_pair_set(now_asked))) by {
                        assert forall|p: (usize, usize)| #[trigger] item_pair_set(previous).contains(p) implies item_pair_set(now_asked).contains(
                            p,
                        ) by {
                            let i = choose|i: int|
                                0 <= i < previous.len() && (#[trigger] previous[i]).1.0.key_index() == p.0 && previous[i].1.1.key_index() == p.1;
                            assert(extended[i] == previous[i]);
                            assert(now_asked[i].1 == previous[i].1);
                        }
                    }
                    lemma_settles_grows(
                        s0,
                        before@,
                        assignment@,
                        item_pair_set(previous),
                        item_pair_set(now_asked),
                        t,
                        s0.universe_set(),
                    );
                }
                assert(now_asked.skip(previous.len() as int).map_values(|e: (StrategyWeight, (K, K))| e.1) =~= added.map_values(
                    |it: StrategyItem<(K, K)>| it.1,
                ));
            }
            discovered = system.universe();
            system.lock();
            let ghost lock_state = *system;
            strategy = oracle.get_strategy(&assignment, &strategy, system);
            todo = strategy.slice_right_ref(target);
            system.unlock();
            proof {
                assert(lock_state == answer_state(s0, answers.len() as int));
                if ordered_least_fixed_point_reachable(*oracle, s0, t) {
                    assert(settles(s0, assignment@, item_pair_set(strategy@), t, s0.universe_set()));
                }
                lemma_ordered_run_step(
                    *oracle,
                    s0,
                    t,
                    assignments,
                    disc,
                    asked,
                    answers,
                    steps,
                    seg,
                    pos,
                    xi,
                    p,
                    true,
                    assignment,
                    discovered@,
                    now_asked,
                    strategy@,
                );
                steps = steps.push((xi, true));
                seg = seg.push(cur);
                pos = pos.push(p);
                assignments = assignments.push(assignment);
                disc = disc.push(discovered@);
                asked = asked.push(now_asked);
                answers = answers.push(strategy@);
                rem = Seq::new(todo@.len(), |k: int| k);
                assert(*system == after_passes(s0, oracle_iterations as nat));
                assert(todo@ == segment_todo(answers, disc, t, answers.len() - 1));
            }
        } else {
            proof {
                lemma_ordered_run_step(
                    *oracle,
                    s0,
                    t,
                    assignments,
                    disc,
                    asked,
                    answers,
                    steps,
                    seg,
                    pos,
                    xi,
                    p,
                    false,
                    assignment,
                    discovered@,
                    strategy@,
                    strategy@,
                );
                steps = steps.push((xi, false));
                seg = seg.push(cur);
                pos = pos.push(p);
                assert forall|y: usize|
                    #[trigger] value_indices(cur_todo).contains(y) && !value_indices(todo@).contains(y) implies stable(
                    *system,
                    assignment,
                    y,
                ) by {
                    if y != xi {
                        assert(!value_indices(todo_before).contains(y));
                    }
                }
            }
        }
    }
    let value = assignment.get_assignment(&target);
    let discovered_count = system.universe().len();
    proof {
        let d = value_indices(segment_todo(answers, disc, t, answers.len() - 1));
        assert(value_indices(todo@) =~= Set::<usize>::empty()) by {
            assert forall|y: usize| !value_indices(todo@).contains(y) by {
                if value_indices(todo@).contains(y) {
                    let k = choose|k: int| 0 <= k < todo@.len() && (#[trigger] todo@[k]).1.key_index() == y;
                }
            }
        }
        assert forall|y: usize| #[trigger] d.contains(y) implies stable(*system, assignment, y) by {}
        assert(value == assigned_value(assignment@, target));
        if ordered_least_fixed_point_reachable(*oracle, s0, t) {
            let u = s0.universe_set();
            let full = item_pair_set(strategy@);
            let rel = full.filter(|p: (usize, usize)| u.contains(p.0));
            assert(settles(s0, assignment@, rel, t, u)) by {
                assert(u.contains(t) ==> (full.contains((t, t)) ==> rel.contains((t, t))));
            }
            assert forall|l: usize| #[trigger] deps_of(rel, t).contains(l) implies d.contains(l) by {
                let i = choose|i: int|
                    0 <= i < strategy@.len() && (#[trigger] strategy@[i]).1.0.key_index() == l && strategy@[i].1.1.key_index() == t;
                lemma_keep_right_has(strategy@, t, i);
                let kr = keep_right(strategy@, t);
                let k = choose|k: int| 0 <= k < kr.len() && kr[k] == (strategy@[i].0, strategy@[i].1.0);
                if answers.len() - 1 == 0 {
                    let set = Set::new(|v: K| disc[0].contains(v.key_index()));
                    assert(set.contains(kr[k].1));
                    lemma_keep_in_has(kr, set, k);
                    let ki = keep_in(kr, set);
                    let m = choose|m: int| 0 <= m < ki.len() && ki[m] == kr[k];
                    assert(ki[m].1.key_index() == l);
                } else {
                    assert(kr[k].1.key_index() == l);
                }
            }
            assert forall|lfp: Map<K, V>| #[trigger] least_fixed_point(s0, lfp) implies value == assigned_value(lfp, target) by {
                assert forall|y: usize| #[trigger] deps_of(rel, t).contains(y) implies s0.evaluation(K::key_of(y), assignment@)
                    == assigned_value(assignment@, K::key_of(y)) by {
                    assert(d.contains(y));
                    assert(stable(*system, assignment, y));
                }
                lemma_least_value_settled(s0, assignment@, rel, u, target, lfp);
            }
        }
        if bottom_least::<V>() && monotone(s0) && order_antisymmetric::<V>() && closed_under(s0, d) && d.contains(t) {
            assert forall|lfp: Map<K, V>| #[trigger] least_fixed_point(s0, lfp) implies value == assigned_value(lfp, target) by {
                assert forall|y: usize| #[trigger] d.contains(y) implies s0.evaluation(K::key_of(y), assignment@) == assigned_value(
                    assignment@,
                    K::key_of(y),
                ) by {
                    assert(stable(*system, assignment, y));
                }
                lemma_least_value(s0, assignment@, d, target, lfp);
            }
        }
    }
    Some((value, (variable_iterations, oracle_iterations, discovered_count)))
}

/// In an ordered run, an evaluated variable calls for another oracle pass exactly when its value
/// changes or it has an argument outside the variables discovered so far; and an argument outside
/// them enters the strategy the oracle is next asked on, with itself and with every discovered
/// variable.
pub proof fn lemma_ordered_run_grows_by_new_arguments<
    K: Key,
    V: PartialOrd + Bottom,
    S: System<K, V> + Arguments<K, BitSet<K>> + Universe<BitSet<K>> + PairUniverse<BitsetRelation<K, K>>,
    O: StrategicLocalOracle<K, V, BinaryHeapStrategy<(K, K)>, S>,
>(
    oracle: O,
    system: S,
    t: usize,
    assignments: Seq<HashMap<K, V>>,
    discovered: Seq<Set<usize>>,
    asked: Seq<Seq<(StrategyWeight, (K, K))>>,
    answers: Seq<Seq<(StrategyWeight, (K, K))>>,
    steps: Seq<(usize, bool)>,
    seg: Seq<int>,
    pos: Seq<int>,
    s: int,
    a: usize,
)
    requires
        ordered_run(oracle, system, t, assignments, discovered, asked, answers, steps, seg, pos),
        0 <= s < steps.len(),
    ensures
        steps[s].1 <==> ({
            let st = after_passes(system, seg[s] as nat);
            let k = K::key_of(steps[s].0);
            st.evaluation(k, assignments[seg[s]]@) != assigned_value(assignments[seg[s]]@, k) || exists|b: usize|
                #[trigger] st.argument_set(k).contains(b) && !discovered[seg[s]].contains(b)
        }),
        after_passes(system, seg[s] as nat).argument_set(K::key_of(steps[s].0)).contains(a) && !discovered[seg[s]].contains(a) ==> {
            &&& steps[s].1
            &&& seg[s] + 1 < answers.len()
            &&& item_pair_set(asked[seg[s] + 1]).contains((a, a))
            &&& forall|b: usize| #[trigger] discovered[seg[s]].contains(b) ==> item_pair_set(asked[seg[s] + 1]).contains((a, b))
                && item_pair_set(asked[seg[s] + 1]).contains((b, a))
        },
{
    let j = seg[s];
    let st = after_passes(system, j as nat);
    let k = K::key_of(steps[s].0);
    assert(steps[s].1 == changes(st, assignments[j], discovered[j], steps[s].0));
    if !st.argument_set(k).subset_of(discovered[j]) {
        let b = choose|b: usize| st.argument_set(k).contains(b) && !discovered[j].contains(b);
        assert(st.argument_set(k).contains(b) && !discovered[j].contains(b));
    }
    if st.argument_set(k).contains(a) && !discovered[j].contains(a) {
        assert(!st.argument_set(k).subset_of(discovered[j]));
        assert(ordered_next_entry(system, j, steps[s].0, assignments, discovered, asked, answers));
        let next = asked[j + 1];
        let m = answers[j].len() as int;
        let tail = next.skip(m);
        let q = pair_indices_of(tail.map_values(|e: (StrategyWeight, (K, K))| e.1));
        assert forall|p: (usize, usize)| #[trigger] new_pairs(st.argument_set(k), discovered[j]).contains(p) implies item_pair_set(
            next,
        ).contains(p) by {
            assert(q.to_set().contains(p));
            let i = choose|i: int| 0 <= i < q.len() && q[i] == p;
            assert(tail[i] == next[m + i]);
        }
        assert(new_pairs(st.argument_set(k), discovered[j]).contains((a, a)));
        assert forall|b: usize| #[trigger] discovered[j].contains(b) implies item_pair_set(next).contains((a, b)) && item_pair_set(
            next,
        ).contains((b, a)) by {
            assert(new_pairs(st.argument_set(k), discovered[j]).contains((a, b)));
            assert(new_pairs(st.argument_set(k), discovered[j]).contains((b, a)));
        }
    }
}

} // verus!
