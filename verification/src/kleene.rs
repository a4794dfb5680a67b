//! Local Kleene iteration: the value of one variable of a system of equations, found by
//! evaluating only the variables that a local oracle reports as dependencies.
use std::collections::HashMap;
use std::hash::Hash;
use vstd::prelude::*;

use crate::arena::Key;
use crate::oracle::LocalOracle;
use crate::set::bitset::{BitSet, BitsetRelation};
use crate::{
    assigned_value, Arguments, Assignment, Bottom, Cartesian, Extract, IsSubset, SliceRight, System,
    SetOps, Union, Universe, Value,
};

verus! {

/// The variable with index `i` evaluates to the value it has in `assignment`.
pub open spec fn stable<K: Key, V: PartialOrd + Bottom, S: System<K, V>>(system: S, assignment: HashMap<K, V>, i: usize) -> bool {
    system.evaluation(K::key_of(i), assignment@) == assigned_value(assignment@, K::key_of(i))
}

/// Every pair over the variables of `u`.
pub open spec fn all_pairs_of(u: Set<usize>) -> Set<(usize, usize)> {
    Set::new(|p: (usize, usize)| u.contains(p.0) && u.contains(p.1))
}

/// `a` lies at or below `b` in the order of the values.
pub open spec fn at_most<V: Value>(a: V, b: V) -> bool {
    a == b || a.below(&b)
}

/// Two values that each lie at or below the other are equal.
pub open spec fn order_antisymmetric<V: Value>() -> bool {
    forall|a: V, b: V| #[trigger] at_most(a, b) && #[trigger] at_most(b, a) ==> a == b
}

/// Every variable has a value in `lower` at or below its value in `upper`.
pub open spec fn assignment_below<K, V: Value + Bottom>(lower: Map<K, V>, upper: Map<K, V>) -> bool {
    forall|k: K| #[trigger] at_most(assigned_value(lower, k), assigned_value(upper, k))
}

/// The bottom value lies at or below every value.
pub open spec fn bottom_least<V: Value + Bottom>() -> bool {
    forall|x: V| #[trigger] at_most(V::bottom_value(), x)
}

/// The bottom value lies at or above every value: the iteration descends.
pub open spec fn bottom_greatest<V: Value + Bottom>() -> bool {
    forall|x: V| #[trigger] at_most(x, V::bottom_value())
}

/// Evaluation is monotone: raising the values of an assignment does not lower what any variable
/// evaluates to.
pub open spec fn monotone<K, V: PartialOrd + Value + Bottom, S: System<K, V>>(system: S) -> bool {
    forall|k: K, lower: Map<K, V>, upper: Map<K, V>|
        #![trigger system.evaluation(k, lower), system.evaluation(k, upper)]
        assignment_below(lower, upper) ==> at_most(system.evaluation(k, lower), system.evaluation(k, upper))
}

/// Every variable evaluates, under `fp`, to its value in `fp`.
pub open spec fn fixed_point<K, V: PartialOrd + Bottom, S: System<K, V>>(system: S, fp: Map<K, V>) -> bool {
    forall|k: K| #[trigger] system.evaluation(k, fp) == assigned_value(fp, k)
}

/// Every variable evaluates, under `p`, to a value at or below its value in `p`.
pub open spec fn prefixed_point<K, V: PartialOrd + Value + Bottom, S: System<K, V>>(system: S, p: Map<K, V>) -> bool {
    forall|k: K| #[trigger] at_most(system.evaluation(k, p), assigned_value(p, k))
}

/// `lfp` is the least fixed point: a fixed point at or below every assignment that evaluation
/// does not raise.
pub open spec fn least_fixed_point<K, V: PartialOrd + Value + Bottom, S: System<K, V>>(system: S, lfp: Map<K, V>) -> bool {
    &&& fixed_point(system, lfp)
    &&& forall|p: Map<K, V>| #[trigger] prefixed_point(system, p) ==> assignment_below(lfp, p)
}

/// Two assignments agree on the variables with indices in `d`.
pub open spec fn agree_on<K: Key, V: Bottom>(a: Map<K, V>, b: Map<K, V>, d: Set<usize>) -> bool {
    forall|j: usize| #[trigger] d.contains(j) ==> assigned_value(a, K::key_of(j)) == assigned_value(b, K::key_of(j))
}

/// The variables with indices in `d` evaluate to what the values of variables in `d` alone make
/// them: the set is closed under dependency.
pub open spec fn closed_under<K: Key, V: PartialOrd + Bottom, S: System<K, V>>(system: S, d: Set<usize>) -> bool {
    forall|i: usize, a: Map<K, V>, b: Map<K, V>|
        #![trigger system.evaluation(K::key_of(i), a), system.evaluation(K::key_of(i), b)]
        d.contains(i) && agree_on(a, b, d) ==> system.evaluation(K::key_of(i), a) == system.evaluation(K::key_of(i), b)
}

/// Where the bottom value is least and evaluation monotone, `assignment` lies at or below every
/// fixed point of the system.
pub open spec fn below_fixed_points<K, V: PartialOrd + Value + Bottom, S: System<K, V>>(
    system: S,
    assignment: Map<K, V>,
) -> bool {
    bottom_least::<V>() && monotone(system) ==> forall|fp: Map<K, V>| #[trigger] fixed_point(system, fp) ==> assignment_below(
        assignment,
        fp,
    )
}

/// Where the bottom value is greatest and evaluation monotone, `assignment` lies at or above every
/// fixed point of the system.
pub open spec fn above_fixed_points<K, V: PartialOrd + Value + Bottom, S: System<K, V>>(
    system: S,
    assignment: Map<K, V>,
) -> bool {
    bottom_greatest::<V>() && monotone(system) ==> forall|fp: Map<K, V>| #[trigger] fixed_point(system, fp) ==> assignment_below(
        fp,
        assignment,
    )
}

/// The state of the system after `n` passes of the oracle, each made with the system locked and
/// followed by unlocking it.
pub open spec fn after_passes<K, V: PartialOrd, S: System<K, V>>(system: S, n: nat) -> S
    decreases n,
{
    if n == 0 {
        system
    } else {
        after_passes(system, (n - 1) as nat).with_lock(true).with_lock(false)
    }
}

/// The indices of the variables that the relation pairs with the target of index `t`.
pub open spec fn deps_of(rel: Set<(usize, usize)>, t: usize) -> Set<usize> {
    Set::new(|l: usize| rel.contains((l, t)))
}

/// The relation with the pairs added that the arguments `args` make with themselves and with the
/// discovered variables `d`.
pub open spec fn grown(rel: Set<(usize, usize)>, args: Set<usize>, d: Set<usize>) -> Set<(usize, usize)> {
    rel.union(
        Set::new(
            |p: (usize, usize)| (args.contains(p.0) && (args.contains(p.1) || d.contains(p.1))) || (d.contains(p.0) && args.contains(p.1)),
        ),
    )
}

/// Evaluating the variable of index `x` in `system` under `assignment` calls for another pass of
/// the oracle: its value changes, or it has an argument outside the discovered variables `d`.
pub open spec fn changes<K: Key, V: PartialOrd + Bottom, S: System<K, V> + Arguments<K, BitSet<K>>>(
    system: S,
    assignment: HashMap<K, V>,
    d: Set<usize>,
    x: usize,
) -> bool {
    system.evaluation(K::key_of(x), assignment@) != assigned_value(assignment@, K::key_of(x)) || !system.argument_set(
        K::key_of(x),
    ).subset_of(d)
}

/// Entry `j + 1` of the run follows from entry `j` by the evaluation of the variable of index `x`:
/// its value is set, the arguments grow the relation, the discovered variables are read anew and
/// the oracle is asked on the grown relation.
pub open spec fn next_entry<K: Key, V: PartialOrd + Bottom, S: System<K, V> + Arguments<K, BitSet<K>> + Universe<BitSet<K>>, O: LocalOracle<
    K,
    V,
    BitsetRelation<K, K>,
    S,
>>(
    oracle: O,
    system: S,
    j: int,
    x: usize,
    assignments: Seq<HashMap<K, V>>,
    discovered: Seq<Set<usize>>,
    asked: Seq<Set<(usize, usize)>>,
) -> bool {
    let st = after_passes(system, (j + 1) as nat);
    let k = K::key_of(x);
    &&& assignments[j + 1]@ == assignments[j]@.insert(k, st.evaluation(k, assignments[j]@))
    &&& discovered[j + 1] == st.universe_set()
    &&& asked[j + 1] == grown(
        oracle.flow(assignments[j], asked[j], after_passes(system, j as nat).with_lock(true)),
        st.argument_set(k),
        discovered[j],
    )
}

/// A run of local Kleene iteration from `system` for the target of index `t`. Entry `j` holds the
/// assignment, the discovered variables, the relation the oracle was asked on and its answer,
/// in the state after `j` passes, locked; the first entry starts from the bottom assignment and
/// every pair of the discovered variables. `steps` lists each evaluated variable with whether it
/// called for another pass, and `seg` the entry it was evaluated in: each is a dependency of the
/// target in the answer of its entry, none twice in one entry, and each that calls for a pass
/// makes the next entry.
pub open spec fn kleene_run<K: Key, V: PartialOrd + Bottom, S: System<K, V> + Arguments<K, BitSet<K>> + Universe<BitSet<K>>, O: LocalOracle<
    K,
    V,
    BitsetRelation<K, K>,
    S,
>>(
    oracle: O,
    system: S,
    t: usize,
    assignments: Seq<HashMap<K, V>>,
    discovered: Seq<Set<usize>>,
    asked: Seq<Set<(usize, usize)>>,
    answers: Seq<Set<(usize, usize)>>,
    steps: Seq<(usize, bool)>,
    seg: Seq<int>,
) -> bool {
    let n = answers.len();
    &&& n >= 1
    &&& assignments.len() == n && discovered.len() == n && asked.len() == n
    &&& assignments[0]@ == Map::<K, V>::empty()
    &&& discovered[0] == system.universe_set()
    &&& asked[0] == all_pairs_of(discovered[0])
    &&& forall|j: int| 0 <= j < n ==> #[trigger] answers[j] == oracle.flow(
        assignments[j],
        asked[j],
        after_passes(system, j as nat).with_lock(true),
    )
    &&& seg.len() == steps.len()
    &&& steps.len() > 0 ==> seg[0] == 0
    &&& forall|s: int| 0 <= s < steps.len() - 1 ==> #[trigger] seg[s + 1] == seg[s] + (if steps[s].1 {
        1int
    } else {
        0int
    })
    &&& n - 1 == (if steps.len() == 0 {
        0int
    } else {
        seg[steps.len() - 1] + (if steps[steps.len() - 1].1 {
            1int
        } else {
            0int
        })
    })
    &&& forall|s: int|
        0 <= s < steps.len() ==> {
            &&& 0 <= #[trigger] seg[s] < n
            &&& deps_of(answers[seg[s]], t).contains(steps[s].0)
            &&& steps[s].1 == changes(
                after_passes(system, (seg[s] + 1) as nat),
                assignments[seg[s]],
                discovered[seg[s]],
                steps[s].0,
            )
            &&& steps[s].1 ==> seg[s] + 1 < n && next_entry(oracle, system, seg[s], steps[s].0, assignments, discovered, asked)
        }
    &&& forall|s1: int, s2: int|
        0 <= s1 < s2 < steps.len() && #[trigger] seg[s1] == #[trigger] seg[s2] ==> steps[s1].0 != steps[s2].0
}

/// Setting one variable to what it evaluates to keeps an assignment below every fixed point.
pub(crate) proof fn lemma_raise_below_fixed_points<K, V: PartialOrd + Value + Bottom, S: System<K, V>>(
    system: S,
    before: Map<K, V>,
    after: Map<K, V>,
    x: K,
)
    requires
        below_fixed_points(system, before),
        assigned_value(after, x) == system.evaluation(x, before),
        forall|k: K| k != x ==> #[trigger] assigned_value(after, k) == assigned_value(before, k),
    ensures
        below_fixed_points(system, after),
{
    if bottom_least::<V>() && monotone(system) {
        assert forall|fp: Map<K, V>| #[trigger] fixed_point(system, fp) implies assignment_below(after, fp) by {
            assert(assignment_below(before, fp));
            assert(at_most(system.evaluation(x, before), system.evaluation(x, fp)));
            assert(system.evaluation(x, fp) == assigned_value(fp, x));
            assert forall|k: K| #[trigger] at_most(assigned_value(after, k), assigned_value(fp, k)) by {
                if k != x {
                    assert(assigned_value(after, k) == assigned_value(before, k));
                    assert(at_most(assigned_value(before, k), assigned_value(fp, k)));
                }
            }
        }
    }
}

/// Setting one variable to what it evaluates to keeps an assignment above every fixed point.
pub(crate) proof fn lemma_lower_above_fixed_points<K, V: PartialOrd + Value + Bottom, S: System<K, V>>(
    system: S,
    before: Map<K, V>,
    after: Map<K, V>,
    x: K,
)
    requires
        above_fixed_points(system, before),
        assigned_value(after, x) == system.evaluation(x, before),
        forall|k: K| k != x ==> #[trigger] assigned_value(after, k) == assigned_value(before, k),
    ensures
        above_fixed_points(system, after),
{
    if bottom_greatest::<V>() && monotone(system) {
        assert forall|fp: Map<K, V>| #[trigger] fixed_point(system, fp) implies assignment_below(fp, after) by {
            assert(assignment_below(fp, before));
            assert(at_most(system.evaluation(x, fp), system.evaluation(x, before)));
            assert(system.evaluation(x, fp) == assigned_value(fp, x));
            assert forall|k: K| #[trigger] at_most(assigned_value(fp, k), assigned_value(after, k)) by {
                if k != x {
                    assert(assigned_value(after, k) == assigned_value(before, k));
                    assert(at_most(assigned_value(fp, k), assigned_value(before, k)));
                }
            }
        }
    }
}

/// No value lies above `x`.
pub open spec fn top_value<V: Value>(x: V) -> bool {
    forall|y: V| #[trigger] at_most(x, y) ==> y == x
}

/// A value at or below a second and the second at or below a third puts the first at or below the
/// third.
pub open spec fn order_transitive<V: Value>() -> bool {
    forall|a: V, b: V, c: V| #[trigger] at_most(a, b) && #[trigger] at_most(b, c) ==> at_most(a, c)
}

/// Every variable is at or below what it evaluates to.
pub open spec fn post_fixed<K, V: PartialOrd + Value + Bottom, S: System<K, V>>(system: S, a: Map<K, V>) -> bool {
    forall|k: K| #[trigger] at_most(assigned_value(a, k), system.evaluation(k, a))
}

/// The relation settles the target of index `t` of `system` under `a` over the variables `u`: the
/// target has a value nothing lies above; or it is in `u`, a dependency of itself, and it and every
/// variable of `u` with a value something lies above are dependencies of the target; or it is in
/// `u`, a dependency of itself, and evaluates to a value nothing lies above.
pub open spec fn settles<K: Key, V: PartialOrd + Value + Bottom, S: System<K, V>>(
    system: S,
    a: Map<K, V>,
    rel: Set<(usize, usize)>,
    t: usize,
    u: Set<usize>,
) -> bool {
    ||| top_value(assigned_value(a, K::key_of(t)))
    ||| u.contains(t) && rel.contains((t, t)) && forall|l: usize| #[trigger] u.contains(l) && !top_value(assigned_value(a, K::key_of(l))) ==> rel.contains((l, t))
    ||| u.contains(t) && rel.contains((t, t)) && top_value(system.evaluation(K::key_of(t), a))
}

/// A sound oracle: asked, in a state a run of the system reaches, on a relation that settles a
/// target over the variables of the system, it answers a relation that settles it too. Pruning only
/// pairs that involve a variable with a value nothing lies above is sound.
pub open spec fn sound_oracle<K: Key, V: PartialOrd + Value + Bottom, S: System<K, V> + Universe<BitSet<K>>, O: LocalOracle<
    K,
    V,
    BitsetRelation<K, K>,
    S,
>>(oracle: O, system: S) -> bool {
    forall|n: nat, a: HashMap<K, V>, asked: Set<(usize, usize)>, t: usize|
        #![trigger settles(system, a@, oracle.flow(a, asked, after_passes(system, n).with_lock(true)), t, system.universe_set())]
        settles(system, a@, asked, t, system.universe_set()) ==> settles(
            system,
            a@,
            oracle.flow(a, asked, after_passes(system, n).with_lock(true)),
            t,
            system.universe_set(),
        )
}

/// Through the passes of a run the variables of the system and the arguments of each stay as they
/// are, and the arguments of every variable are variables of the system.
pub open spec fn steady_universe<K, V: PartialOrd, S: System<K, V> + Arguments<K, BitSet<K>> + Universe<BitSet<K>>>(system: S) -> bool {
    &&& forall|n: nat| #[trigger] after_passes(system, n).universe_set() == system.universe_set()
    &&& forall|n: nat, k: K| #[trigger] after_passes(system, n).argument_set(k) == system.argument_set(k)
    &&& forall|k: K| #[trigger] system.argument_set(k).subset_of(system.universe_set())
}

/// Each variable evaluates to what the values of its arguments make it.
pub open spec fn arguments_determine<K: Key, V: PartialOrd + Bottom, S: System<K, V> + Arguments<K, BitSet<K>>>(system: S) -> bool {
    forall|k: K, a: Map<K, V>, b: Map<K, V>|
        #![trigger system.evaluation(k, a), system.evaluation(k, b)]
        agree_on(a, b, system.argument_set(k)) ==> system.evaluation(k, a) == system.evaluation(k, b)
}

/// What local Kleene iteration on `system` needs to reach the least fixed point: the bottom value
/// is least, the order of values is a partial order, evaluation is monotone and reads only the
/// arguments, the variables stay as they are and hold the target of index `t`, and the oracle is
/// sound.
pub open spec fn least_fixed_point_reachable<K: Key, V: PartialOrd + Value + Bottom, S: System<K, V> + Arguments<K, BitSet<K>> + Universe<
    BitSet<K>,
>, O: LocalOracle<K, V, BitsetRelation<K, K>, S>>(oracle: O, system: S, t: usize) -> bool {
    &&& bottom_least::<V>()
    &&& order_antisymmetric::<V>()
    &&& order_transitive::<V>()
    &&& monotone(system)
    &&& arguments_determine(system)
    &&& steady_universe(system)
    &&& system.universe_set().contains(t)
    &&& sound_oracle(oracle, system)
}

/// Setting a variable to what it evaluates to keeps every variable at or below what it evaluates
/// to, raises no value, and keeps every value nothing lies above.
pub(crate) proof fn lemma_raise_post_fixed<K, V: PartialOrd + Value + Bottom, S: System<K, V>>(
    system: S,
    before: Map<K, V>,
    after: Map<K, V>,
    x: K,
)
    requires
        monotone(system),
        order_transitive::<V>(),
        post_fixed(system, before),
        assigned_value(after, x) == system.evaluation(x, before),
        forall|k: K| k != x ==> #[trigger] assigned_value(after, k) == assigned_value(before, k),
    ensures
        post_fixed(system, after),
        assignment_below(before, after),
        forall|k: K| #[trigger] top_value(assigned_value(before, k)) ==> assigned_value(after, k) == assigned_value(before, k),
{
    assert(at_most(assigned_value(before, x), system.evaluation(x, before)));
    assert forall|k: K| #[trigger] at_most(assigned_value(before, k), assigned_value(after, k)) by {}
    assert(assignment_below(before, after));
    assert forall|k: K| #[trigger] at_most(assigned_value(after, k), system.evaluation(k, after)) by {
        assert(at_most(system.evaluation(k, before), system.evaluation(k, after)));
        if k != x {
            assert(at_most(assigned_value(before, k), system.evaluation(k, before)));
        }
    }
    assert forall|k: K| #[trigger] top_value(assigned_value(before, k)) implies assigned_value(after, k) == assigned_value(before, k) by {
        assert(at_most(assigned_value(before, k), assigned_value(after, k)));
    }
}

/// Where no value was lowered and every value nothing lies above was kept, a relation that settled
/// the target keeps settling it, and so does any relation that holds it.
pub(crate) proof fn lemma_settles_grows<K: Key, V: PartialOrd + Value + Bottom, S: System<K, V>>(
    system: S,
    before: Map<K, V>,
    after: Map<K, V>,
    rel: Set<(usize, usize)>,
    more: Set<(usize, usize)>,
    t: usize,
    u: Set<usize>,
)
    requires
        settles(system, before, rel, t, u),
        rel.subset_of(more),
        monotone(system),
        assignment_below(before, after),
        forall|k: K| #[trigger] top_value(assigned_value(before, k)) ==> assigned_value(after, k) == assigned_value(before, k),
    ensures
        settles(system, after, more, t, u),
{
    let x = system.evaluation(K::key_of(t), before);
    if !top_value(assigned_value(before, K::key_of(t))) && top_value(x) {
        assert(at_most(x, system.evaluation(K::key_of(t), after)));
    } else if !top_value(assigned_value(before, K::key_of(t))) {
        assert forall|l: usize| #[trigger] u.contains(l) && !top_value(assigned_value(after, K::key_of(l))) implies more.contains(
            (l, t),
        ) by {
            if top_value(assigned_value(before, K::key_of(l))) {
                assert(assigned_value(after, K::key_of(l)) == assigned_value(before, K::key_of(l)));
            }
        }
    } else {
        assert(assigned_value(after, K::key_of(t)) == assigned_value(before, K::key_of(t)));
    }
}

/// An assignment below every fixed point, stable on the dependencies of the target in a relation
/// that settles it, gives the target the value of the least fixed point, where evaluation reads
/// only the arguments and those lie in `u`.
pub proof fn lemma_least_value_settled<K: Key, V: PartialOrd + Value + Bottom, S: System<K, V> + Arguments<K, BitSet<K>>>(
    system: S,
    a: Map<K, V>,
    rel: Set<(usize, usize)>,
    u: Set<usize>,
    target: K,
    lfp: Map<K, V>,
)
    requires
        bottom_least::<V>(),
        monotone(system),
        order_antisymmetric::<V>(),
        arguments_determine(system),
        forall|k: K| #[trigger] system.argument_set(k).subset_of(u),
        below_fixed_points(system, a),
        settles(system, a, rel, target.key_index(), u),
        forall|i: usize| #[trigger] deps_of(rel, target.key_index()).contains(i) ==> system.evaluation(K::key_of(i), a)
            == assigned_value(a, K::key_of(i)),
        least_fixed_point(system, lfp),
    ensures
        assigned_value(a, target) == assigned_value(lfp, target),
{
    let t = target.key_index();
    K::lemma_key_index(target, 0);
    assert(assignment_below(a, lfp));
    assert(at_most(assigned_value(a, target), assigned_value(lfp, target)));
    if rel.contains((t, t)) {
        assert(deps_of(rel, t).contains(t));
        assert(system.evaluation(K::key_of(t), a) == assigned_value(a, K::key_of(t)));
    }
    if top_value(assigned_value(a, K::key_of(t))) {
        return;
    }
    let d = deps_of(rel, t);
    let c = Map::new(
        |k: K| true,
        |k: K|
            if d.contains(k.key_index()) {
                assigned_value(a, k)
            } else {
                assigned_value(lfp, k)
            },
    );
    assert forall|k: K| #[trigger] at_most(assigned_value(c, k), assigned_value(lfp, k)) by {
        assert(at_most(assigned_value(a, k), assigned_value(lfp, k)));
    }
    assert(assignment_below(c, lfp));
    assert forall|k: K| #[trigger] at_most(system.evaluation(k, c), assigned_value(c, k)) by {
        K::lemma_key_index(k, 0);
        let i = k.key_index();
        if d.contains(i) {
            assert(system.argument_set(k).subset_of(u));
            assert(agree_on(c, a, system.argument_set(k))) by {
                assert forall|j: usize| #[trigger] system.argument_set(k).contains(j) implies assigned_value(c, K::key_of(j))
                    == assigned_value(a, K::key_of(j)) by {
                    K::lemma_key_index(K::key_of(j), j);
                    assert(u.contains(j));
                    if !d.contains(j) {
                        assert(top_value(assigned_value(a, K::key_of(j))));
                        assert(at_most(assigned_value(a, K::key_of(j)), assigned_value(lfp, K::key_of(j))));
                    }
                }
            }
            assert(system.evaluation(k, c) == system.evaluation(k, a));
            assert(system.evaluation(K::key_of(i), a) == assigned_value(a, K::key_of(i)));
        } else {
            assert(at_most(system.evaluation(k, c), system.evaluation(k, lfp)));
            assert(system.evaluation(k, lfp) == assigned_value(lfp, k));
        }
    }
    assert(prefixed_point(system, c));
    assert(assignment_below(lfp, c));
    assert(at_most(assigned_value(lfp, target), assigned_value(c, target)));
}

/// An assignment below every fixed point that is stable on a dependency-closed set holding the
/// target gives the target the value of the least fixed point.
pub proof fn lemma_least_value<K: Key, V: PartialOrd + Value + Bottom, S: System<K, V>>(
    system: S,
    a: Map<K, V>,
    d: Set<usize>,
    target: K,
    lfp: Map<K, V>,
)
    requires
        bottom_least::<V>(),
        monotone(system),
        order_antisymmetric::<V>(),
        closed_under(system, d),
        d.contains(target.key_index()),
        below_fixed_points(system, a),
        forall|i: usize| #[trigger] d.contains(i) ==> system.evaluation(K::key_of(i), a) == assigned_value(a, K::key_of(i)),
        least_fixed_point(system, lfp),
    ensures
        assigned_value(a, target) == assigned_value(lfp, target),
{
    let c = Map::new(
        |k: K| true,
        |k: K|
            if d.contains(k.key_index()) {
                assigned_value(a, k)
            } else {
                assigned_value(lfp, k)
            },
    );
    assert(assignment_below(a, lfp));
    assert forall|k: K| #[trigger] at_most(assigned_value(c, k), assigned_value(lfp, k)) by {
        assert(at_most(assigned_value(a, k), assigned_value(lfp, k)));
    }
    assert(assignment_below(c, lfp));
    assert(agree_on(c, a, d)) by {
        assert forall|j: usize| #[trigger] d.contains(j) implies assigned_value(c, K::key_of(j)) == assigned_value(a, K::key_of(j)) by {
            K::lemma_key_index(K::key_of(j), j);
        }
    }
    assert forall|k: K| #[trigger] at_most(system.evaluation(k, c), assigned_value(c, k)) by {
        K::lemma_key_index(k, 0);
        let i = k.key_index();
        if d.contains(i) {
            assert(system.evaluation(K::key_of(i), c) == system.evaluation(K::key_of(i), a));
            assert(system.evaluation(K::key_of(i), a) == assigned_value(a, K::key_of(i)));
        } else {
            assert(at_most(system.evaluation(k, c), system.evaluation(k, lfp)));
            assert(system.evaluation(k, lfp) == assigned_value(lfp, k));
        }
    }
    assert(prefixed_point(system, c));
    assert(assignment_below(lfp, c));
    assert(at_most(assigned_value(lfp, target), assigned_value(c, target)));
    assert(at_most(assigned_value(a, target), assigned_value(lfp, target)));
}

/// One more evaluation, of the variable of index `x`, extends a run: by a step in the last entry
/// where it calls for no pass, and by a step and the entry it makes where it does.
proof fn lemma_run_step<K: Key, V: PartialOrd + Bottom, S: System<K, V> + Arguments<K, BitSet<K>> + Universe<BitSet<K>>, O: LocalOracle<
    K,
    V,
    BitsetRelation<K, K>,
    S,
>>(
    oracle: O,
    system: S,
    t: usize,
    assignments: Seq<HashMap<K, V>>,
    discovered: Seq<Set<usize>>,
    asked: Seq<Set<(usize, usize)>>,
    answers: Seq<Set<(usize, usize)>>,
    steps: Seq<(usize, bool)>,
    seg: Seq<int>,
    x: usize,
    adv: bool,
    new_assignment: HashMap<K, V>,
    new_disc: Set<usize>,
    new_asked: Set<(usize, usize)>,
    new_answer: Set<(usize, usize)>,
)
    requires
        kleene_run(oracle, system, t, assignments, discovered, asked, answers, steps, seg),
        forall|s: int| 0 <= s < steps.len() && seg[s] == answers.len() - 1 ==> #[trigger] steps[s].0 != x,
        deps_of(answers.last(), t).contains(x),
        adv == changes(after_passes(system, answers.len()), assignments.last(), discovered.last(), x),
        adv ==> {
            let st = after_passes(system, answers.len());
            &&& new_assignment@ == assignments.last()@.insert(K::key_of(x), st.evaluation(K::key_of(x), assignments.last()@))
            &&& new_disc == st.universe_set()
            &&& new_asked == grown(answers.last(), st.argument_set(K::key_of(x)), discovered.last())
            &&& new_answer == oracle.flow(new_assignment, new_asked, st.with_lock(true))
        },
    ensures
        adv ==> kleene_run(
            oracle,
            system,
            t,
            assignments.push(new_assignment),
            discovered.push(new_disc),
            asked.push(new_asked),
            answers.push(new_answer),
            steps.push((x, true)),
            seg.push(answers.len() - 1),
        ),
        !adv ==> kleene_run(oracle, system, t, assignments, discovered, asked, answers, steps.push((x, false)), seg.push(answers.len() - 1)),
{
    let n = answers.len();
    let cur = n - 1;
    let steps2 = steps.push((x, adv));
    let seg2 = seg.push(cur);
    assert(answers[cur] == oracle.flow(assignments[cur], asked[cur], after_passes(system, cur as nat).with_lock(true)));
    if adv {
        let assignments2 = assignments.push(new_assignment);
        let discovered2 = discovered.push(new_disc);
        let asked2 = asked.push(new_asked);
        let answers2 = answers.push(new_answer);
        assert(after_passes(system, n as nat) == after_passes(system, (cur + 1) as nat));
        assert forall|j: int| 0 <= j < answers2.len() implies #[trigger] answers2[j] == oracle.flow(
            assignments2[j],
            asked2[j],
            after_passes(system, j as nat).with_lock(true),
        ) by {
            if j < n {
                assert(answers[j] == oracle.flow(assignments[j], asked[j], after_passes(system, j as nat).with_lock(true)));
            }
        }
        assert forall|s: int| 0 <= s < steps2.len() - 1 implies #[trigger] seg2[s + 1] == seg2[s] + (if steps2[s].1 {
            1int
        } else {
            0int
        }) by {
            if s < steps.len() - 1 {
                assert(seg[s + 1] == seg[s] + (if steps[s].1 {
                    1int
                } else {
                    0int
                }));
            }
        }
        assert forall|s: int| 0 <= s < steps2.len() implies {
            &&& 0 <= #[trigger] seg2[s] < answers2.len()
            &&& deps_of(answers2[seg2[s]], t).contains(steps2[s].0)
            &&& steps2[s].1 == changes(
                after_passes(system, (seg2[s] + 1) as nat),
                assignments2[seg2[s]],
                discovered2[seg2[s]],
                steps2[s].0,
            )
            &&& steps2[s].1 ==> seg2[s] + 1 < answers2.len() && next_entry(oracle, system, seg2[s], steps2[s].0, assignments2, discovered2, asked2)
        } by {
            if s < steps.len() {
                assert(0 <= seg[s] < n);
                if steps[s].1 {
                    assert(next_entry(oracle, system, seg[s], steps[s].0, assignments, discovered, asked));
                }
            }
        }
        assert forall|s1: int, s2: int|
            0 <= s1 < s2 < steps2.len() && #[trigger] seg2[s1] == #[trigger] seg2[s2] implies steps2[s1].0 != steps2[s2].0 by {
            if s2 < steps.len() {
                assert(seg[s1] == seg[s2]);
            } else {
                assert(seg[s1] == cur);
            }
        }
        assert(kleene_run(oracle, system, t, assignments2, discovered2, asked2, answers2, steps2, seg2));
    } else {
        assert forall|s: int| 0 <= s < steps2.len() - 1 implies #[trigger] seg2[s + 1] == seg2[s] + (if steps2[s].1 {
            1int
        } else {
            0int
        }) by {
            if s < steps.len() - 1 {
                assert(seg[s + 1] == seg[s] + (if steps[s].1 {
                    1int
                } else {
                    0int
                }));
            }
        }
        assert forall|s: int| 0 <= s < steps2.len() implies {
            &&& 0 <= #[trigger] seg2[s] < answers.len()
            &&& deps_of(answers[seg2[s]], t).contains(steps2[s].0)
            &&& steps2[s].1 == changes(
                after_passes(system, (seg2[s] + 1) as nat),
                assignments[seg2[s]],
                discovered[seg2[s]],
                steps2[s].0,
            )
            &&& steps2[s].1 ==> seg2[s] + 1 < answers.len() && next_entry(oracle, system, seg2[s], steps2[s].0, assignments, discovered, asked)
        } by {
            if s < steps.len() {
                assert(0 <= seg[s] < n);
            }
        }
        assert forall|s1: int, s2: int|
            0 <= s1 < s2 < steps2.len() && #[trigger] seg2[s1] == #[trigger] seg2[s2] implies steps2[s1].0 != steps2[s2].0 by {
            if s2 < steps.len() {
                assert(seg[s1] == seg[s2]);
            } else {
                assert(seg[s1] == cur);
            }
        }
        assert(kleene_run(oracle, system, t, assignments, discovered, asked, answers, steps2, seg2));
    }
}

/// Ask the oracle for the dependencies of `variable`, with the system locked.
fn local_dependencies<K: Key, V: PartialOrd, S: System<K, V>, O: LocalOracle<K, V, BitsetRelation<K, K>, S>>(
    variable: K,
    assignment: &HashMap<K, V>,
    oracle: &O,
    system: &mut S,
    rel: &mut BitsetRelation<K, K>,
) -> (r: BitSet<K>)
    ensures
        final(rel)@ == oracle.flow(*assignment, old(rel)@, old(system).with_lock(true)),
        r@ == deps_of(final(rel)@, variable.key_index()),
        *final(system) == old(system).with_lock(true).with_lock(false),
        forall|k: K, a: Map<K, V>| #[trigger] final(system).evaluation(k, a) == old(system).evaluation(k, a),
{
    system.lock();
    *rel = oracle.approximate_flow(assignment, rel, system);
    system.unlock();
    let r = rel.slice_right(variable);
    proof {
        assert(r@ =~= deps_of(rel@, variable.key_index()));
    }
    r
}

/// Evaluate the target by local Kleene iteration, with the dependencies that the oracle reports.
/// Returns the value of the target with the number of variable evaluations and of oracle passes,
/// or `None` when the evaluations would exceed the range of the counter.
///
/// The result comes from a run (see `kleene_run`) whose number of evaluations and passes it gives,
/// or whose evaluations reached `u32::MAX`; the system is left unlocked after its passes. The value
/// is that of the target in the last assignment of the run, under which every dependency of the
/// target in the last answer is stable. Where evaluation is monotone, that assignment lies below
/// every fixed point when the bottom value is least (as for Boolean systems) and above every fixed
/// point when the bottom value is greatest (as for numeric systems, which descend from infinity).
/// Where the system and the oracle meet `least_fixed_point_reachable` (a sound oracle, see
/// `sound_oracle`), the value is that of the least fixed point.
pub fn kleene_local<
    K: Key + Eq + Hash,
    V: PartialOrd + Bottom + Value,
    S: System<K, V> + Arguments<K, BitSet<K>> + Universe<BitSet<K>>,
    O: LocalOracle<K, V, BitsetRelation<K, K>, S>,
>(system: &mut S, target: K, oracle: &O) -> (r: Option<(V, (u32, u32))>)
    ensures
        r matches Some((v, (evaluations, passes))) ==> {
            &&& passes <= evaluations
            &&& exists|
                assignments: Seq<HashMap<K, V>>,
                discovered: Seq<Set<usize>>,
                asked: Seq<Set<(usize, usize)>>,
                answers: Seq<Set<(usize, usize)>>,
                steps: Seq<(usize, bool)>,
                seg: Seq<int>,
            |
                {
                    &&& #[trigger] kleene_run(*oracle, *old(system), target.key_index(), assignments, discovered, asked, answers, steps, seg)
                    &&& steps.len() == evaluations
                    &&& answers.len() == passes + 1
                    &&& *final(system) == after_passes(*old(system), answers.len())
                    &&& v == assigned_value(assignments.last()@, target)
                    &&& forall|i: usize| #[trigger] deps_of(answers.last(), target.key_index()).contains(i) ==> stable(
                        *final(system),
                        assignments.last(),
                        i,
                    )
                }
        },
        r matches Some((v, _)) ==> least_fixed_point_reachable(*oracle, *old(system), target.key_index()) ==> forall|lfp: Map<K, V>|
            #[trigger] least_fixed_point(*old(system), lfp) ==> v == assigned_value(lfp, target),
        r matches Some((v, _)) ==> bottom_least::<V>() && monotone(*old(system)) ==> forall|fp: Map<K, V>| #[trigger]
            fixed_point(*old(system), fp) ==> at_most(v, assigned_value(fp, target)),
        r matches Some((v, _)) ==> bottom_greatest::<V>() && monotone(*old(system)) ==> forall|fp: Map<K, V>| #[trigger]
            fixed_point(*old(system), fp) ==> at_most(assigned_value(fp, target), v),
        forall|k: K, a: Map<K, V>| #[trigger] final(system).evaluation(k, a) == old(system).evaluation(k, a),
        r is None ==> exists|
            assignments: Seq<HashMap<K, V>>,
            discovered: Seq<Set<usize>>,
            asked: Seq<Set<(usize, usize)>>,
            answers: Seq<Set<(usize, usize)>>,
            steps: Seq<(usize, bool)>,
            seg: Seq<int>,
        |
            {
                &&& #[trigger] kleene_run(*oracle, *old(system), target.key_index(), assignments, discovered, asked, answers, steps, seg)
                &&& steps.len() == u32::MAX
                &&& *final(system) == after_passes(*old(system), answers.len())
            },
{
    let ghost s0 = *system;
    let ghost t = target.key_index();
    let mut assignment = system.bottom_assignment();
    let mut discovered = system.universe();
    let mut rel = discovered.cartesian(&discovered);
    proof {
        assert(rel@ =~= all_pairs_of(discovered@));
    }
    let ghost first_asked = rel@;
    let mut todo = local_dependencies(target, &assignment, oracle, system, &mut rel);
    let ghost mut assignments = seq![assignment];
    let ghost mut discovered_seq = seq![discovered@];
    let ghost mut asked = seq![first_asked];
    let ghost mut answers = seq![rel@];
    let ghost mut steps: Seq<(usize, bool)> = Seq::empty();
    let ghost mut seg: Seq<int> = Seq::empty();
    let ghost mut deps = todo@;
    proof {
        assert(after_passes(s0, 0) == s0);
        assert(after_passes(s0, 1) == s0.with_lock(true).with_lock(false));
        if least_fixed_point_reachable(*oracle, s0, t) {
            assert(post_fixed(s0, assignment@)) by {
                assert forall|k: K| #[trigger] at_most(assigned_value(assignment@, k), s0.evaluation(k, assignment@)) by {}
            }
            assert(settles(s0, assignment@, first_asked, t, s0.universe_set()));
            assert(settles(s0, assignment@, oracle.flow(assignment, first_asked, after_passes(s0, 0).with_lock(true)), t, s0.universe_set()));
        }
    }
    let mut variable_iterations: u32 = 0;
    let mut oracle_iterations: u32 = 0;
    while !todo.is_empty()
        invariant
            oracle_iterations <= variable_iterations,
            s0 == *old(system),
            t == target.key_index(),
            kleene_run(*oracle, s0, t, assignments, discovered_seq, asked, answers, steps, seg),
            steps.len() == variable_iterations,
            answers.len() == oracle_iterations + 1,
            *system == after_passes(s0, answers.len()),
            answers.last() == rel@,
            assignments.last() == assignment,
            discovered_seq.last() == discovered@,
            todo@.subset_of(deps),
            deps == deps_of(rel@, t),
            forall|s: int| 0 <= s < steps.len() && seg[s] == answers.len() - 1 ==> !todo@.contains(#[trigger] steps[s].0),
            forall|i: usize| #[trigger] deps.contains(i) && !todo@.contains(i) ==> stable(*system, assignment, i),
            forall|k: K, a: Map<K, V>| #[trigger] system.evaluation(k, a) == s0.evaluation(k, a),
            below_fixed_points(s0, assignment@),
            above_fixed_points(s0, assignment@),
            least_fixed_point_reachable(*oracle, s0, t) ==> post_fixed(s0, assignment@) && settles(
                s0,
                assignment@,
                rel@,
                t,
                s0.universe_set(),
            ),
        decreases u32::MAX - variable_iterations,
    {
        if variable_iterations == u32::MAX {
            return None;
        }
        let x = match todo.extract() {
            Some(x) => x,
            None => {
                return None;
            },
        };
        proof {
            K::lemma_key_index(x, 0);
        }
        let ghost xi = x.key_index();
        let ghost cur = answers.len() - 1;
        let ghost st = *system;
        let ghost old_todo = todo@;
        variable_iterations = variable_iterations + 1;
        let evaluated = system.evaluate(x, &assignment);
        let args = system.arguments(x);
        let current = assignment.get_assignment(&x);
        let adv = !current.same_value(&evaluated) || !args.is_subset(&discovered);
        proof {
            assert(deps.contains(xi));
            assert(adv == changes(st, assignment, discovered@, xi));
        }
        if adv {
            oracle_iterations = oracle_iterations + 1;
            let ghost before = assignment;
            assignment.update_assignment(x, evaluated);
            proof {
                assert forall|k: K| k != x implies #[trigger] assigned_value(assignment@, k) == assigned_value(before@, k) by {}
                lemma_raise_below_fixed_points(s0, before@, assignment@, x);
                lemma_lower_above_fixed_points(s0, before@, assignment@, x);
                if least_fixed_point_reachable(*oracle, s0, t) {
                    lemma_raise_post_fixed(s0, before@, assignment@, x);
                }
            }
            let ghost old_disc = discovered@;
            let ghost old_rel = rel@;
            let axa = args.cartesian(&args);
            let axd = args.cartesian(&discovered);
            let dxa = discovered.cartesian(&args);
            rel = rel.union(axa).union(axd).union(dxa);
            let ghost now_asked = rel@;
            proof {
                assert(now_asked =~= grown(old_rel, args@, old_disc));
                if least_fixed_point_reachable(*oracle, s0, t) {
                    lemma_settles_grows(s0, before@, assignment@, old_rel, now_asked, t, s0.universe_set());
                }
            }
            let ghost lock_n = answers.len();
            discovered = system.universe();
            todo = local_dependencies(target, &assignment, oracle, system, &mut rel);
            proof {
                if least_fixed_point_reachable(*oracle, s0, t) {
                    assert(settles(s0, assignment@, oracle.flow(assignment, now_asked, after_passes(s0, lock_n as nat).with_lock(true)), t, s0.universe_set()));
                }
                lemma_run_step(
                    *oracle,
                    s0,
                    t,
                    assignments,
                    discovered_seq,
                    asked,
                    answers,
                    steps,
                    seg,
                    xi,
                    true,
                    assignment,
                    discovered@,
                    now_asked,
                    rel@,
                );
                steps = steps.push((xi, true));
                seg = seg.push(cur);
                assignments = assignments.push(assignment);
                discovered_seq = discovered_seq.push(discovered@);
                asked = asked.push(now_asked);
                answers = answers.push(rel@);
                deps = todo@;
            }
        } else {
            proof {
                lemma_run_step(
                    *oracle,
                    s0,
                    t,
                    assignments,
                    discovered_seq,
                    asked,
                    answers,
                    steps,
                    seg,
                    xi,
                    false,
                    assignment,
                    discovered@,
                    rel@,
                    rel@,
                );
                steps = steps.push((xi, false));
                seg = seg.push(cur);
                assert forall|i: usize| #[trigger] deps.contains(i) && !todo@.contains(i) implies stable(*system, assignment, i) by {
                    if i != xi {
                        assert(!old_todo.contains(i));
                    }
                }
            }
        }
    }
    let value = assignment.get_assignment(&target);
    proof {
        assert forall|i: usize| #[trigger] deps_of(rel@, t).contains(i) implies stable(*system, assignment, i) by {
            assert(deps.contains(i));
            assert(!todo@.contains(i));
        }
        assert(value == assigned_value(assignment@, target));
        let d = deps_of(rel@, t);
        if least_fixed_point_reachable(*oracle, s0, t) {
            assert forall|lfp: Map<K, V>| #[trigger] least_fixed_point(s0, lfp) implies value == assigned_value(lfp, target) by {
                assert forall|i: usize| #[trigger] d.contains(i) implies s0.evaluation(K::key_of(i), assignment@) == assigned_value(
                    assignment@,
                    K::key_of(i),
                ) by {
                    assert(stable(*system, assignment, i));
                }
                lemma_least_value_settled(s0, assignment@, rel@, s0.universe_set(), target, lfp);
            }
        }
    }
    Some((value, (variable_iterations, oracle_iterations)))
}

/// In a run, an evaluated variable calls for another oracle pass exactly when its value changes or
/// it has an argument outside the variables discovered so far; and an argument outside them enters
/// the relation the oracle is next asked on, with itself and with every discovered variable.
pub proof fn lemma_run_grows_by_new_arguments<
    K: Key,
    V: PartialOrd + Bottom,
    S: System<K, V> + Arguments<K, BitSet<K>> + Universe<BitSet<K>>,
    O: LocalOracle<K, V, BitsetRelation<K, K>, S>,
>(
    oracle: O,
    system: S,
    t: usize,
    assignments: Seq<HashMap<K, V>>,
    discovered: Seq<Set<usize>>,
    asked: Seq<Set<(usize, usize)>>,
    answers: Seq<Set<(usize, usize)>>,
    steps: Seq<(usize, bool)>,
    seg: Seq<int>,
    s: int,
    a: usize,
)
    requires
        kleene_run(oracle, system, t, assignments, discovered, asked, answers, steps, seg),
        0 <= s < steps.len(),
    ensures
        steps[s].1 <==> ({
            let st = after_passes(system, (seg[s] + 1) as nat);
            let k = K::key_of(steps[s].0);
            st.evaluation(k, assignments[seg[s]]@) != assigned_value(assignments[seg[s]]@, k) || exists|b: usize|
                #[trigger] st.argument_set(k).contains(b) && !discovered[seg[s]].contains(b)
        }),
        after_passes(system, (seg[s] + 1) as nat).argument_set(K::key_of(steps[s].0)).contains(a) && !discovered[seg[s]].contains(a)
            ==> {
            &&& steps[s].1
            &&& seg[s] + 1 < answers.len()
            &&& asked[seg[s] + 1].contains((a, a))
            &&& forall|b: usize| #[trigger] discovered[seg[s]].contains(b) ==> asked[seg[s] + 1].contains((a, b)) && asked[seg[s]
                + 1].contains((b, a))
        },
{
    let st = after_passes(system, (seg[s] + 1) as nat);
    let k = K::key_of(steps[s].0);
    assert(steps[s].1 == changes(st, assignments[seg[s]], discovered[seg[s]], steps[s].0));
    if !st.argument_set(k).subset_of(discovered[seg[s]]) {
        let b = choose|b: usize| st.argument_set(k).contains(b) && !discovered[seg[s]].contains(b);
        assert(st.argument_set(k).contains(b) && !discovered[seg[s]].contains(b));
    }
    if st.argument_set(k).contains(a) && !discovered[seg[s]].contains(a) {
        assert(!st.argument_set(k).subset_of(discovered[seg[s]]));
        assert(next_entry(oracle, system, seg[s], steps[s].0, assignments, discovered, asked));
    }
}

} // verus!
