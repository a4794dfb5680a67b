//! The strategic height oracle: each pair `(x, y)` of the arguments closure weighted by the
//! shortest walk from `y` to `x`, where each step from a visited variable to one of its arguments
//! weighs one.
use std::collections::HashMap;
use vstd::prelude::*;

use crate::arena::{indices_of, Key};
use crate::oracle::arguments::{argument_closure, argument_edge, known, known_variables};
use crate::ordered::oracle::arguments::{lists_weighted_closure, pair_index, weighted_closure_of};
use crate::ordered::oracle::StrategicLocalOracle;
use crate::ordered::strategy::{item_pairs, BinaryHeapStrategy, StrategyItem, StrategyWeight};
use crate::set::bitset::BitSet;
use crate::{Arguments, CopiedIter, SetOps, System, Union, Visited};

verus! {

/// `m`, or the largest weight a strategy holds where `m` is above it.
pub open spec fn capped(m: nat) -> nat {
    if m <= u64::MAX {
        m
    } else {
        u64::MAX as nat
    }
}

/// The sum of two weights, none where either is none.
pub open spec fn combined(a: Option<nat>, b: Option<nat>) -> Option<nat> {
    match (a, b) {
        (Some(x), Some(y)) => Some(x + y),
        _ => None,
    }
}

/// The weight of a walk under the step weights `w`: the sum of its steps, none where a step has
/// none.
pub open spec fn walk_weight(w: spec_fn(usize, usize) -> Option<nat>, p: Seq<usize>) -> Option<nat>
    decreases p.len(),
{
    if p.len() <= 1 {
        Some(0)
    } else {
        combined(w(p[0], p[1]), walk_weight(w, p.drop_first()))
    }
}

/// `p` goes from `from` to `to` and passes in between only through `via`.
pub open spec fn is_walk_via(p: Seq<usize>, from: usize, to: usize, via: Set<usize>) -> bool {
    &&& p.len() >= 1
    &&& p[0] == from
    &&& p.last() == to
    &&& forall|t: int| 0 < t < p.len() - 1 ==> via.contains(#[trigger] p[t])
}

/// `d` is the weight of the lightest walk from `from` to `to` through `via`, capped at `u64::MAX`;
/// none where no walk has a weight.
pub open spec fn is_lightest(
    w: spec_fn(usize, usize) -> Option<nat>,
    from: usize,
    to: usize,
    via: Set<usize>,
    d: Option<u64>,
) -> bool {
    &&& d is Some ==> exists|p: Seq<usize>|
        #[trigger] is_walk_via(p, from, to, via) && walk_weight(w, p) is Some && capped(walk_weight(w, p).unwrap())
            == d.unwrap()
    &&& forall|p: Seq<usize>|
        #[trigger] is_walk_via(p, from, to, via) && walk_weight(w, p) is Some ==> d is Some && d.unwrap()
            <= walk_weight(w, p).unwrap()
}

/// The weight of a walk joined to one that starts where it ends is the sum of their weights.
proof fn lemma_walk_concat(w: spec_fn(usize, usize) -> Option<nat>, p: Seq<usize>, q: Seq<usize>)
    requires
        p.len() >= 1,
        q.len() >= 1,
        p.last() == q[0],
    ensures
        walk_weight(w, p + q.drop_first()) == combined(walk_weight(w, p), walk_weight(w, q)),
    decreases p.len(),
{
    if p.len() == 1 {
        assert(p + q.drop_first() =~= q);
    } else {
        let r = p + q.drop_first();
        lemma_walk_concat(w, p.drop_first(), q);
        assert(r.drop_first() =~= p.drop_first() + q.drop_first());
        assert(r[0] == p[0] && r[1] == p[1]);
    }
}

/// The weight of a walk is that of its part up to `t` plus that of its part from `t`.
proof fn lemma_walk_split(w: spec_fn(usize, usize) -> Option<nat>, p: Seq<usize>, t: int)
    requires
        0 <= t < p.len(),
    ensures
        walk_weight(w, p) == combined(walk_weight(w, p.subrange(0, t + 1)), walk_weight(w, p.subrange(t, p.len() as int))),
{
    lemma_walk_concat(w, p.subrange(0, t + 1), p.subrange(t, p.len() as int));
    assert(p.subrange(0, t + 1) + p.subrange(t, p.len() as int).drop_first() =~= p);
}

/// A walk to `v` that passes through `v` or `via` has a part, no heavier, that passes through
/// `via` alone.
proof fn lemma_walk_to(w: spec_fn(usize, usize) -> Option<nat>, p: Seq<usize>, from: usize, v: usize, via: Set<usize>) -> (q:
    Seq<usize>)
    requires
        is_walk_via(p, from, v, via.insert(v)),
        walk_weight(w, p) is Some,
    ensures
        is_walk_via(q, from, v, via),
        walk_weight(w, q) is Some,
        walk_weight(w, q).unwrap() <= walk_weight(w, p).unwrap(),
    decreases p.len(),
{
    if forall|t: int| 0 < t < p.len() - 1 ==> via.contains(#[trigger] p[t]) {
        p
    } else {
        let t = choose|t: int| 0 < t < p.len() - 1 && !via.contains(#[trigger] p[t]);
        assert(via.insert(v).contains(p[t]));
        let p1 = p.subrange(0, t + 1);
        lemma_walk_split(w, p, t);
        assert forall|s: int| 0 < s < p1.len() - 1 implies via.insert(v).contains(#[trigger] p1[s]) by {
            assert(p1[s] == p[s]);
        }
        lemma_walk_to(w, p1, from, v, via)
    }
}

/// A walk from `v` that passes through `v` or `via` has a part, no heavier, that passes through
/// `via` alone.
proof fn lemma_walk_from(w: spec_fn(usize, usize) -> Option<nat>, p: Seq<usize>, v: usize, to: usize, via: Set<usize>) -> (q:
    Seq<usize>)
    requires
        is_walk_via(p, v, to, via.insert(v)),
        walk_weight(w, p) is Some,
    ensures
        is_walk_via(q, v, to, via),
        walk_weight(w, q) is Some,
        walk_weight(w, q).unwrap() <= walk_weight(w, p).unwrap(),
    decreases p.len(),
{
    if forall|t: int| 0 < t < p.len() - 1 ==> via.contains(#[trigger] p[t]) {
        p
    } else {
        let t = choose|t: int| 0 < t < p.len() - 1 && !via.contains(#[trigger] p[t]);
        assert(via.insert(v).contains(p[t]));
        let p2 = p.subrange(t, p.len() as int);
        lemma_walk_split(w, p, t);
        assert forall|s: int| 0 < s < p2.len() - 1 implies via.insert(v).contains(#[trigger] p2[s]) by {
            assert(p2[s] == p[t + s]);
        }
        lemma_walk_from(w, p2, v, to, via)
    }
}

/// The lighter of `dij` and the way from `i` to `j` through `k`.
pub open spec fn relaxed(dij: Option<u64>, dik: Option<u64>, dkj: Option<u64>) -> Option<u64> {
    match (dik, dkj) {
        (Some(a), Some(b)) => {
            let c = capped((a + b) as nat) as u64;
            match dij {
                Some(x) => if x > c {
                    Some(c)
                } else {
                    Some(x)
                },
                None => Some(c),
            }
        },
        _ => dij,
    }
}

/// Allowing the walks from `i` to `j` to pass through `v` as well leaves as the lightest weight
/// that of the walks through `via` or that through `v`.
proof fn lemma_relax(
    w: spec_fn(usize, usize) -> Option<nat>,
    i: usize,
    j: usize,
    v: usize,
    via: Set<usize>,
    dij: Option<u64>,
    dik: Option<u64>,
    dkj: Option<u64>,
)
    requires
        is_lightest(w, i, j, via, dij),
        is_lightest(w, i, v, via, dik),
        is_lightest(w, v, j, via, dkj),
    ensures
        is_lightest(w, i, j, via.insert(v), relaxed(dij, dik, dkj)),
{
    let r = relaxed(dij, dik, dkj);
    let wide = via.insert(v);
    if r is Some {
        if r == dij {
            let p = choose|p: Seq<usize>|
                #[trigger] is_walk_via(p, i, j, via) && walk_weight(w, p) is Some && capped(walk_weight(w, p).unwrap())
                    == dij.unwrap();
            assert(is_walk_via(p, i, j, wide));
        } else {
            let p1 = choose|p: Seq<usize>|
                #[trigger] is_walk_via(p, i, v, via) && walk_weight(w, p) is Some && capped(walk_weight(w, p).unwrap())
                    == dik.unwrap();
            let p2 = choose|p: Seq<usize>|
                #[trigger] is_walk_via(p, v, j, via) && walk_weight(w, p) is Some && capped(walk_weight(w, p).unwrap())
                    == dkj.unwrap();
            let q = p1 + p2.drop_first();
            lemma_walk_concat(w, p1, p2);
            assert forall|t: int| 0 < t < q.len() - 1 implies wide.contains(#[trigger] q[t]) by {
                if t < p1.len() - 1 {
                    assert(q[t] == p1[t]);
                } else if t == p1.len() - 1 {
                    assert(q[t] == p1.last());
                } else {
                    assert(q[t] == p2[t - p1.len() + 1]);
                }
            }
            assert(q[0] == p1[0]);
            assert(q.last() == p2.last());
            assert(is_walk_via(q, i, j, wide));
        }
    }
    assert forall|p: Seq<usize>| #[trigger] is_walk_via(p, i, j, wide) && walk_weight(w, p) is Some implies r is Some
        && r.unwrap() <= walk_weight(w, p).unwrap() by {
        if forall|t: int| 0 < t < p.len() - 1 ==> via.contains(#[trigger] p[t]) {
            assert(is_walk_via(p, i, j, via));
        } else {
            let t = choose|t: int| 0 < t < p.len() - 1 && !via.contains(#[trigger] p[t]);
            assert(wide.contains(p[t]));
            let p1 = p.subrange(0, t + 1);
            let p2 = p.subrange(t, p.len() as int);
            lemma_walk_split(w, p, t);
            assert forall|s: int| 0 < s < p1.len() - 1 implies wide.contains(#[trigger] p1[s]) by {
                assert(p1[s] == p[s]);
            }
            assert forall|s: int| 0 < s < p2.len() - 1 implies wide.contains(#[trigger] p2[s]) by {
                assert(p2[s] == p[t + s]);
            }
            let q1 = lemma_walk_to(w, p1, i, v, via);
            let q2 = lemma_walk_from(w, p2, v, j, via);
            assert(is_walk_via(q1, i, v, via));
            assert(is_walk_via(q2, v, j, via));
        }
    }
}

/// The rows of a matrix, each by its view.
pub open spec fn grid(d: Vec<Vec<Option<u64>>>) -> Seq<Seq<Option<u64>>> {
    d@.map_values(|r: Vec<Option<u64>>| r@)
}

/// `d` is a square matrix over the variables `ns` whose entry for `a` and `b` is the lightest
/// weight from `ns[a]` to `ns[b]` through the first `k` of them.
pub open spec fn lightest_through(w: spec_fn(usize, usize) -> Option<nat>, ns: Seq<usize>, d: Seq<Seq<Option<u64>>>, k: int) -> bool {
    &&& d.len() == ns.len()
    &&& forall|a: int| 0 <= a < ns.len() ==> #[trigger] d[a].len() == ns.len()
    &&& forall|a: int, b: int|
        0 <= a < ns.len() && 0 <= b < ns.len() ==> is_lightest(w, ns[a], ns[b], ns.subrange(0, k).to_set(), #[trigger] d[a][b])
}

/// A weight held in 64 bits.
pub open spec fn as_u64(o: Option<nat>) -> Option<u64> {
    match o {
        Some(x) => Some(x as u64),
        None => None,
    }
}

/// `d` holds the weights of single steps between the variables `ns`: nothing from one to itself,
/// `w` from one to another.
pub open spec fn single_steps(w: spec_fn(usize, usize) -> Option<nat>, ns: Seq<usize>, d: Seq<Seq<Option<u64>>>) -> bool {
    &&& d.len() == ns.len()
    &&& forall|a: int| 0 <= a < ns.len() ==> #[trigger] d[a].len() == ns.len()
    &&& forall|a: int, b: int|
        0 <= a < ns.len() && 0 <= b < ns.len() ==> #[trigger] d[a][b] == if a == b {
            Some(0u64)
        } else {
            as_u64(w(ns[a], ns[b]))
        }
}

/// The weights of single steps are the lightest weights through no variable.
proof fn lemma_single_steps(w: spec_fn(usize, usize) -> Option<nat>, ns: Seq<usize>, d: Seq<Seq<Option<u64>>>)
    requires
        single_steps(w, ns, d),
        ns.no_duplicates(),
        forall|u: usize, v: usize| #[trigger] w(u, v) is Some ==> w(u, v).unwrap() <= u64::MAX,
    ensures
        lightest_through(w, ns, d, 0),
{
    let none = ns.subrange(0, 0).to_set();
    assert(none =~= Set::<usize>::empty());
    assert forall|a: int, b: int| 0 <= a < ns.len() && 0 <= b < ns.len() implies is_lightest(
        w,
        ns[a],
        ns[b],
        none,
        #[trigger] d[a][b],
    ) by {
        if a == b {
            let p = seq![ns[a]];
            assert(is_walk_via(p, ns[a], ns[b], none));
        } else if d[a][b] is Some {
            let p = seq![ns[a], ns[b]];
            assert(p.drop_first() =~= seq![ns[b]]);
            assert(walk_weight(w, p.drop_first()) == Some(0nat));
            assert(is_walk_via(p, ns[a], ns[b], none));
        }
        assert forall|p: Seq<usize>| #[trigger] is_walk_via(p, ns[a], ns[b], none) && walk_weight(w, p) is Some implies d[a][b]
            is Some && d[a][b].unwrap() <= walk_weight(w, p).unwrap() by {
            if p.len() >= 3 {
                assert(none.contains(p[1]));
            }
            if p.len() == 1 {
                assert(ns[a] == ns[b]);
            } else if a != b {
                assert(p.drop_first().len() == 1);
                assert(walk_weight(w, p.drop_first()) == Some(0nat));
            }
        }
    }
}

/// One round of relaxation through the `k`-th variable.
proof fn lemma_round(
    w: spec_fn(usize, usize) -> Option<nat>,
    ns: Seq<usize>,
    d: Seq<Seq<Option<u64>>>,
    e: Seq<Seq<Option<u64>>>,
    k: int,
)
    requires
        0 <= k < ns.len(),
        lightest_through(w, ns, d, k),
        e.len() == ns.len(),
        forall|a: int| 0 <= a < ns.len() ==> #[trigger] e[a].len() == ns.len(),
        forall|a: int, b: int| 0 <= a < ns.len() && 0 <= b < ns.len() ==> #[trigger] e[a][b] == relaxed(d[a][b], d[a][k], d[k][b]),
    ensures
        lightest_through(w, ns, e, k + 1),
{
    let via = ns.subrange(0, k).to_set();
    let wide = ns.subrange(0, k + 1).to_set();
    assert(wide =~= via.insert(ns[k])) by {
        assert forall|x: usize| wide.contains(x) implies via.insert(ns[k]).contains(x) by {
            let t = choose|t: int| 0 <= t < k + 1 && #[trigger] ns.subrange(0, k + 1)[t] == x;
            if t < k {
                assert(ns.subrange(0, k)[t] == x);
            }
        }
        assert forall|x: usize| via.insert(ns[k]).contains(x) implies wide.contains(x) by {
            if x == ns[k] {
                assert(ns.subrange(0, k + 1)[k] == x);
            } else {
                let t = choose|t: int| 0 <= t < k && #[trigger] ns.subrange(0, k)[t] == x;
                assert(ns.subrange(0, k + 1)[t] == x);
            }
        }
    }
    assert forall|a: int, b: int| 0 <= a < ns.len() && 0 <= b < ns.len() implies is_lightest(w, ns[a], ns[b], wide, #[trigger] e[a][b]) by {
        assert(is_lightest(w, ns[a], ns[b], via, d[a][b]));
        assert(is_lightest(w, ns[a], ns[k], via, d[a][k]));
        assert(is_lightest(w, ns[k], ns[b], via, d[k][b]));
        lemma_relax(w, ns[a], ns[b], ns[k], via, d[a][b], d[a][k], d[k][b]);
    }
}

/// The lightest walks between the variables `ns`, found by relaxing through each of them in turn.
fn lightest_walks(
    Ghost(w): Ghost<spec_fn(usize, usize) -> Option<nat>>,
    Ghost(ns): Ghost<Seq<usize>>,
    steps: Vec<Vec<Option<u64>>>,
) -> (d: Vec<Vec<Option<u64>>>)
    requires
        lightest_through(w, ns, grid(steps), 0),
    ensures
        lightest_through(w, ns, grid(d), ns.len() as int),
{
    let n = steps.len();
    let mut d = steps;
    let mut k: usize = 0;
    while k < n
        invariant
            0 <= k <= n,
            n == ns.len(),
            lightest_through(w, ns, grid(d), k as int),
        decreases n - k,
    {
        let ghost old = grid(d);
        let mut next: Vec<Vec<Option<u64>>> = Vec::new();
        let mut i: usize = 0;
        while i < n
            invariant
                0 <= i <= n,
                0 <= k < n,
                n == ns.len(),
                old == grid(d),
                lightest_through(w, ns, old, k as int),
                next@.len() == i,
                forall|a: int| 0 <= a < i ==> #[trigger] next@[a]@.len() == n,
                forall|a: int, b: int|
                    0 <= a < i && 0 <= b < n ==> #[trigger] next@[a]@[b] == relaxed(old[a][b], old[a][k as int], old[k as int][b]),
            decreases n - i,
        {
            assert(old[i as int].len() == n);
            assert(old[k as int].len() == n);
            let dik = d[i][k];
            let mut row: Vec<Option<u64>> = Vec::new();
            let mut j: usize = 0;
            while j < n
                invariant
                    0 <= j <= n,
                    0 <= i < n,
                    0 <= k < n,
                    n == ns.len(),
                    old == grid(d),
                    old.len() == n,
                    old[i as int].len() == n,
                    old[k as int].len() == n,
                    dik == old[i as int][k as int],
                    row@.len() == j,
                    forall|b: int| 0 <= b < j ==> #[trigger] row@[b] == relaxed(old[i as int][b], dik, old[k as int][b]),
                decreases n - j,
            {
                let dij = d[i][j];
                let dkj = d[k][j];
                let e = match (dik, dkj) {
                    (Some(a), Some(b)) => {
                        let c = a.saturating_add(b);
                        match dij {
                            Some(x) => if x > c {
                                Some(c)
                            } else {
                                Some(x)
                            },
                            None => Some(c),
                        }
                    },
                    _ => dij,
                };
                row.push(e);
                j = j + 1;
            }
            next.push(row);
            i = i + 1;
        }
        proof {
            assert forall|a: int| 0 <= a < ns.len() implies #[trigger] grid(next)[a].len() == ns.len() by {
                assert(next@[a]@.len() == n);
            }
            assert forall|a: int, b: int| 0 <= a < ns.len() && 0 <= b < ns.len() implies #[trigger] grid(next)[a][b] == relaxed(
                old[a][b],
                old[a][k as int],
                old[k as int][b],
            ) by {
                assert(next@[a]@[b] == relaxed(old[a][b], old[a][k as int], old[k as int][b]));
            }
            lemma_round(w, ns, old, grid(next), k as int);
        }
        d = next;
        k = k + 1;
    }
    d
}

/// The weights of steps: one from a visited variable to each of its arguments; none elsewhere.
pub open spec fn step_weights<K: Key, V: PartialOrd, S: System<K, V> + Arguments<K, BitSet<K>>>(
    system: S,
    visited: Set<usize>,
) -> spec_fn(usize, usize) -> Option<nat> {
    |u: usize, v: usize|
        if argument_edge(system, visited, u, v) {
            Some(1nat)
        } else {
            None
        }
}

/// The weights of single steps between the variables `ns`.
fn single_step_grid<K: Key, V: PartialOrd, S: System<K, V> + Arguments<K, BitSet<K>>>(
    system: &S,
    visited: &BitSet<K>,
    ns: &Vec<K>,
) -> (d: Vec<Vec<Option<u64>>>)
    ensures
        single_steps(step_weights(*system, visited@), indices_of(ns@), grid(d)),
{
    let ghost w = step_weights(*system, visited@);
    let ghost ni = indices_of(ns@);
    let n = ns.len();
    let mut d: Vec<Vec<Option<u64>>> = Vec::new();
    let mut a: usize = 0;
    while a < n
        invariant
            0 <= a <= n,
            n == ns@.len(),
            ni == indices_of(ns@),
            w == step_weights(*system, visited@),
            d@.len() == a,
            forall|i: int| 0 <= i < a ==> #[trigger] d@[i]@.len() == n,
            forall|i: int, j: int| 0 <= i < a && 0 <= j < n ==> #[trigger] d@[i]@[j] == if i == j {
                Some(0u64)
            } else {
                as_u64(w(ni[i], ni[j]))
            },
        decreases n - a,
    {
        let u = ns[a];
        let args = system.arguments(u);
        let seen = visited.contains(&u);
        proof {
            K::lemma_key_index(u, 0);
            assert(ni[a as int] == u.key_index());
        }
        let mut row: Vec<Option<u64>> = Vec::new();
        let mut b: usize = 0;
        while b < n
            invariant
                0 <= b <= n,
                0 <= a < n,
                n == ns@.len(),
                ni == indices_of(ns@),
                u == ns@[a as int],
                ni[a as int] == u.key_index(),
                K::key_of(u.key_index()) == u,
                args@ == system.argument_set(u),
                seen == visited@.contains(u.key_index()),
                w == step_weights(*system, visited@),
                    row@.len() == b,
                forall|j: int| 0 <= j < b ==> #[trigger] row@[j] == if a == j {
                    Some(0u64)
                } else {
                    as_u64(w(ni[a as int], ni[j]))
                },
            decreases n - b,
        {
            let v = ns[b];
            proof {
                assert(ni[b as int] == v.key_index());
            }
            let e = if a == b {
                Some(0u64)
            } else if seen && args.contains(&v) {
                Some(1u64)
            } else {
                None
            };
            proof {
                if a != b {
                    assert(argument_edge(*system, visited@, u.key_index(), v.key_index()) == (seen && args@.contains(v.key_index())));
                    assert(e == as_u64(w(ni[a as int], ni[b as int])));
                }
            }
            row.push(e);
            b = b + 1;
        }
        d.push(row);
        a = a + 1;
    }
    proof {
        assert forall|i: int| 0 <= i < ni.len() implies #[trigger] grid(d)[i].len() == ni.len() by {
            assert(d@[i]@.len() == n);
        }
        assert forall|i: int, j: int| 0 <= i < ni.len() && 0 <= j < ni.len() implies #[trigger] grid(d)[i][j] == if i == j {
            Some(0u64)
        } else {
            as_u64(w(ni[i], ni[j]))
        } by {
            assert(d@[i]@[j] == grid(d)[i][j]);
        }
    }
    d
}

/// Every step of a walk with a weight has one.
proof fn lemma_weighted_step(w: spec_fn(usize, usize) -> Option<nat>, p: Seq<usize>, t: int)
    requires
        walk_weight(w, p) is Some,
        0 <= t < p.len() - 1,
    ensures
        w(p[t], p[t + 1]) is Some,
    decreases p.len(),
{
    if t > 0 {
        lemma_weighted_step(w, p.drop_first(), t - 1);
    }
}

/// A walk with a weight under the step weights of a system passes only through known variables,
/// so the lightest walk through them is the lightest of all.
proof fn lemma_lightest_everywhere<K: Key, V: PartialOrd, S: System<K, V> + Arguments<K, BitSet<K>>>(
    system: S,
    visited: Set<usize>,
    from: usize,
    to: usize,
    via: Set<usize>,
    d: Option<u64>,
)
    requires
        is_lightest(step_weights(system, visited), from, to, via, d),
        known(system, visited).subset_of(via),
    ensures
        is_lightest(step_weights(system, visited), from, to, Set::full(), d),
{
    let w = step_weights(system, visited);
    if d is Some {
        let p = choose|p: Seq<usize>|
            #[trigger] is_walk_via(p, from, to, via) && walk_weight(w, p) is Some && capped(walk_weight(w, p).unwrap()) == d.unwrap();
        assert(is_walk_via(p, from, to, Set::full()));
    }
    assert forall|p: Seq<usize>| #[trigger] is_walk_via(p, from, to, Set::full()) && walk_weight(w, p) is Some implies d is Some
        && d.unwrap() <= walk_weight(w, p).unwrap() by {
        assert forall|t: int| 0 < t < p.len() - 1 implies via.contains(#[trigger] p[t]) by {
            lemma_weighted_step(w, p, t - 1);
            assert(argument_edge(system, visited, p[t - 1], p[t]));
            assert(known(system, visited).contains(p[t]));
        }
        assert(is_walk_via(p, from, to, via));
    }
}

/// Both variables of a pair of the arguments closure are known.
proof fn lemma_closure_known<K: Key, V: PartialOrd, S: System<K, V> + Arguments<K, BitSet<K>>>(
    system: S,
    visited: Set<usize>,
    x: usize,
    y: usize,
)
    requires
        argument_closure(system, visited).contains((x, y)),
    ensures
        known(system, visited).contains(x),
        known(system, visited).contains(y),
{
    let p = choose|p: Seq<usize>| #[trigger] crate::oracle::arguments::is_argument_path(system, visited, p) && p[0] == y && p.last() == x;
    if p.len() > 1 {
        let t = p.len() - 2;
        assert(argument_edge(system, visited, p[t], p[t + 1]));
    }
}

/// The number held by a weight; none for `Infinity`.
pub open spec fn weight_value(weight: StrategyWeight) -> Option<u64> {
    match weight {
        StrategyWeight::Num(n) => Some(n),
        StrategyWeight::Infinity => None,
    }
}

/// `weight` is that of the lightest walk from `from` to `to`, capped at `u64::MAX`, where a step
/// from a visited variable to one of its arguments weighs one: the fewest such steps;
/// `Infinity` where there is no walk.
pub open spec fn is_height<K: Key, V: PartialOrd, S: System<K, V> + Arguments<K, BitSet<K>>>(
    system: S,
    visited: Set<usize>,
    from: usize,
    to: usize,
    weight: StrategyWeight,
) -> bool {
    is_lightest(step_weights(system, visited), from, to, Set::full(), weight_value(weight))
}

/// `items` holds every pair `(x, y)` of the arguments closure once, each weighted by the lightest
/// walk from `y` to `x`.
pub open spec fn lists_heights<K: Key, V: PartialOrd, S: System<K, V> + Arguments<K, BitSet<K>>>(
    system: S,
    visited: Set<usize>,
    items: Seq<(StrategyWeight, (K, K))>,
) -> bool {
    &&& forall|i: int|
        0 <= i < items.len() ==> argument_closure(system, visited).contains(pair_index(#[trigger] items[i].1)) && is_height(
            system,
            visited,
            items[i].1.1.key_index(),
            items[i].1.0.key_index(),
            items[i].0,
        )
    &&& forall|p: (usize, usize)| #[trigger] argument_closure(system, visited).contains(p) ==> exists|i: int|
        0 <= i < items.len() && pair_index(#[trigger] items[i].1) == p
    &&& forall|i: int, j: int| 0 <= i < j < items.len() ==> pair_index(#[trigger] items[i].1) != pair_index(#[trigger] items[j].1)
}

/// The pairs of the arguments closure of `visited`, each weighted by the lightest walk from its
/// right variable to its left one.
#[verifier::rlimit(40)]
fn heights_of<K: Key, V: PartialOrd, S: System<K, V> + Arguments<K, BitSet<K>>>(
    system: &S,
    visited: &BitSet<K>,
) -> (r: BinaryHeapStrategy<(K, K)>)
    ensures
        lists_heights(*system, visited@, r@),
{
    let ghost w = step_weights(*system, visited@);
    let closure = weighted_closure_of(system, visited);
    let pairs = closure.iter();
    let n = known_variables(system, visited);
    let ns = n.copied_iter();
    let ghost ni = indices_of(ns@);
    let mut pos: HashMap<usize, usize> = HashMap::new();
    let mut j: usize = 0;
    while j < ns.len()
        invariant
            0 <= j <= ns@.len(),
            ni == indices_of(ns@),
            forall|k: usize| #[trigger] pos@.contains_key(k) ==> pos@[k] < ns@.len() && ni[pos@[k] as int] == k,
            forall|i: int| 0 <= i < j ==> pos@.contains_key(#[trigger] ni[i]),
        decreases ns@.len() - j,
    {
        proof {
            broadcast use vstd::std_specs::hash::group_hash_axioms;
            assert(ni[j as int] == ns@[j as int].key_index());
        }
        pos.insert(ns[j].index(), j);
        j = j + 1;
    }
    proof {
        broadcast use vstd::std_specs::hash::group_hash_axioms;
        assert forall|k: usize| #[trigger] n@.contains(k) implies pos@.contains_key(k) by {
            assert(ni.to_set().contains(k));
            let i = choose|i: int| 0 <= i < ni.len() && ni[i] == k;
        }
    }
    let steps = single_step_grid(system, visited, &ns);
    proof {
        assert forall|u: usize, v: usize| #[trigger] w(u, v) is Some implies w(u, v).unwrap() <= u64::MAX by {}
        lemma_single_steps(w, ni, grid(steps));
    }
    let d = lightest_walks(Ghost(w), Ghost(ni), steps);
    let ghost all = ni.subrange(0, ni.len() as int).to_set();
    proof {
        assert(ni.subrange(0, ni.len() as int) =~= ni);
        assert(known(*system, visited@).subset_of(all));
    }
    let mut out: BinaryHeapStrategy<(K, K)> = BinaryHeapStrategy::new();
    let mut t: usize = 0;
    while t < pairs.len()
        invariant
            0 <= t <= pairs@.len(),
            item_pairs(pairs@) == closure@,
            lists_weighted_closure(*system, visited@, closure@),
            ni == indices_of(ns@),
            n@ == known(*system, visited@),
            known(*system, visited@).subset_of(all),
            all == ni.subrange(0, ni.len() as int).to_set(),
            w == step_weights(*system, visited@),
            lightest_through(w, ni, grid(d), ni.len() as int),
            forall|k: usize| #[trigger] n@.contains(k) ==> pos@.contains_key(k),
            forall|k: usize| #[trigger] pos@.contains_key(k) ==> pos@[k] < ns@.len() && ni[pos@[k] as int] == k,
            out@.len() == t,
            forall|i: int| 0 <= i < t ==> (#[trigger] out@[i]).1 == closure@[i].1,
            forall|i: int|
                0 <= i < t ==> is_height(
                    *system,
                    visited@,
                    (#[trigger] out@[i]).1.1.key_index(),
                    out@[i].1.0.key_index(),
                    out@[i].0,
                ),
        decreases pairs@.len() - t,
    {
        let item = pairs[t];
        let x = item.1.0;
        let y = item.1.1;
        proof {
            broadcast use vstd::std_specs::hash::group_hash_axioms;
            assert(closure@[t as int] == (item.0, item.1));
            assert(argument_closure(*system, visited@).contains(pair_index(closure@[t as int].1)));
            lemma_closure_known(*system, visited@, x.key_index(), y.key_index());
        }
        let px = *pos.get(&x.index()).unwrap();
        let py = *pos.get(&y.index()).unwrap();
        proof {
            assert(grid(d)[py as int].len() == ni.len());
            assert(grid(d)[py as int] == d@[py as int]@);
        }
        let e = d[py][px];
        let weight = match e {
            Some(v) => StrategyWeight::Num(v),
            None => StrategyWeight::Infinity,
        };
        proof {
            assert(e == grid(d)[py as int][px as int]);
            assert(is_lightest(w, ni[py as int], ni[px as int], all, grid(d)[py as int][px as int]));
            lemma_lightest_everywhere(*system, visited@, y.key_index(), x.key_index(), all, e);
            assert(weight_value(weight) == e);
        }
        let ghost before = out@;
        out.push(StrategyItem(weight, (x, y)));
        proof {
            assert forall|i: int| 0 <= i < t implies #[trigger] out@[i] == before[i] by {}
        }
        t = t + 1;
    }
    proof {
        assert(out@.len() == closure@.len());
        assert forall|i: int| 0 <= i < out@.len() implies pair_index(#[trigger] out@[i].1) == pair_index(closure@[i].1) by {}
        assert forall|p: (usize, usize)| #[trigger] argument_closure(*system, visited@).contains(p) implies exists|i: int|
            0 <= i < out@.len() && pair_index(#[trigger] out@[i].1) == p by {
            let i = choose|i: int| 0 <= i < closure@.len() && pair_index(#[trigger] closure@[i].1) == p;
            assert(pair_index(out@[i].1) == p);
        }
        assert forall|i: int, j: int| 0 <= i < j < out@.len() implies pair_index(#[trigger] out@[i].1) != pair_index(
            #[trigger] out@[j].1,
        ) by {
            assert(pair_index(closure@[i].1) != pair_index(closure@[j].1));
        }
        assert forall|i: int| 0 <= i < out@.len() implies argument_closure(*system, visited@).contains(pair_index(#[trigger] out@[i].1)) by {
            assert(argument_closure(*system, visited@).contains(pair_index(closure@[i].1)));
        }
    }
    out
}

/// The strategic height oracle. It keeps the strategy it returned last and every variable visited
/// at its updates: each update with some variable visited replaces the strategy by the pairs of
/// the arguments closure of all the variables visited so far, once each, weighed anew.
pub struct StrategicHeightOracle<VarKey> {
    strategy_cache: BinaryHeapStrategy<(VarKey, VarKey)>,
    previous_visited: BitSet<VarKey>,
}

impl<K: Key> StrategicHeightOracle<K> {
    /// The name the oracle is shown by.
    pub fn name(&self) -> (r: String)
        ensures
            r@ == "height_c"@,
    {
        String::from_str("height_c")
    }

    /// The strategy of the last update.
    pub closed spec fn cache(self) -> Seq<(StrategyWeight, (K, K))> {
        self.strategy_cache@
    }

    /// The variables visited at the updates so far.
    pub closed spec fn previous(self) -> Set<usize> {
        self.previous_visited@
    }

    pub fn new() -> (r: Self)
        ensures
            r.cache() == Seq::<(StrategyWeight, (K, K))>::empty(),
            r.previous() == Set::<usize>::empty(),
    {
        StrategicHeightOracle { strategy_cache: BinaryHeapStrategy::new(), previous_visited: BitSet::new() }
    }

    /// The strategy for the variables visited so far, at earlier updates and in `visited`: the
    /// strategy kept where nothing is visited, else each pair of their arguments closure once,
    /// weighted afresh by the fewest steps, from a visited variable to one of its arguments, that
    /// lead from its right variable to its left one.
    fn updated<V: PartialOrd, S: System<K, V> + Arguments<K, BitSet<K>>>(&self, visited: &BitSet<K>, system: &S) -> (r: BinaryHeapStrategy<(K, K)>)
        ensures
            visited@.len() == 0 ==> r@ == self.cache(),
            visited@.len() != 0 ==> lists_heights(*system, self.previous().union(visited@), r@),
    {
        if visited.len() == 0 {
            return self.strategy_cache.duplicate();
        }
        let all = self.previous_visited.clone().union(visited);
        heights_of(system, &all)
    }

    /// The strategy for the variables visited so far (at earlier updates and in `visited`): each
    /// pair of their arguments closure once, weighted by the fewest steps, from a visited variable
    /// to one of its arguments, that lead from its right variable to its left one; it is kept for
    /// the next update. The weights do not depend on `relation`. With nothing visited, the strategy
    /// kept is returned as it is.
    pub fn get_updated_weights<V: PartialOrd, S: System<K, V> + Arguments<K, BitSet<K>>>(
        &mut self,
        visited: &BitSet<K>,
        system: &S,
        relation: &BinaryHeapStrategy<(K, K)>,
    ) -> (r: BinaryHeapStrategy<(K, K)>)
        ensures
            visited@.len() == 0 ==> r@ == old(self).cache() && final(self).cache() == old(self).cache() && final(self).previous()
                == old(self).previous(),
            visited@.len() != 0 ==> {
                &&& lists_heights(*system, old(self).previous().union(visited@), r@)
                &&& final(self).cache() == r@
                &&& final(self).previous() == old(self).previous().union(visited@)
            },
    {
        let r = self.updated(visited, system);
        if visited.len() != 0 {
            self.previous_visited = self.previous_visited.clone().union(visited);
            self.strategy_cache = r.duplicate();
        }
        r
    }
}

impl<K: Key> Default for StrategicHeightOracle<K> {
    fn default() -> (r: Self)
        ensures
            r.cache() == Seq::<(StrategyWeight, (K, K))>::empty(),
    {
        Self::new()
    }
}

impl<K: Key, V: PartialOrd, S: System<K, V> + Arguments<K, BitSet<K>> + Visited<BitSet<K>>> StrategicLocalOracle<
    K,
    V,
    BinaryHeapStrategy<(K, K)>,
    S,
> for StrategicHeightOracle<K> {
    open spec fn strategy_flow(
        &self,
        assignment: HashMap<K, V>,
        strategy: Seq<(StrategyWeight, (K, K))>,
        system: S,
        result: Seq<(StrategyWeight, (K, K))>,
    ) -> bool {
        let visited = system.visited_set();
        if visited.len() == 0 {
            result == self.cache()
        } else {
            lists_heights(system, self.previous().union(visited), result)
        }
    }

    fn get_strategy(&self, assignment: &HashMap<K, V>, strategy: &BinaryHeapStrategy<(K, K)>, system: &S) -> (r: BinaryHeapStrategy<(K, K)>) {
        let visited = system.visited();
        self.updated(&visited, system)
    }
}

} // verus!
