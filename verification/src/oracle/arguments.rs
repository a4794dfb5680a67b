//! The arguments oracle: a variable may depend on every variable that its arguments reach.
use std::collections::{HashMap, HashSet};
use vstd::prelude::*;

use crate::arena::{indices_of, Key};
use crate::extension::{lemma_rights_last_absent, lemma_rights_last_distinct};
use crate::oracle::{right_indices, LocalOracle};
use crate::set::bitset::relation::rights_last;
use crate::set::bitset::{BitSet, BitsetRelation};
use crate::{Arguments, CopiedIter, SetOps, System, Union, UnionWith, Visited};

verus! {

/// `u` is visited and `v` is one of its arguments.
pub open spec fn argument_edge<K: Key, V: PartialOrd, S: System<K, V> + Arguments<K, BitSet<K>>>(
    system: S,
    visited: Set<usize>,
    u: usize,
    v: usize,
) -> bool {
    visited.contains(u) && system.argument_set(K::key_of(u)).contains(v)
}

/// Each variable of `p` is an argument of the one before it.
pub open spec fn is_argument_path<K: Key, V: PartialOrd, S: System<K, V> + Arguments<K, BitSet<K>>>(
    system: S,
    visited: Set<usize>,
    p: Seq<usize>,
) -> bool {
    &&& p.len() >= 1
    &&& forall|i: int| 0 <= i < p.len() - 1 ==> #[trigger] argument_edge(system, visited, p[i], p[i + 1])
}

/// `to` is reached from `from` through arguments of visited variables.
pub open spec fn reaches<K: Key, V: PartialOrd, S: System<K, V> + Arguments<K, BitSet<K>>>(
    system: S,
    visited: Set<usize>,
    from: usize,
    to: usize,
) -> bool {
    exists|p: Seq<usize>| #[trigger] is_argument_path(system, visited, p) && p[0] == from && p.last() == to
}

/// The visited variables and their arguments.
pub open spec fn known<K: Key, V: PartialOrd, S: System<K, V> + Arguments<K, BitSet<K>>>(
    system: S,
    visited: Set<usize>,
) -> Set<usize> {
    Set::new(|x: usize| visited.contains(x) || exists|u: usize| #[trigger] argument_edge(system, visited, u, x))
}

/// The pairs `(x, y)` where `y` is known and `x` is reached from `y`.
pub open spec fn argument_closure<K: Key, V: PartialOrd, S: System<K, V> + Arguments<K, BitSet<K>>>(
    system: S,
    visited: Set<usize>,
) -> Set<(usize, usize)> {
    Set::new(|p: (usize, usize)| known(system, visited).contains(p.1) && reaches(system, visited, p.1, p.0))
}

/// A path extended by an edge from its end is a path.
proof fn lemma_path_push<K: Key, V: PartialOrd, S: System<K, V> + Arguments<K, BitSet<K>>>(
    system: S,
    visited: Set<usize>,
    p: Seq<usize>,
    x: usize,
)
    requires
        is_argument_path(system, visited, p),
        argument_edge(system, visited, p.last(), x),
    ensures
        is_argument_path(system, visited, p.push(x)),
        p.push(x)[0] == p[0],
        p.push(x).last() == x,
{
    let q = p.push(x);
    assert forall|i: int| 0 <= i < q.len() - 1 implies #[trigger] argument_edge(system, visited, q[i], q[i + 1]) by {
        if i < p.len() - 1 {
            assert(q[i] == p[i] && q[i + 1] == p[i + 1]);
            assert(argument_edge(system, visited, p[i], p[i + 1]));
        }
    }
}

/// A set that holds the start of a path and is closed under edges holds its end.
proof fn lemma_closed_holds_path<K: Key, V: PartialOrd, S: System<K, V> + Arguments<K, BitSet<K>>>(
    system: S,
    visited: Set<usize>,
    seen: Set<usize>,
    p: Seq<usize>,
)
    requires
        is_argument_path(system, visited, p),
        seen.contains(p[0]),
        forall|u: usize, v: usize| seen.contains(u) && #[trigger] argument_edge(system, visited, u, v) ==> seen.contains(v),
    ensures
        seen.contains(p.last()),
    decreases p.len(),
{
    if p.len() > 1 {
        let q = p.drop_last();
        assert forall|i: int| 0 <= i < q.len() - 1 implies #[trigger] argument_edge(system, visited, q[i], q[i + 1]) by {
            assert(argument_edge(system, visited, p[i], p[i + 1]));
        }
        lemma_closed_holds_path(system, visited, seen, q);
        let i = p.len() - 2;
        assert(argument_edge(system, visited, p[i], p[i + 1]));
        assert(q.last() == p[i]);
    }
}

/// Every known variable relates to itself: it is reached from itself by the path of one variable.
pub proof fn lemma_closure_reflexive<K: Key, V: PartialOrd, S: System<K, V> + Arguments<K, BitSet<K>>>(
    system: S,
    visited: Set<usize>,
    x: usize,
)
    requires
        known(system, visited).contains(x),
    ensures
        argument_closure(system, visited).contains((x, x)),
{
    let p = seq![x];
    assert(is_argument_path(system, visited, p));
}

/// The closure is transitive: where `c` is reached from `b` and `b` from `a`, `c` is reached from
/// `a`.
pub proof fn lemma_closure_transitive<K: Key, V: PartialOrd, S: System<K, V> + Arguments<K, BitSet<K>>>(
    system: S,
    visited: Set<usize>,
    a: usize,
    b: usize,
    c: usize,
)
    requires
        argument_closure(system, visited).contains((b, a)),
        argument_closure(system, visited).contains((c, b)),
    ensures
        argument_closure(system, visited).contains((c, a)),
{
    let p = choose|p: Seq<usize>| #[trigger] is_argument_path(system, visited, p) && p[0] == a && p.last() == b;
    let q = choose|q: Seq<usize>| #[trigger] is_argument_path(system, visited, q) && q[0] == b && q.last() == c;
    let pq = p + q.drop_first();
    assert forall|i: int| 0 <= i < pq.len() - 1 implies #[trigger] argument_edge(system, visited, pq[i], pq[i + 1]) by {
        if i < p.len() - 1 {
            assert(pq[i] == p[i] && pq[i + 1] == p[i + 1]);
            assert(argument_edge(system, visited, p[i], p[i + 1]));
        } else {
            let k = i - (p.len() - 1);
            assert(pq[i] == q[k] && pq[i + 1] == q[k + 1]);
            assert(argument_edge(system, visited, q[k], q[k + 1]));
        }
    }
    if q.len() == 1 {
        assert(pq =~= p);
    } else {
        assert(pq.last() == q.last());
    }
    assert(is_argument_path(system, visited, pq));
}

/// Visiting more variables keeps every pair of the closure: the closure of a subset of the
/// visited variables is part of the closure of the whole.
pub proof fn lemma_closure_monotone<K: Key, V: PartialOrd, S: System<K, V> + Arguments<K, BitSet<K>>>(
    system: S,
    fewer: Set<usize>,
    more: Set<usize>,
)
    requires
        fewer.subset_of(more),
    ensures
        argument_closure(system, fewer).subset_of(argument_closure(system, more)),
        argument_closure(system, fewer).union(argument_closure(system, more)) == argument_closure(system, more),
{
    assert forall|q: (usize, usize)| #[trigger] argument_closure(system, fewer).contains(q) implies argument_closure(
        system,
        more,
    ).contains(q) by {
        if !fewer.contains(q.1) {
            let u = choose|u: usize| #[trigger] argument_edge(system, fewer, u, q.1);
            assert(argument_edge(system, more, u, q.1));
        }
        let p = choose|p: Seq<usize>| #[trigger] is_argument_path(system, fewer, p) && p[0] == q.1 && p.last() == q.0;
        assert forall|i: int| 0 <= i < p.len() - 1 implies #[trigger] argument_edge(system, more, p[i], p[i + 1]) by {
            assert(argument_edge(system, fewer, p[i], p[i + 1]));
        }
        assert(is_argument_path(system, more, p));
    }
    assert(argument_closure(system, fewer).union(argument_closure(system, more)) =~= argument_closure(system, more));
}

/// The variables reached from `start` through arguments of visited variables.
pub(crate) fn reachable_from<K: Key, V: PartialOrd, S: System<K, V> + Arguments<K, BitSet<K>>>(
    system: &S,
    visited: &BitSet<K>,
    bound: &BitSet<K>,
    start: K,
) -> (r: BitSet<K>)
    requires
        bound@.contains(start.key_index()),
        forall|u: usize, v: usize| #[trigger] argument_edge(*system, visited@, u, v) ==> bound@.contains(v),
        forall|i: usize| #[trigger] bound@.contains(i) ==> i < usize::MAX,
    ensures
        forall|s: usize| #[trigger] r@.contains(s) <==> reaches(*system, visited@, start.key_index(), s),
        r@.subset_of(bound@),
{
    let ghost a = start.key_index();
    let bound_len = bound.len();
    let mut seen: BitSet<K> = BitSet::new();
    seen.insert(start);
    let mut work: Vec<K> = Vec::new();
    work.push(start);
    proof {
        let p = seq![a];
        assert(is_argument_path(*system, visited@, p));
        assert(indices_of(work@)[0] == a);
    }
    while work.len() > 0
        invariant
            bound@.finite(),
            bound_len == bound@.len(),
            seen@.subset_of(bound@),
            seen@.finite(),
            seen@.contains(a),
            a == start.key_index(),
            forall|u: usize, v: usize| #[trigger] argument_edge(*system, visited@, u, v) ==> bound@.contains(v),
            forall|i: usize| #[trigger] bound@.contains(i) ==> i < usize::MAX,
            forall|x: usize| #[trigger] seen@.contains(x) ==> reaches(*system, visited@, a, x),
            forall|i: int| 0 <= i < work@.len() ==> seen@.contains(#[trigger] work@[i].key_index()),
            forall|x: usize, v: usize| seen@.contains(x) && #[trigger] argument_edge(*system, visited@, x, v) ==> (seen@.contains(v)
                || indices_of(work@).contains(x)),
        decreases bound@.len() - seen@.len(), work@.len(),
    {
        let ghost seen_before = seen@;
        let ghost work_before = work@;
        let u = work[work.len() - 1];
        let _ = work.pop();
        proof {
            K::lemma_key_index(u, 0);
            assert(seen@.contains(work_before[work_before.len() - 1].key_index()));
            assert(work_before[work_before.len() - 1] == u);
            assert(work@ =~= work_before.drop_last());
            vstd::set_lib::lemma_len_subset(seen@, bound@);
        }
        if visited.contains_key(&u) {
            let args = system.arguments(u);
            let xs = args.copied_iter();
            let mut k: usize = 0;
            while k < xs.len()
                invariant
                    0 <= k <= xs@.len(),
                    bound@.finite(),
                    seen@.subset_of(bound@),
                    seen@.finite(),
                    seen@.contains(a),
                    seen_before.subset_of(seen@),
                    visited@.contains(u.key_index()),
                    u == K::key_of(u.key_index()),
                    seen@.contains(u.key_index()),
                    args@ == system.argument_set(u),
                    indices_of(xs@).to_set() == args@,
                    forall|u2: usize, v: usize| #[trigger] argument_edge(*system, visited@, u2, v) ==> bound@.contains(v),
                    forall|i: usize| #[trigger] bound@.contains(i) ==> i < usize::MAX,
                    forall|x: usize| #[trigger] seen@.contains(x) ==> reaches(*system, visited@, a, x),
                    forall|i: int| 0 <= i < work@.len() ==> seen@.contains(#[trigger] work@[i].key_index()),
                    forall|i: int| 0 <= i < k ==> seen@.contains(#[trigger] indices_of(xs@)[i]),
                    forall|x: usize, v: usize| seen_before.contains(x) && #[trigger] argument_edge(*system, visited@, x, v)
                        ==> (seen@.contains(v) || indices_of(work_before).contains(x)),
                    forall|x: usize, v: usize| seen@.contains(x) && !seen_before.contains(x) && #[trigger] argument_edge(
                        *system,
                        visited@,
                        x,
                        v,
                    ) ==> indices_of(work@).contains(x),
                    work_before.len() > 0,
                    work@.len() >= work_before.len() - 1,
                    forall|i: int| 0 <= i < work_before.len() - 1 ==> #[trigger] work@[i] == work_before[i],
                    work_before[work_before.len() - 1] == u,
                    seen@.len() > seen_before.len() || work@.len() == work_before.len() - 1,
                decreases xs@.len() - k,
            {
                let x = xs[k];
                proof {
                    K::lemma_key_index(x, 0);
                    assert(indices_of(xs@)[k as int] == x.key_index());
                    assert(indices_of(xs@).to_set().contains(x.key_index()));
                    assert(argument_edge(*system, visited@, u.key_index(), x.key_index()));
                }
                if !seen.contains_key(&x) {
                    let ghost seen_mid = seen@;
                    let ghost work_mid = work@;
                    seen.insert(x);
                    work.push(x);
                    proof {
                        let p = choose|p: Seq<usize>| #[trigger] is_argument_path(*system, visited@, p) && p[0] == a && p.last()
                            == u.key_index();
                        lemma_path_push(*system, visited@, p, x.key_index());
                        assert(indices_of(work@) =~= indices_of(work_mid).push(x.key_index()));
                        assert forall|y: usize| indices_of(work_mid).contains(y) implies indices_of(work@).contains(y) by {
                            let i = choose|i: int| 0 <= i < indices_of(work_mid).len() && indices_of(work_mid)[i] == y;
                            assert(indices_of(work@)[i] == y);
                        }
                        assert(indices_of(work@)[work@.len() - 1] == x.key_index());
                        vstd::set_lib::lemma_len_subset(seen_before, seen_mid);
                        assert(seen@.len() == seen_mid.len() + 1);
                    }
                }
                k = k + 1;
            }
            proof {
                assert forall|v: usize| #[trigger] argument_edge(*system, visited@, u.key_index(), v) implies seen@.contains(v) by {
                    assert(indices_of(xs@).to_set().contains(v));
                    let i = choose|i: int| 0 <= i < indices_of(xs@).len() && indices_of(xs@)[i] == v;
                }
                assert forall|x: usize, v: usize| seen@.contains(x) && #[trigger] argument_edge(*system, visited@, x, v) implies (
                seen@.contains(v) || indices_of(work@).contains(x)) by {
                    if seen_before.contains(x) && !seen@.contains(v) && x != u.key_index() {
                        assert(indices_of(work_before).contains(x));
                        let i = choose|i: int| 0 <= i < indices_of(work_before).len() && indices_of(work_before)[i] == x;
                        assert(i != work_before.len() - 1);
                        assert(indices_of(work@)[i] == x);
                    }
                }
            }
        } else {
            proof {
                assert forall|x: usize, v: usize| seen@.contains(x) && #[trigger] argument_edge(*system, visited@, x, v) implies (
                seen@.contains(v) || indices_of(work@).contains(x)) by {
                    if !seen@.contains(v) {
                        assert(x != u.key_index());
                        assert(indices_of(work_before).contains(x));
                        let i = choose|i: int| 0 <= i < indices_of(work_before).len() && indices_of(work_before)[i] == x;
                        assert(i != work_before.len() - 1);
                        assert(indices_of(work@)[i] == x);
                    }
                }
            }
        }
        proof {
            vstd::set_lib::lemma_len_subset(seen@, bound@);
            vstd::set_lib::lemma_len_subset(seen_before, seen@);
            assert(seen@.len() > seen_before.len() || work@.len() < work_before.len());
        }
    }
    proof {
        assert forall|s: usize| reaches(*system, visited@, a, s) implies #[trigger] seen@.contains(s) by {
            let p = choose|p: Seq<usize>| #[trigger] is_argument_path(*system, visited@, p) && p[0] == a && p.last() == s;
            assert(indices_of(work@) =~= Seq::<usize>::empty());
            assert forall|u: usize, v: usize| seen@.contains(u) && #[trigger] argument_edge(*system, visited@, u, v) implies seen@.contains(v) by {
                assert(!indices_of(work@).contains(u));
            }
            lemma_closed_holds_path(*system, visited@, seen@, p);
        }
    }
    seen
}

/// The arguments oracle: every pair `(x, y)` where `y` is a visited variable or an argument of
/// one, and `x` is reached from `y` through arguments of visited variables. It keeps the relation
/// of the variables visited before, to answer again when nothing new was visited.
pub struct ArgumentsOracle<VarKey, VarSet, PairSet> {
    previous_visited: VarSet,
    relation_cache: PairSet,
    _phantom_data: std::marker::PhantomData<VarKey>,
}

/// The visited variables and their arguments.
pub(crate) fn known_variables<K: Key, V: PartialOrd, S: System<K, V> + Arguments<K, BitSet<K>>>(system: &S, visited: &BitSet<K>) -> (r: BitSet<K>)
    ensures
        r@ == known(*system, visited@),
{
    let us = visited.copied_iter();
    let mut n = visited.clone();
    let mut j: usize = 0;
    while j < us.len()
        invariant
            0 <= j <= us@.len(),
            indices_of(us@).to_set() == visited@,
            n@ == visited@.union(Set::new(|x: usize| exists|i: int| 0 <= i < j && #[trigger] argument_edge(
                *system,
                visited@,
                indices_of(us@)[i],
                x,
            ))),
        decreases us@.len() - j,
    {
        let u = us[j];
        let args = system.arguments(u);
        let ghost before = n@;
        n.union_with(&args);
        proof {
            K::lemma_key_index(u, 0);
            assert(indices_of(us@)[j as int] == u.key_index());
            assert(indices_of(us@).to_set().contains(u.key_index()));
            let target = visited@.union(Set::new(|x: usize| exists|i: int| 0 <= i < j + 1 && #[trigger] argument_edge(
                *system,
                visited@,
                indices_of(us@)[i],
                x,
            )));
            assert forall|x: usize| #[trigger] n@.contains(x) <==> target.contains(x) by {
                if args@.contains(x) {
                    assert(argument_edge(*system, visited@, indices_of(us@)[j as int], x));
                }
                if exists|i: int| 0 <= i < j + 1 && #[trigger] argument_edge(*system, visited@, indices_of(us@)[i], x) {
                    let i = choose|i: int| 0 <= i < j + 1 && #[trigger] argument_edge(*system, visited@, indices_of(us@)[i], x);
                    if i == j {
                        assert(args@.contains(x));
                    }
                }
            }
            assert(n@ =~= target);
        }
        j = j + 1;
    }
    proof {
        assert forall|x: usize| #[trigger] n@.contains(x) <==> known(*system, visited@).contains(x) by {
            if exists|u: usize| #[trigger] argument_edge(*system, visited@, u, x) {
                let u = choose|u: usize| #[trigger] argument_edge(*system, visited@, u, x);
                assert(indices_of(us@).to_set().contains(u));
                let i = choose|i: int| 0 <= i < indices_of(us@).len() && indices_of(us@)[i] == u;
                assert(argument_edge(*system, visited@, indices_of(us@)[i], x));
            }
        }
        assert(n@ =~= known(*system, visited@));
    }
    n
}

impl<K> ArgumentsOracle<K, HashSet<K>, HashSet<(K, K)>> {
    /// The variables visited at the last update.
    pub closed spec fn previous_keys(self) -> Set<K> {
        self.previous_visited@
    }

    /// The relation of the last update.
    pub closed spec fn cached_pairs(self) -> Set<(K, K)> {
        self.relation_cache@
    }

    pub fn hashset() -> (r: Self)
        ensures
            r.previous_keys() == Set::<K>::empty(),
            r.cached_pairs() == Set::<(K, K)>::empty(),
    {
        ArgumentsOracle {
            previous_visited: HashSet::new(),
            relation_cache: HashSet::new(),
            _phantom_data: std::marker::PhantomData,
        }
    }
}

impl<K: Key> ArgumentsOracle<K, BitSet<K>, BitsetRelation<K, K>> {
    /// The name the oracle is shown by.
    pub fn name(&self) -> (r: String)
        ensures
            r@ == "Args:bitset"@,
    {
        String::from_str("Args:bitset")
    }

    /// The variables visited at the last update.
    pub closed spec fn previous(self) -> Set<usize> {
        self.previous_visited@
    }

    /// The relation of the last update.
    pub closed spec fn cache(self) -> Set<(usize, usize)> {
        self.relation_cache@
    }

    pub fn bitset() -> (r: Self)
        ensures
            r.previous() == Set::<usize>::empty(),
            r.cache() == Set::<(usize, usize)>::empty(),
    {
        ArgumentsOracle {
            previous_visited: BitSet::new(),
            relation_cache: BitsetRelation::new_right(),
            _phantom_data: std::marker::PhantomData,
        }
    }

    /// The arguments closure of the visited variables, computed afresh.
    fn closure_of<V: PartialOrd, S: System<K, V> + Arguments<K, BitSet<K>>>(system: &S, visited: &BitSet<K>) -> (r: BitsetRelation<K, K>)
        ensures
            r@ == argument_closure(*system, visited@),
    {
        let n = known_variables(system, visited);
        let ns = n.copied_iter();
        proof {
            assert forall|i: usize| #[trigger] n@.contains(i) implies i < usize::MAX by {
                assert(indices_of(ns@).to_set().contains(i));
                let k = choose|k: int| 0 <= k < indices_of(ns@).len() && indices_of(ns@)[k] == i;
                assert(ns@[k].key_index() < usize::MAX);
            }
        }
        let ghost ni = indices_of(ns@);
        let mut rights: Vec<(BitSet<K>, K)> = Vec::new();
        let mut j: usize = 0;
        while j < ns.len()
            invariant
                0 <= j <= ns@.len(),
                rights@.len() == j,
                ni == indices_of(ns@),
                ni.to_set() == n@,
                n@ == known(*system, visited@),
                forall|i: usize| #[trigger] n@.contains(i) ==> i < usize::MAX,
                forall|i: int| 0 <= i < ns@.len() ==> (#[trigger] ns@[i]).key_index() < usize::MAX,
                forall|i: int| 0 <= i < j ==> (#[trigger] rights@[i]).1 == ns@[i],
                forall|i: int| 0 <= i < j ==> forall|s: usize| (#[trigger] rights@[i]).0@.contains(s) <==> reaches(
                    *system,
                    visited@,
                    ni[i],
                    s,
                ),
            decreases ns@.len() - j,
        {
            let a = ns[j];
            proof {
                assert(ni[j as int] == a.key_index());
                assert(ni.to_set().contains(a.key_index()));
                assert forall|u: usize, v: usize| #[trigger] argument_edge(*system, visited@, u, v) implies n@.contains(v) by {
                    assert(known(*system, visited@).contains(v));
                }
            }
            let seen = reachable_from(system, visited, &n, a);
            rights.push((seen, a));
            j = j + 1;
        }
        let ghost rs = rights@;
        proof {
            assert(right_indices(rs) =~= ni);
        }
        let r = BitsetRelation::from_rights(rights);
        proof {
            let expected = argument_closure(*system, visited@);
            assert forall|p: (usize, usize)| #[trigger] r@.contains(p) <==> expected.contains(p) by {
                assert(ni.to_set().contains(p.1) == ni.contains(p.1));
                if ni.contains(p.1) {
                    let i = choose|i: int| 0 <= i < ni.len() && ni[i] == p.1;
                    lemma_rights_last_distinct(rs, i);
                    assert(rs[i].0@.contains(p.0) <==> reaches(*system, visited@, ni[i], p.0));
                } else {
                    lemma_rights_last_absent(rs, p.1);
                }
            }
            assert(r@ =~= expected);
        }
        r
    }

    /// Over calls whose visited sets only grow, each answer is the arguments closure of all the
    /// variables visited so far: where the cache is the closure of variables `seen` before, which
    /// hold those of the last update and are among `visited`, an update that computes anew answers
    /// the closure of `visited`, and one that keeps the cache (as many variables visited, finitely
    /// many) answers it too.
    pub proof fn lemma_closure_over_growing_visits<V: PartialOrd, S: System<K, V> + Arguments<K, BitSet<K>>>(
        self,
        system: S,
        seen: Set<usize>,
        visited: Set<usize>,
    )
        requires
            self.cache() == argument_closure(system, seen),
            self.previous().subset_of(seen),
            seen.subset_of(visited),
        ensures
            self.previous().len() != visited.len() ==> self.cache().union(
                argument_closure(system, self.previous().union(visited)),
            ) == argument_closure(system, visited),
            self.previous().len() == visited.len() && visited.finite() ==> self.cache() == argument_closure(system, visited),
    {
        assert(self.previous().union(visited) =~= visited);
        lemma_closure_monotone(system, seen, visited);
        if self.previous().len() == visited.len() && visited.finite() {
            vstd::set_lib::lemma_set_subset_finite(visited, self.previous());
            vstd::set_lib::lemma_subset_equality(self.previous(), visited);
            assert(seen =~= visited);
        }
    }

    /// The relation of the visited variables: the one kept from the last update when as many
    /// variables were visited then, else the kept relation grown by the arguments closure of the
    /// variables visited so far, those of earlier updates and `visited`. The variables of the last
    /// update are forgotten in the first case and joined by `visited` in the second.
    pub fn get_updated_closure<V: PartialOrd, S: System<K, V> + Arguments<K, BitSet<K>>>(
        &mut self,
        visited: &BitSet<K>,
        system: &S,
    ) -> (r: BitsetRelation<K, K>)
        ensures
            old(self).previous().len() == visited@.len() ==> {
                &&& r@ == old(self).cache()
                &&& final(self).cache() == old(self).cache()
                &&& final(self).previous() == Set::<usize>::empty()
            },
            old(self).previous().len() != visited@.len() ==> {
                &&& r@ == old(self).cache().union(argument_closure(*system, old(self).previous().union(visited@)))
                &&& final(self).cache() == r@
                &&& final(self).previous() == old(self).previous().union(visited@)
            },
    {
        let mut previous = BitSet::new();
        std::mem::swap(&mut previous, &mut self.previous_visited);
        if previous.len() == visited.len() {
            return self.relation_cache.clone();
        }
        previous.union_with(visited);
        let fresh = Self::closure_of(system, &previous);
        self.relation_cache.union_with(fresh);
        self.previous_visited = previous;
        self.relation_cache.clone()
    }
}

impl<K: Key, V: PartialOrd, S: System<K, V> + Arguments<K, BitSet<K>> + Visited<BitSet<K>>> LocalOracle<
    K,
    V,
    BitsetRelation<K, K>,
    S,
> for ArgumentsOracle<K, BitSet<K>, BitsetRelation<K, K>> {
    open spec fn flow(&self, assignment: HashMap<K, V>, possible: Set<(usize, usize)>, system: S) -> Set<(usize, usize)> {
        self.cache().union(argument_closure(system, system.visited_set()))
    }

    fn approximate_flow(&self, assignment: &HashMap<K, V>, possible: &BitsetRelation<K, K>, system: &S) -> (r: BitsetRelation<K, K>) {
        let visited = system.visited();
        let fresh = Self::closure_of(system, &visited);
        self.relation_cache.clone().union(fresh)
    }
}

} // verus!
