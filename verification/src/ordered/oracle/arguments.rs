//! The strategic arguments oracle: the pairs of the arguments closure, each weighted by how many
//! variables its dependency reaches.
use std::collections::HashMap;
use vstd::prelude::*;

use crate::arena::{indices_of, Key};
use crate::oracle::arguments::{argument_closure, known, known_variables, reachable_from, reaches};
use crate::ordered::oracle::StrategicLocalOracle;
use crate::ordered::strategy::{BinaryHeapStrategy, OrxStrategy, PairHeap, StrategyItem, StrategyWeight};
use crate::set::bitset::BitSet;
use crate::{Arguments, CopiedIter, SetOps, System, Union, Visited};

verus! {

/// The indices of a pair of keys.
pub open spec fn pair_index<K: Key>(p: (K, K)) -> (usize, usize) {
    (p.0.key_index(), p.1.key_index())
}

/// The number of variables reached from `x` through arguments of visited variables.
pub open spec fn reach_count<K: Key, V: PartialOrd, S: System<K, V> + Arguments<K, BitSet<K>>>(
    system: S,
    visited: Set<usize>,
    x: usize,
) -> nat {
    Set::new(|s: usize| reaches(system, visited, x, s)).len()
}

/// `items` holds every pair of the arguments closure once, each weighted by the number of
/// variables its left component reaches.
pub open spec fn lists_weighted_closure<K: Key, V: PartialOrd, S: System<K, V> + Arguments<K, BitSet<K>>>(
    system: S,
    visited: Set<usize>,
    items: Seq<(StrategyWeight, (K, K))>,
) -> bool {
    &&& forall|i: int|
        0 <= i < items.len() ==> argument_closure(system, visited).contains(pair_index(#[trigger] items[i].1))
            && items[i].0 == StrategyWeight::Num(reach_count(system, visited, items[i].1.0.key_index()) as u64)
    &&& forall|p: (usize, usize)| #[trigger] argument_closure(system, visited).contains(p) ==> exists|i: int|
        0 <= i < items.len() && pair_index(#[trigger] items[i].1) == p
    &&& forall|i: int, j: int| 0 <= i < j < items.len() ==> pair_index(#[trigger] items[i].1) != pair_index(#[trigger] items[j].1)
}

/// The strategic arguments oracle. It keeps the variables visited at the last update and the
/// strategy it returned then.
pub struct StrategicArgumentsOracle<VarKey, PS> {
    previous_visited: BitSet<VarKey>,
    strategy_cache: PS,
}

impl<K: Key> StrategicArgumentsOracle<K, BinaryHeapStrategy<(K, K)>> {
    /// The variables visited at the last update.
    pub closed spec fn previous(self) -> Set<usize> {
        self.previous_visited@
    }

    /// The strategy of the last update.
    pub closed spec fn cache(self) -> Seq<(StrategyWeight, (K, K))> {
        self.strategy_cache@
    }

    pub fn new() -> (r: Self)
        ensures
            r.previous() == Set::<usize>::empty(),
            r.cache() == Seq::<(StrategyWeight, (K, K))>::empty(),
    {
        StrategicArgumentsOracle { previous_visited: BitSet::new(), strategy_cache: BinaryHeapStrategy::new() }
    }

    /// The weighted arguments closure of the variables visited now and before: the strategy
    /// kept from the last update when as many variables were visited then. The update keeps the
    /// strategy and joins `visited` to the variables visited before.
    pub fn get_updated_closure_generic<V: PartialOrd, S: System<K, V> + Arguments<K, BitSet<K>>>(
        &mut self,
        visited: &BitSet<K>,
        system: &S,
    ) -> (r: BinaryHeapStrategy<(K, K)>)
        ensures
            old(self).previous().len() == visited@.len() ==> r@ == old(self).cache() && final(self).previous() == old(
                self,
            ).previous() && final(self).cache() == old(self).cache(),
            old(self).previous().len() != visited@.len() ==> {
                &&& lists_weighted_closure(*system, old(self).previous().union(visited@), r@)
                &&& final(self).cache() == r@
                &&& final(self).previous() == old(self).previous().union(visited@)
            },
    {
        if self.previous_visited.len() == visited.len() {
            return self.strategy_cache.duplicate();
        }
        let all = self.previous_visited.clone().union(visited);
        let r = weighted_closure_of(system, &all);
        self.strategy_cache = r.duplicate();
        self.previous_visited = all;
        r
    }
}

impl<K: Key> Default for StrategicArgumentsOracle<K, BinaryHeapStrategy<(K, K)>> {
    fn default() -> (r: Self)
        ensures
            r.previous() == Set::<usize>::empty(),
            r.cache() == Seq::<(StrategyWeight, (K, K))>::empty(),
    {
        Self::new()
    }
}

impl<K: Key, V: PartialOrd, S: System<K, V> + Arguments<K, BitSet<K>> + Visited<BitSet<K>>> StrategicLocalOracle<
    K,
    V,
    BinaryHeapStrategy<(K, K)>,
    S,
> for StrategicArgumentsOracle<K, BinaryHeapStrategy<(K, K)>> {
    open spec fn strategy_flow(
        &self,
        assignment: HashMap<K, V>,
        strategy: Seq<(StrategyWeight, (K, K))>,
        system: S,
        result: Seq<(StrategyWeight, (K, K))>,
    ) -> bool {
        lists_weighted_closure(system, self.previous().union(system.visited_set()), result)
    }

    fn get_strategy(&self, assignment: &HashMap<K, V>, strategy: &BinaryHeapStrategy<(K, K)>, system: &S) -> (r: BinaryHeapStrategy<(K, K)>) {
        let visited = system.visited();
        let all = self.previous_visited.clone().union(&visited);
        weighted_closure_of(system, &all)
    }
}

/// The weighted arguments closure of the visited variables.
#[verifier::rlimit(60)]
pub(crate) fn weighted_closure_of<K: Key, V: PartialOrd, S: System<K, V> + Arguments<K, BitSet<K>>>(
    system: &S,
    visited: &BitSet<K>,
) -> (r: BinaryHeapStrategy<(K, K)>)
    ensures
        lists_weighted_closure(*system, visited@, r@),
{
    let n = known_variables(system, visited);
    let ns = n.copied_iter();
    let ghost ni = indices_of(ns@);
    proof {
        assert forall|i: usize| #[trigger] n@.contains(i) implies i < usize::MAX by {
            assert(ni.to_set().contains(i));
            let k = choose|k: int| 0 <= k < ni.len() && ni[k] == i;
            assert(ns@[k].key_index() < usize::MAX);
        }
        assert forall|u: usize, v: usize| #[trigger] crate::oracle::arguments::argument_edge(*system, visited@, u, v) implies n@.contains(v) by {
            assert(known(*system, visited@).contains(v));
        }
    }
    let mut reach: Vec<BitSet<K>> = Vec::new();
    let mut j: usize = 0;
    while j < ns.len()
        invariant
            0 <= j <= ns@.len(),
            reach@.len() == j,
            ni == indices_of(ns@),
            ni.to_set() == n@,
            n@ == known(*system, visited@),
            forall|i: usize| #[trigger] n@.contains(i) ==> i < usize::MAX,
            forall|u: usize, v: usize| #[trigger] crate::oracle::arguments::argument_edge(*system, visited@, u, v) ==> n@.contains(v),
            forall|i: int| 0 <= i < j ==> (#[trigger] reach@[i])@.subset_of(n@),
            forall|i: int| 0 <= i < j ==> forall|s: usize| (#[trigger] reach@[i])@.contains(s) <==> reaches(
                *system,
                visited@,
                ni[i],
                s,
            ),
        decreases ns@.len() - j,
    {
        let a = ns[j];
        proof {
            assert(ni[j as int] == a.key_index());
            assert(ni.to_set().contains(a.key_index()));
        }
        let seen = reachable_from(system, visited, &n, a);
        reach.push(seen);
        j = j + 1;
    }
    let mut pos: HashMap<usize, usize> = HashMap::new();
    let mut j: usize = 0;
    while j < ns.len()
        invariant
            0 <= j <= ns@.len(),
            ni == indices_of(ns@),
            forall|k: usize| #[trigger] pos@.contains_key(k) ==> pos@[k] < ns@.len() && ni[pos@[k] as int] == k,
            forall|i: int| 0 <= i < j ==> pos@.contains_key(#[trigger] ni[i]),
        decreases ns@.len() - j,
    {
        proof {
            broadcast use vstd::std_specs::hash::group_hash_axioms;
            assert(ni[j as int] == ns@[j as int].key_index());
        }
        pos.insert(ns[j].index(), j);
        j = j + 1;
    }
    proof {
        broadcast use vstd::std_specs::hash::group_hash_axioms;
        assert forall|k: usize| #[trigger] n@.contains(k) implies pos@.contains_key(k) by {
            assert(ni.to_set().contains(k));
            let i = choose|i: int| 0 <= i < ni.len() && ni[i] == k;
        }
    }
    let ghost closure = argument_closure(*system, visited@);
    let ghost mut idx: Map<(usize, usize), int> = Map::empty();
    let mut out: BinaryHeapStrategy<(K, K)> = BinaryHeapStrategy::new();
    let mut j: usize = 0;
    while j < ns.len()
        invariant
            0 <= j <= ns@.len(),
            ni == indices_of(ns@),
            ni.to_set() == n@,
            ni.no_duplicates(),
            reach@.len() == ns@.len(),
            n@ == known(*system, visited@),
            closure == argument_closure(*system, visited@),
            forall|k: usize| #[trigger] n@.contains(k) ==> pos@.contains_key(k),
            forall|k: usize| #[trigger] pos@.contains_key(k) ==> pos@[k] < ns@.len() && ni[pos@[k] as int] == k,
            forall|i: int| 0 <= i < ns@.len() ==> (#[trigger] reach@[i])@.subset_of(n@),
            forall|i: int| 0 <= i < ns@.len() ==> forall|s: usize| (#[trigger] reach@[i])@.contains(s) <==> reaches(
                *system,
                visited@,
                ni[i],
                s,
            ),
            forall|i: int|
                0 <= i < out@.len() ==> closure.contains(pair_index(#[trigger] out@[i].1)) && out@[i].0 == StrategyWeight::Num(
                    reach_count(*system, visited@, out@[i].1.0.key_index()) as u64,
                ),
            forall|i: int| 0 <= i < out@.len() ==> idx.contains_key(pair_index(#[trigger] out@[i].1)) && idx[pair_index(out@[i].1)] == i,
            forall|p: (usize, usize)| #[trigger] idx.contains_key(p) ==> 0 <= idx[p] < out@.len() && pair_index(out@[idx[p]].1) == p,
            forall|p: (usize, usize)| #[trigger] idx.contains_key(p) ==> ni.subrange(0, j as int).contains(p.1),
            forall|jj: int, s: usize| 0 <= jj < j && #[trigger] reach@[jj]@.contains(s) ==> idx.contains_key((s, ni[jj])),
        decreases ns@.len() - j,
    {
        let a = ns[j];
        let xs = reach[j].copied_iter();
        let ghost xi = indices_of(xs@);
        proof {
            assert(ni[j as int] == a.key_index());
            assert forall|p: (usize, usize)| #[trigger] idx.contains_key(p) implies p.1 != a.key_index() by {
                let jj = choose|jj: int| 0 <= jj < j && ni.subrange(0, j as int)[jj] == p.1;
                assert(ni[jj] == p.1);
            }
        }
        let mut k: usize = 0;
        while k < xs.len()
            invariant
                0 <= k <= xs@.len(),
                j < ns@.len(),
                xi == indices_of(xs@),
                xi.to_set() == reach@[j as int]@,
                xi.no_duplicates(),
                a == ns@[j as int],
                ni[j as int] == a.key_index(),
                ni == indices_of(ns@),
                ni.to_set() == n@,
                ni.no_duplicates(),
                reach@.len() == ns@.len(),
                closure == argument_closure(*system, visited@),
                n@ == known(*system, visited@),
                forall|kk: usize| #[trigger] n@.contains(kk) ==> pos@.contains_key(kk),
                forall|kk: usize| #[trigger] pos@.contains_key(kk) ==> pos@[kk] < ns@.len() && ni[pos@[kk] as int] == kk,
                forall|i: int| 0 <= i < ns@.len() ==> (#[trigger] reach@[i])@.subset_of(n@),
                forall|i: int| 0 <= i < ns@.len() ==> forall|s: usize| (#[trigger] reach@[i])@.contains(s) <==> reaches(
                    *system,
                    visited@,
                    ni[i],
                    s,
                ),
                forall|i: int|
                    0 <= i < out@.len() ==> closure.contains(pair_index(#[trigger] out@[i].1)) && out@[i].0 == StrategyWeight::Num(
                        reach_count(*system, visited@, out@[i].1.0.key_index()) as u64,
                    ),
                forall|i: int| 0 <= i < out@.len() ==> idx.contains_key(pair_index(#[trigger] out@[i].1)) && idx[pair_index(out@[i].1)] == i,
                forall|p: (usize, usize)| #[trigger] idx.contains_key(p) ==> 0 <= idx[p] < out@.len() && pair_index(out@[idx[p]].1) == p,
                forall|p: (usize, usize)| #[trigger] idx.contains_key(p) ==> ni.subrange(0, j as int).contains(p.1) || (p.1
                    == a.key_index() && xi.subrange(0, k as int).contains(p.0)),
                forall|jj: int, s: usize| 0 <= jj < j && #[trigger] reach@[jj]@.contains(s) ==> idx.contains_key((s, ni[jj])),
                forall|kk: int| 0 <= kk < k ==> idx.contains_key((#[trigger] xi[kk], a.key_index())),
            decreases xs@.len() - k,
        {
            let x = xs[k];
            proof {
                broadcast use vstd::std_specs::hash::group_hash_axioms;
                assert(xi[k as int] == x.key_index());
                assert(xi.to_set().contains(x.key_index()));
                assert(reach@[j as int]@.contains(x.key_index()));
                assert(n@.contains(x.key_index()));
            }
            let p = *pos.get(&x.index()).unwrap();
            let w = reach[p].len();
            let ghost pair = (x.key_index(), a.key_index());
            proof {
                let rs = Set::new(|s: usize| reaches(*system, visited@, x.key_index(), s));
                assert(ni[p as int] == x.key_index());
                assert(reach@[p as int]@ =~= rs);
                assert(closure.contains(pair)) by {
                    assert(reaches(*system, visited@, ni[j as int], x.key_index()));
                    assert(ni.to_set().contains(a.key_index()));
                }
                if idx.contains_key(pair) {
                    if ni.subrange(0, j as int).contains(pair.1) {
                        let jj = choose|jj: int| 0 <= jj < j && ni.subrange(0, j as int)[jj] == pair.1;
                        assert(ni[jj] == ni[j as int]);
                    } else {
                        let kk = choose|kk: int| 0 <= kk < k && xi.subrange(0, k as int)[kk] == pair.0;
                        assert(xi[kk] == xi[k as int]);
                    }
                }
                assert(!idx.contains_key(pair));
            }
            let ghost out_mid = out@;
            let ghost idx_mid = idx;
            out.push(StrategyItem(StrategyWeight::Num(w as u64), (x, a)));
            proof {
                idx = idx.insert(pair, out_mid.len() as int);
                let last = out@.len() - 1;
                assert(out@[last] == (StrategyWeight::Num(w as u64), (x, a)));
                assert(pair_index(out@[last].1) == pair);
                assert forall|i: int| 0 <= i < out_mid.len() implies #[trigger] out@[i] == out_mid[i] by {}
                assert forall|i: int| 0 <= i < out@.len() implies idx.contains_key(pair_index(#[trigger] out@[i].1)) && idx[pair_index(
                    out@[i].1,
                )] == i by {
                    if i < last {
                        assert(out@[i] == out_mid[i]);
                        assert(idx_mid.contains_key(pair_index(out_mid[i].1)));
                        assert(pair_index(out_mid[i].1) != pair);
                        assert(idx[pair_index(out_mid[i].1)] == idx_mid[pair_index(out_mid[i].1)]);
                    }
                }
                assert forall|q: (usize, usize)| #[trigger] idx.contains_key(q) implies 0 <= idx[q] < out@.len() && pair_index(
                    out@[idx[q]].1,
                ) == q by {
                    if q != pair {
                        assert(out@[idx_mid[q]] == out_mid[idx_mid[q]]);
                    }
                }
                assert forall|q: (usize, usize)| #[trigger] idx.contains_key(q) implies ni.subrange(0, j as int).contains(q.1) || (
                q.1 == a.key_index() && xi.subrange(0, k + 1).contains(q.0)) by {
                    if q == pair {
                        assert(xi.subrange(0, k + 1)[k as int] == q.0);
                    } else if !ni.subrange(0, j as int).contains(q.1) {
                        let kk = choose|kk: int| 0 <= kk < k && xi.subrange(0, k as int)[kk] == q.0;
                        assert(xi.subrange(0, k + 1)[kk] == q.0);
                    }
                }
                assert forall|kk: int| 0 <= kk < k + 1 implies idx.contains_key((#[trigger] xi[kk], a.key_index())) by {
                    if kk < k {
                        assert(idx_mid.contains_key((xi[kk], a.key_index())));
                    }
                }
            }
            k = k + 1;
        }
        proof {
            assert forall|q: (usize, usize)| #[trigger] idx.contains_key(q) implies ni.subrange(0, j + 1).contains(q.1) by {
                if ni.subrange(0, j as int).contains(q.1) {
                    let jj = choose|jj: int| 0 <= jj < j && ni.subrange(0, j as int)[jj] == q.1;
                    assert(ni.subrange(0, j + 1)[jj] == q.1);
                } else {
                    assert(ni.subrange(0, j + 1)[j as int] == q.1);
                }
            }
            assert forall|jj: int, s: usize| 0 <= jj < j + 1 && #[trigger] reach@[jj]@.contains(s) implies idx.contains_key((s, ni[jj])) by {
                if jj == j {
                    assert(xi.to_set().contains(s));
                    let kk = choose|kk: int| 0 <= kk < xi.len() && xi[kk] == s;
                    assert(idx.contains_key((xi[kk], a.key_index())));
                }
            }
        }
        j = j + 1;
    }
    proof {
        assert forall|p: (usize, usize)| #[trigger] closure.contains(p) implies exists|i: int|
            0 <= i < out@.len() && pair_index(#[trigger] out@[i].1) == p by {
            assert(ni.to_set().contains(p.1));
            let jj = choose|jj: int| 0 <= jj < ni.len() && ni[jj] == p.1;
            assert(reach@[jj]@.contains(p.0));
            assert(idx.contains_key(p));
            let i = idx[p];
            assert(pair_index(out@[i].1) == p);
        }
        assert forall|i: int, m: int| 0 <= i < m < out@.len() implies pair_index(#[trigger] out@[i].1) != pair_index(#[trigger] out@[m].1) by {
            assert(idx[pair_index(out@[i].1)] == i);
            assert(idx[pair_index(out@[m].1)] == m);
        }
    }
    out
}

/// `after` is `before` with every pair of the arguments closure of `visited` weighted by the number
/// of variables its left component reaches; the other pairs keep their weights.
pub open spec fn updated_with_closure<K: Key, V: PartialOrd, S: System<K, V> + Arguments<K, BitSet<K>>>(
    system: S,
    visited: Set<usize>,
    before: Map<(usize, usize), StrategyWeight>,
    after: Map<(usize, usize), StrategyWeight>,
) -> bool {
    &&& forall|p: (usize, usize)| #[trigger] after.contains_key(p) <==> before.contains_key(p) || argument_closure(
        system,
        visited,
    ).contains(p)
    &&& forall|p: (usize, usize)| #[trigger] after.contains_key(p) ==> after[p] == if argument_closure(system, visited).contains(p) {
        StrategyWeight::Num(reach_count(system, visited, p.0) as u64)
    } else {
        before[p]
    }
}

/// The two strategic arguments oracles agree: where every pair the heap strategy held lies in the
/// arguments closure (as it does when the visited variables only grow, the closure growing with
/// them), its update holds exactly the pairs of the items of the other's update, each with the same
/// weight.
pub proof fn lemma_orx_agrees_with_generic<K: Key, V: PartialOrd, S: System<K, V> + Arguments<K, BitSet<K>>>(
    system: S,
    visited: Set<usize>,
    before: Map<(usize, usize), StrategyWeight>,
    after: Map<(usize, usize), StrategyWeight>,
    items: Seq<(StrategyWeight, (K, K))>,
)
    requires
        updated_with_closure(system, visited, before, after),
        lists_weighted_closure(system, visited, items),
        forall|p: (usize, usize)| #[trigger] before.contains_key(p) ==> argument_closure(system, visited).contains(p),
    ensures
        forall|p: (usize, usize)| #[trigger] after.contains_key(p) <==> exists|i: int| 0 <= i < items.len() && pair_index(#[trigger] items[i].1) == p,
        forall|i: int| 0 <= i < items.len() ==> after[pair_index(#[trigger] items[i].1)] == items[i].0,
{
    assert forall|p: (usize, usize)| #[trigger] after.contains_key(p) implies exists|i: int|
        0 <= i < items.len() && pair_index(#[trigger] items[i].1) == p by {
        assert(argument_closure(system, visited).contains(p));
    }
    assert forall|i: int| 0 <= i < items.len() implies after[pair_index(#[trigger] items[i].1)] == items[i].0 by {
        assert(argument_closure(system, visited).contains(pair_index(items[i].1)));
        assert(after.contains_key(pair_index(items[i].1)));
    }
}

/// A copy of `cache` with every pair of the arguments closure of `visited` set to its weight.
fn with_closure<K: Key, V: PartialOrd, S: System<K, V> + Arguments<K, BitSet<K>>>(
    cache: &OrxStrategy<(K, K), PairHeap>,
    system: &S,
    visited: &BitSet<K>,
) -> (r: OrxStrategy<(K, K), PairHeap>)
    ensures
        updated_with_closure(*system, visited@, cache@, r@),
{
    let weighted = weighted_closure_of(system, visited);
    let items = weighted.iter();
    let ghost closure = argument_closure(*system, visited@);
    let ghost ps = Seq::new(items@.len(), |i: int| pair_index(items@[i].1));
    let mut r = cache.duplicate();
    let mut t: usize = 0;
    while t < items.len()
        invariant
            0 <= t <= items@.len(),
            ps.len() == items@.len(),
            forall|i: int| 0 <= i < items@.len() ==> #[trigger] ps[i] == pair_index(items@[i].1),
            crate::ordered::strategy::item_pairs(items@) == weighted@,
            lists_weighted_closure(*system, visited@, weighted@),
            closure == argument_closure(*system, visited@),
            forall|p: (usize, usize)| #[trigger] r@.contains_key(p) <==> cache@.contains_key(p) || ps.subrange(0, t as int).contains(p),
            forall|p: (usize, usize)| #[trigger] r@.contains_key(p) ==> r@[p] == if ps.subrange(0, t as int).contains(p) {
                StrategyWeight::Num(reach_count(*system, visited@, p.0) as u64)
            } else {
                cache@[p]
            },
        decreases items@.len() - t,
    {
        let item = items[t];
        let ghost sub = ps.subrange(0, t as int);
        proof {
            assert(weighted@[t as int] == (item.0, item.1));
            assert(closure.contains(pair_index(weighted@[t as int].1)));
            assert(item.0 == StrategyWeight::Num(reach_count(*system, visited@, item.1.0.key_index()) as u64));
            assert(ps[t as int] == pair_index(item.1));
            assert(ps.subrange(0, t + 1) =~= sub.push(ps[t as int]));
        }
        r.update_key_or_push(item.1, item.0);
        proof {
            assert forall|p: (usize, usize)| #[trigger] r@.contains_key(p) <==> cache@.contains_key(p) || ps.subrange(0, t + 1).contains(p) by {
                vstd::seq_lib::lemma_seq_contains_after_push(sub, ps[t as int], p);
            }
            assert forall|p: (usize, usize)| #[trigger] r@.contains_key(p) implies r@[p] == if ps.subrange(0, t + 1).contains(p) {
                StrategyWeight::Num(reach_count(*system, visited@, p.0) as u64)
            } else {
                cache@[p]
            } by {
                vstd::seq_lib::lemma_seq_contains_after_push(sub, ps[t as int], p);
            }
        }
        t = t + 1;
    }
    proof {
        assert(ps.subrange(0, items@.len() as int) =~= ps);
        assert forall|p: (usize, usize)| ps.contains(p) <==> #[trigger] closure.contains(p) by {
            if ps.contains(p) {
                let i = choose|i: int| 0 <= i < ps.len() && ps[i] == p;
                assert(weighted@[i] == (items@[i].0, items@[i].1));
                assert(closure.contains(pair_index(weighted@[i].1)));
            }
            if closure.contains(p) {
                let i = choose|i: int| 0 <= i < weighted@.len() && pair_index(#[trigger] weighted@[i].1) == p;
                assert(ps[i] == p);
            }
        }
    }
    r
}

impl<K: Key> StrategicArgumentsOracle<K, OrxStrategy<(K, K), PairHeap>> {
    /// The variables visited at the last update.
    pub closed spec fn previous(self) -> Set<usize> {
        self.previous_visited@
    }

    /// The strategy of the last update.
    pub closed spec fn cache(self) -> Map<(usize, usize), StrategyWeight> {
        self.strategy_cache@
    }

    pub fn new() -> (r: Self)
        ensures
            r.previous() == Set::<usize>::empty(),
            r.cache() == Map::<(usize, usize), StrategyWeight>::empty(),
    {
        StrategicArgumentsOracle { previous_visited: BitSet::new(), strategy_cache: OrxStrategy::new() }
    }

    /// The strategy kept from the last update when as many variables were visited then; else the
    /// strategy kept with every pair of the arguments closure of the variables visited now and
    /// before weighted by the number of variables its left component reaches. The update keeps
    /// the strategy and joins `visited` to the variables visited before.
    pub fn get_updated_closure_orx<V: PartialOrd, S: System<K, V> + Arguments<K, BitSet<K>>>(
        &mut self,
        visited: &BitSet<K>,
        system: &S,
    ) -> (r: OrxStrategy<(K, K), PairHeap>)
        ensures
            old(self).previous().len() == visited@.len() ==> r@ == old(self).cache() && final(self).previous() == old(
                self,
            ).previous() && final(self).cache() == old(self).cache(),
            old(self).previous().len() != visited@.len() ==> {
                &&& updated_with_closure(*system, old(self).previous().union(visited@), old(self).cache(), r@)
                &&& final(self).cache() == r@
                &&& final(self).previous() == old(self).previous().union(visited@)
            },
    {
        if self.previous_visited.len() == visited.len() {
            return self.strategy_cache.duplicate();
        }
        let all = self.previous_visited.clone().union(visited);
        let r = with_closure(&self.strategy_cache, system, &all);
        self.strategy_cache = r.duplicate();
        self.previous_visited = all;
        r
    }
}

impl<K: Key> Default for StrategicArgumentsOracle<K, OrxStrategy<(K, K), PairHeap>> {
    fn default() -> (r: Self)
        ensures
            r.previous() == Set::<usize>::empty(),
            r.cache() == Map::<(usize, usize), StrategyWeight>::empty(),
    {
        Self::new()
    }
}

impl<K: Key, V: PartialOrd, S: System<K, V> + Arguments<K, BitSet<K>> + Visited<BitSet<K>>> StrategicLocalOracle<
    K,
    V,
    OrxStrategy<(K, K), PairHeap>,
    S,
> for StrategicArgumentsOracle<K, OrxStrategy<(K, K), PairHeap>> {
    open spec fn strategy_flow(
        &self,
        assignment: HashMap<K, V>,
        strategy: Map<(usize, usize), StrategyWeight>,
        system: S,
        result: Map<(usize, usize), StrategyWeight>,
    ) -> bool {
        updated_with_closure(system, self.previous().union(system.visited_set()), self.cache(), result)
    }

    fn get_strategy(&self, assignment: &HashMap<K, V>, strategy: &OrxStrategy<(K, K), PairHeap>, system: &S) -> (r: OrxStrategy<(K, K), PairHeap>) {
        let visited = system.visited();
        let all = self.previous_visited.clone().union(&visited);
        with_closure(&self.strategy_cache, system, &all)
    }
}

} // verus!
