use radguy::kleene::kleene_local;
use radguy::oracle::{
    ArgumentsOracle, CombineLocal, IdentityOracle, LocalMaxR, LocalOracle, SMax, TrivialOracle,
    WeightedDepOracle,
};
use radguy::set::bitset::{BitSet, BitsetRelation};
use radguy::ordered::strategy::Length;
use radguy::{Arguments, AssignmentMap, DependencyGraphSystem, PairUniverse, SetOps, System, Universe, Visited};
use std::collections::HashMap;

/// A variable is the disjunction of its arguments, or a constant.
#[derive(Clone, Copy)]
enum Term {
    Or,
    Const(bool),
}

struct MockSystem {
    terms: Vec<Term>,
    args: Vec<Vec<usize>>,
    visited: Vec<usize>,
}

impl MockSystem {
    fn new(terms: Vec<Term>, args: Vec<Vec<usize>>, visited: Vec<usize>) -> Self {
        MockSystem { terms, args, visited }
    }
}

impl System<usize, bool> for MockSystem {
    fn evaluation(&self, _key: usize, _assignment: AssignmentMap<usize, bool>) -> bool {
        unreachable!("read by the verifier only")
    }

    fn with_lock(&self, _locked: bool) -> Self {
        MockSystem::new(self.terms.clone(), self.args.clone(), self.visited.clone())
    }

    fn evaluate(&self, key: usize, assignment: &HashMap<usize, bool>) -> bool {
        match self.terms[key] {
            Term::Const(b) => b,
            Term::Or => self.args[key].iter().any(|a| assignment.get(a) == Some(&true)),
        }
    }

    fn bottom_assignment(&self) -> HashMap<usize, bool> {
        HashMap::new()
    }

    fn lock(&mut self) {}

    fn unlock(&mut self) {}
}

impl Arguments<usize, BitSet<usize>> for MockSystem {
    fn argument_set(&self, _key: usize) -> radguy::IndexSet {
        unreachable!("read by the verifier only")
    }

    fn arguments(&self, key: usize) -> BitSet<usize> {
        BitSet::from_keys(self.args[key].clone())
    }
}

impl Visited<BitSet<usize>> for MockSystem {
    fn visited_set(&self) -> radguy::IndexSet {
        unreachable!("read by the verifier only")
    }

    fn visited(&self) -> BitSet<usize> {
        BitSet::from_keys(self.visited.clone())
    }
}

impl Universe<BitSet<usize>> for MockSystem {
    fn universe_set(&self) -> radguy::IndexSet {
        unreachable!("read by the verifier only")
    }

    fn universe(&self) -> BitSet<usize> {
        BitSet::full(self.terms.len())
    }
}

impl PairUniverse<BitsetRelation<usize, usize>> for MockSystem {
    fn pair_universe_set(&self) -> radguy::IndexPairs {
        unreachable!("read by the verifier only")
    }

    fn pair_universe(&self) -> BitsetRelation<usize, usize> {
        let u = BitSet::<usize>::full(self.terms.len());
        let mut r = BitsetRelation::new_right();
        for x in 0..self.terms.len() {
            for y in 0..self.terms.len() {
                if u.contains(&x) {
                    r.insert((x, y));
                }
            }
        }
        r
    }
}

impl DependencyGraphSystem<usize, (usize, bool)> for MockSystem {
    fn hyperedges(&self, _key: usize) -> Option<radguy::Hyperedges<(usize, bool)>> {
        unreachable!("read by the verifier only")
    }

    fn get_hyperedges(&self, key: usize) -> Option<Vec<Vec<(usize, bool)>>> {
        if self.visited.contains(&key) {
            Some(self.args[key].iter().map(|a| vec![(*a, false)]).collect())
        } else {
            None
        }
    }
}

fn rel(pairs: &[(usize, usize)]) -> BitsetRelation<usize, usize> {
    BitsetRelation::from_pairs(pairs.to_vec())
}

fn closure(system: &MockSystem, visits: &[&[usize]], expected: &[&[(usize, usize)]]) {
    let mut oracle = ArgumentsOracle::bitset();
    let mut visited = BitSet::new();
    for (visit, pairs) in visits.iter().zip(expected.iter()) {
        for v in visit.iter() {
            visited.insert(*v);
        }
        let got = oracle.get_updated_closure::<bool, MockSystem>(&visited, system);
        assert!(got == rel(pairs), "visiting {visit:?}");
    }
}

#[test]
fn arguments_single_variable() {
    let s = MockSystem::new(vec![Term::Or], vec![vec![]], vec![]);
    closure(&s, &[&[0]], &[&[(0, 0)]]);
}

#[test]
fn arguments_direct_cycle() {
    let s = MockSystem::new(vec![Term::Or], vec![vec![0]], vec![]);
    closure(&s, &[&[0]], &[&[(0, 0)]]);
}

#[test]
fn arguments_chain() {
    let (x, y, z) = (0, 1, 2);
    let s = MockSystem::new(vec![Term::Or; 3], vec![vec![y], vec![z], vec![]], vec![]);
    let all = [(x, x), (y, x), (z, x), (y, y), (z, y), (z, z)];
    closure(&s, &[&[x], &[y], &[z]], &[&[(x, x), (y, x), (y, y)], &all, &all]);
    closure(&s, &[&[z], &[y], &[x]], &[&[(z, z)], &[(z, z), (y, y), (z, y)], &all]);
    closure(&s, &[&[x, z], &[y]], &[&[(x, x), (y, x), (y, y), (z, z)], &all]);
}

#[test]
fn arguments_four_cycle() {
    let (x, y, z, w) = (0, 1, 2, 3);
    let s = MockSystem::new(vec![Term::Or; 4], vec![vec![y], vec![z], vec![w], vec![x]], vec![]);
    let mut all = Vec::new();
    for a in 0..4 {
        for b in 0..4 {
            all.push((a, b));
        }
    }
    closure(
        &s,
        &[&[x], &[z], &[y], &[w]],
        &[
            &[(x, x), (y, y), (y, x)],
            &[(x, x), (y, y), (y, x), (z, z), (w, z), (w, w)],
            &[(x, x), (y, x), (y, y), (z, x), (z, y), (z, z), (w, x), (w, y), (w, z), (w, w)],
            &all,
        ],
    );
}

#[test]
fn arguments_discover_into_existing_chain() {
    let (a, b, c, d, e) = (0, 1, 2, 3, 4);
    let s = MockSystem::new(vec![Term::Or; 5], vec![vec![b, d], vec![c], vec![], vec![e], vec![b]], vec![]);
    closure(
        &s,
        &[&[a], &[b], &[c], &[d], &[e]],
        &[
            &[(a, a), (b, a), (b, b), (d, a), (d, d)],
            &[(a, a), (b, a), (b, b), (c, c), (c, b), (c, a), (d, a), (d, d)],
            &[(a, a), (b, a), (b, b), (c, c), (c, b), (c, a), (d, a), (d, d)],
            &[(a, a), (b, a), (b, b), (c, c), (c, b), (c, a), (d, a), (d, d), (e, a), (e, d), (e, e)],
            &[
                (a, a),
                (b, a), (b, b), (b, d), (b, e),
                (c, a), (c, b), (c, c), (c, d), (c, e),
                (d, a), (d, d),
                (e, a), (e, d), (e, e),
            ],
        ],
    );
}

#[test]
fn arguments_oracle_unchanged_visits_keep_the_cache() {
    let s = MockSystem::new(vec![Term::Or; 2], vec![vec![1], vec![]], vec![]);
    let mut oracle = ArgumentsOracle::bitset();
    let mut visited = BitSet::new();
    visited.insert(0usize);
    let first = oracle.get_updated_closure::<bool, MockSystem>(&visited, &s);
    let again = oracle.get_updated_closure::<bool, MockSystem>(&visited, &s);
    assert!(first == again);
    assert!(first == rel(&[(0, 0), (1, 0), (1, 1)]));
}

#[test]
fn arguments_oracle_as_local_oracle() {
    let s = MockSystem::new(vec![Term::Or; 3], vec![vec![1], vec![2], vec![]], vec![0, 1]);
    let oracle = ArgumentsOracle::bitset();
    let got = oracle.approximate_flow(&HashMap::new(), &rel(&[]), &s);
    assert!(got == rel(&[(0, 0), (1, 0), (2, 0), (1, 1), (2, 1), (2, 2)]));
}

#[test]
fn local_max_r_keeps_unsettled_visited_variables() {
    // x0 = x1 or x2, x1 = true, x2 = x0; x0 and x1 are visited.
    let s = MockSystem::new(vec![Term::Or, Term::Const(true), Term::Or], vec![vec![1, 2], vec![], vec![0]], vec![0, 1]);
    let oracle = LocalMaxR::bitset();
    let got = oracle.approximate_flow(&HashMap::new(), &rel(&[]), &s);
    let mut expected = Vec::new();
    for x in 0..3 {
        expected.push((x, 2)); // x2 is unvisited
        expected.push((x, 0)); // x0 evaluates to false under the empty assignment
    }
    expected.push((0, 0));
    expected.push((1, 1));
    assert!(got == rel(&expected));
}

#[test]
fn smax_drops_pairs_with_settled_variables() {
    let s = MockSystem::new(vec![Term::Or; 3], vec![vec![], vec![], vec![]], vec![]);
    let mut assignment = HashMap::new();
    assignment.insert(1usize, true);
    let possible = rel(&[(0, 1), (1, 0), (0, 2), (2, 2)]);
    let got = SMax::bitset().approximate_flow(&assignment, &possible, &s);
    assert!(got == rel(&[(0, 2), (2, 2)]));
}

#[test]
fn trivial_and_identity_oracles() {
    let s = MockSystem::new(vec![Term::Or; 2], vec![vec![], vec![]], vec![]);
    let possible = rel(&[(0, 1)]);
    let trivial = TrivialOracle::bitset().approximate_flow(&HashMap::new(), &possible, &s);
    assert!(trivial == rel(&[(0, 0), (0, 1), (1, 0), (1, 1)]));
    let identity = IdentityOracle::bitset().approximate_flow(&HashMap::new(), &possible, &s);
    assert!(identity == possible);
}

#[test]
fn composed_and_intersected_oracles() {
    let s = MockSystem::new(vec![Term::Or; 2], vec![vec![], vec![]], vec![]);
    let mut assignment = HashMap::new();
    assignment.insert(0usize, true);
    let possible = rel(&[(0, 1)]);
    let composed = TrivialOracle::bitset().then(SMax::bitset());
    assert!(composed.approximate_flow(&assignment, &possible, &s) == rel(&[(1, 1)]));
    let both = TrivialOracle::bitset().and(IdentityOracle::bitset());
    assert!(both.approximate_flow(&assignment, &possible, &s) == possible);
}

#[test]
fn weighted_dependencies() {
    // x0 has one hyperedge to x1 with weight false; x1 is not expanded.
    let s = MockSystem::new(vec![Term::Or; 3], vec![vec![1], vec![], vec![]], vec![0]);
    let mut assignment = HashMap::new();
    assignment.insert(0usize, true);
    let possible = rel(&[(1, 0), (2, 0), (0, 1)]);
    let got = WeightedDepOracle::bitset().approximate_flow(&assignment, &possible, &s);
    // (1, 0): hyperedge through x1 with weight false below true; (2, 0): no support;
    // (0, 1): x1 is not expanded.
    assert!(got == rel(&[(1, 0), (0, 1)]));
    // With (2, 2), x2 lies between x2 and x0.
    let possible = rel(&[(1, 0), (2, 0), (0, 1), (2, 2)]);
    let got = WeightedDepOracle::bitset().approximate_flow(&assignment, &possible, &s);
    assert!(got == possible);
    // Under the bottom assignment no weight lies below the value of x0.
    let got = WeightedDepOracle::bitset().approximate_flow(&HashMap::new(), &rel(&[(1, 0)]), &s);
    assert!(got == rel(&[]));
}

#[test]
fn kleene_local_finds_the_fixed_point() {
    // x0 = x1 or x2, x1 = x3, x2 = false, x3 = true
    let mut s = MockSystem::new(
        vec![Term::Or, Term::Or, Term::Const(false), Term::Const(true)],
        vec![vec![1, 2], vec![3], vec![], vec![]],
        vec![0, 1, 2, 3],
    );
    let (value, (evaluations, passes)) = kleene_local(&mut s, 0usize, &IdentityOracle::bitset()).unwrap();
    assert!(value);
    assert!(passes <= evaluations);
    let (value, _) = kleene_local(&mut s, 2usize, &IdentityOracle::bitset()).unwrap();
    assert!(!value);
}

use radguy::ordered::oracle::{StrategicArgumentsOracle, StrategicLocalOracle};
use radguy::ordered::strategy::{BinaryHeapStrategy, StrategyWeight};

fn weighted(
    oracle: &mut StrategicArgumentsOracle<usize, BinaryHeapStrategy<(usize, usize)>>,
    visited: &BitSet<usize>,
    system: &MockSystem,
) -> Vec<((usize, usize), u64)> {
    let got = oracle.get_updated_closure_generic::<bool, MockSystem>(visited, system);
    let mut items: Vec<((usize, usize), u64)> = got
        .iter()
        .into_iter()
        .map(|i| match i.0 {
            StrategyWeight::Num(w) => (i.1, w),
            StrategyWeight::Infinity => (i.1, u64::MAX),
        })
        .collect();
    items.sort();
    items
}

fn sorted(mut v: Vec<((usize, usize), u64)>) -> Vec<((usize, usize), u64)> {
    v.sort();
    v
}

#[test]
fn strategic_arguments_chain() {
    let (x, y, z) = (0, 1, 2);
    let s = MockSystem::new(vec![Term::Or; 3], vec![vec![y], vec![z], vec![]], vec![]);
    let full = sorted(vec![((x, x), 3), ((y, x), 2), ((z, x), 1), ((y, y), 2), ((z, y), 1), ((z, z), 1)]);
    let mut oracle = StrategicArgumentsOracle::<usize, BinaryHeapStrategy<(usize, usize)>>::new();
    let mut visited = BitSet::new();
    visited.insert(x);
    assert_eq!(weighted(&mut oracle, &visited, &s), sorted(vec![((x, x), 2), ((y, x), 1), ((y, y), 1)]));
    visited.insert(y);
    assert_eq!(weighted(&mut oracle, &visited, &s), full);
    visited.insert(z);
    assert_eq!(weighted(&mut oracle, &visited, &s), full);

    let mut oracle = StrategicArgumentsOracle::<usize, BinaryHeapStrategy<(usize, usize)>>::new();
    let mut visited = BitSet::new();
    visited.insert(z);
    assert_eq!(weighted(&mut oracle, &visited, &s), vec![((z, z), 1)]);
    visited.insert(y);
    assert_eq!(weighted(&mut oracle, &visited, &s), sorted(vec![((z, z), 1), ((y, y), 2), ((z, y), 1)]));
    visited.insert(x);
    assert_eq!(weighted(&mut oracle, &visited, &s), full);
}

#[test]
fn strategic_arguments_four_cycle() {
    let (x, y, z, w) = (0, 1, 2, 3);
    let s = MockSystem::new(vec![Term::Or; 4], vec![vec![y], vec![z], vec![w], vec![x]], vec![]);
    let mut oracle = StrategicArgumentsOracle::<usize, BinaryHeapStrategy<(usize, usize)>>::new();
    let mut visited = BitSet::new();
    visited.insert(x);
    assert_eq!(weighted(&mut oracle, &visited, &s), sorted(vec![((x, x), 2), ((y, y), 1), ((y, x), 1)]));
    visited.insert(y);
    assert_eq!(
        weighted(&mut oracle, &visited, &s),
        sorted(vec![((x, x), 3), ((y, y), 2), ((y, x), 2), ((z, z), 1), ((z, y), 1), ((z, x), 1)])
    );
    visited.insert(z);
    visited.insert(w);
    let mut all = Vec::new();
    for a in 0..4 {
        for b in 0..4 {
            all.push(((a, b), 4));
        }
    }
    assert_eq!(weighted(&mut oracle, &visited, &s), sorted(all));
}

#[test]
fn strategic_arguments_multiple_arguments_and_cache() {
    let (x, y, z) = (0, 1, 2);
    let s = MockSystem::new(vec![Term::Or; 3], vec![vec![y, z], vec![], vec![]], vec![x]);
    let expected = sorted(vec![((x, x), 3), ((y, x), 1), ((z, x), 1), ((y, y), 1), ((z, z), 1)]);
    let mut oracle = StrategicArgumentsOracle::<usize, BinaryHeapStrategy<(usize, usize)>>::new();
    let mut visited = BitSet::new();
    visited.insert(x);
    assert_eq!(weighted(&mut oracle, &visited, &s), expected);
    assert_eq!(weighted(&mut oracle, &visited, &s), expected);
    let fresh = StrategicArgumentsOracle::<usize, BinaryHeapStrategy<(usize, usize)>>::new();
    let got = fresh.get_strategy(&HashMap::new(), &BinaryHeapStrategy::new(), &s);
    assert_eq!(got.length(), 5);
}

use radguy::ordered::oracle::CountOracle;

#[test]
fn ordered_kleene_local_finds_the_fixed_point() {
    let mut s = MockSystem::new(
        vec![Term::Or, Term::Or, Term::Const(false), Term::Const(true)],
        vec![vec![1, 2], vec![3], vec![], vec![]],
        vec![0, 1, 2, 3],
    );
    let oracle = CountOracle::<BinaryHeapStrategy<usize>>::new();
    let (value, (evaluations, passes, discovered)) =
        radguy::ordered::kleene_local(&mut s, 0usize, &oracle).unwrap();
    assert!(value);
    assert!(passes <= evaluations);
    assert_eq!(discovered, 4);
    let (value, _) = radguy::ordered::kleene_local(&mut s, 2usize, &oracle).unwrap();
    assert!(!value);
}

use radguy::ordered::oracle::StrategicHeightOracle;
use radguy::ordered::strategy::StrategyItem;

fn heights(
    oracle: &mut StrategicHeightOracle<usize>,
    visited: &[usize],
    system: &MockSystem,
    relation: &BinaryHeapStrategy<(usize, usize)>,
) -> Vec<((usize, usize), Option<u64>)> {
    let visited = BitSet::from_keys(visited.to_vec());
    let got = oracle.get_updated_weights::<bool, MockSystem>(&visited, system, relation);
    let mut items: Vec<((usize, usize), Option<u64>)> = got
        .iter()
        .into_iter()
        .map(|i| match i.0 {
            StrategyWeight::Num(w) => (i.1, Some(w)),
            StrategyWeight::Infinity => (i.1, None),
        })
        .collect();
    items.sort();
    items
}

fn relation_of(items: &[((usize, usize), StrategyWeight)]) -> BinaryHeapStrategy<(usize, usize)> {
    let mut r = BinaryHeapStrategy::new();
    for (pair, weight) in items {
        r.push(StrategyItem(*weight, *pair));
    }
    r
}

#[test]
fn height_chain_counts_steps() {
    let s = MockSystem::new(vec![Term::Or; 3], vec![vec![1], vec![2], vec![]], vec![]);
    let mut oracle = StrategicHeightOracle::new();
    let got = heights(&mut oracle, &[0, 1], &s, &BinaryHeapStrategy::new());
    let mut expected = vec![
        ((0, 0), Some(0)),
        ((1, 0), Some(1)),
        ((2, 0), Some(2)),
        ((1, 1), Some(0)),
        ((2, 1), Some(1)),
        ((2, 2), Some(0)),
    ];
    expected.sort();
    assert_eq!(got, expected);
}

#[test]
fn height_counts_steps_whatever_the_relation_says() {
    let s = MockSystem::new(vec![Term::Or; 3], vec![vec![1], vec![2], vec![]], vec![]);
    let mut oracle = StrategicHeightOracle::new();
    let relation = relation_of(&[((0, 1), StrategyWeight::Num(7)), ((1, 2), StrategyWeight::Infinity)]);
    let got = heights(&mut oracle, &[0, 1], &s, &relation);
    let mut expected = vec![
        ((0, 0), Some(0)),
        ((1, 0), Some(1)),
        ((2, 0), Some(2)),
        ((1, 1), Some(0)),
        ((2, 1), Some(1)),
        ((2, 2), Some(0)),
    ];
    expected.sort();
    assert_eq!(got, expected);
}

#[test]
fn height_takes_the_shortest_walk() {
    let s = MockSystem::new(vec![Term::Or; 4], vec![vec![1, 2], vec![3], vec![3], vec![]], vec![]);
    let mut oracle = StrategicHeightOracle::new();
    let got = heights(&mut oracle, &[0, 1, 2], &s, &BinaryHeapStrategy::new());
    assert!(got.contains(&((3, 0), Some(2))));
    assert!(got.contains(&((1, 0), Some(1))));
    assert!(got.contains(&((2, 0), Some(1))));
    assert!(got.contains(&((3, 2), Some(1))));
    assert_eq!(got.len(), 9);
}

/// Visits the variables of each step in turn, with every pair of the variables discovered so far
/// in the relation at weight 100, and checks the weight of each pair of the strategy returned
/// (a later item for a pair overriding an earlier one).
fn check_heights(args: Vec<Vec<usize>>, visits: &[&[usize]], expected: &[&[((usize, usize), u64)]]) {
    let system = MockSystem::new(vec![Term::Or; args.len()], args.clone(), vec![]);
    let mut oracle = StrategicHeightOracle::new();
    let mut visited: Vec<usize> = Vec::new();
    let mut discovered: Vec<usize> = Vec::new();
    for (visit, want) in visits.iter().zip(expected.iter()) {
        visited.extend(visit.iter().copied());
        for v in &visited {
            for a in &args[*v] {
                if !discovered.contains(a) {
                    discovered.push(*a);
                }
            }
        }
        let mut relation = BinaryHeapStrategy::new();
        for x in &discovered {
            for y in &discovered {
                relation.push(StrategyItem(StrategyWeight::Num(100), (*x, *y)));
            }
        }
        let got = oracle.get_updated_weights::<bool, MockSystem>(&BitSet::from_keys(visited.clone()), &system, &relation);
        let got_map: HashMap<(usize, usize), StrategyWeight> = got.iter().into_iter().map(|i| (i.1, i.0)).collect();
        let want_map: HashMap<(usize, usize), StrategyWeight> =
            want.iter().map(|(p, w)| (*p, StrategyWeight::Num(*w))).collect();
        assert_eq!(got_map, want_map, "visiting {visit:?}");
    }
}

#[test]
fn single_variable() {
    check_heights(vec![vec![]], &[&[0]], &[&[((0, 0), 0)]]);
}

#[test]
fn chain() {
    // x = {y}, y = {}
    check_heights(vec![vec![1], vec![]], &[&[0]], &[&[((0, 0), 0), ((1, 0), 1), ((1, 1), 0)]]);
}

#[test]
fn insert_into_chain() {
    // a = {b, e}, b = {c}, c = {d}, d = {}, e = {d}
    let (a, b, c, d, e) = (0, 1, 2, 3, 4);
    check_heights(
        vec![vec![b, e], vec![c], vec![d], vec![], vec![d]],
        &[&[a], &[b], &[c], &[e]],
        &[
            &[((a, a), 0), ((b, a), 1), ((e, a), 1), ((b, b), 0), ((e, e), 0)],
            &[((a, a), 0), ((b, a), 1), ((e, a), 1), ((b, b), 0), ((e, e), 0), ((c, c), 0), ((c, a), 2), ((c, b), 1)],
            &[
                ((a, a), 0),
                ((b, a), 1),
                ((e, a), 1),
                ((b, b), 0),
                ((e, e), 0),
                ((c, c), 0),
                ((c, a), 2),
                ((c, b), 1),
                ((d, d), 0),
                ((d, a), 3),
                ((d, b), 2),
                ((d, c), 1),
            ],
            &[
                ((a, a), 0),
                ((b, a), 1),
                ((e, a), 1),
                ((b, b), 0),
                ((e, e), 0),
                ((c, c), 0),
                ((c, a), 2),
                ((c, b), 1),
                ((d, d), 0),
                ((d, a), 2),
                ((d, b), 2),
                ((d, c), 1),
                ((d, e), 1),
            ],
        ],
    );
}

#[test]
fn two_cycle() {
    // x = {y}, y = {x}
    let (x, y) = (0, 1);
    check_heights(
        vec![vec![y], vec![x]],
        &[&[x], &[y]],
        &[
            &[((x, x), 0), ((y, x), 1), ((y, y), 0)],
            &[((x, x), 0), ((y, x), 1), ((y, y), 0), ((x, y), 1)],
        ],
    );
}

#[test]
fn four_cycle() {
    // x = {y}, y = {z}, z = {k}, k = {x}
    let (x, y, z, k) = (0, 1, 2, 3);
    check_heights(
        vec![vec![y], vec![z], vec![k], vec![x]],
        &[&[x], &[y], &[z], &[k]],
        &[
            &[((x, x), 0), ((y, x), 1), ((y, y), 0)],
            &[((x, x), 0), ((y, x), 1), ((y, y), 0), ((z, x), 2), ((z, y), 1), ((z, z), 0)],
            &[
                ((x, x), 0),
                ((y, x), 1),
                ((y, y), 0),
                ((z, x), 2),
                ((z, y), 1),
                ((z, z), 0),
                ((k, x), 3),
                ((k, y), 2),
                ((k, z), 1),
                ((k, k), 0),
            ],
            &[
                ((x, x), 0),
                ((y, x), 1),
                ((y, y), 0),
                ((z, x), 2),
                ((z, y), 1),
                ((z, z), 0),
                ((k, x), 3),
                ((k, y), 2),
                ((k, z), 1),
                ((k, k), 0),
                ((x, y), 3),
                ((x, z), 2),
                ((x, k), 1),
                ((y, z), 3),
                ((y, k), 2),
                ((z, k), 3),
            ],
        ],
    );
}

#[test]
fn height_gives_each_pair_once_with_fresh_weights() {
    let s = MockSystem::new(vec![Term::Or; 2], vec![vec![1], vec![]], vec![0]);
    let mut oracle = StrategicHeightOracle::new();
    let first = heights(&mut oracle, &[0], &s, &BinaryHeapStrategy::new());
    assert_eq!(first, vec![((0, 0), Some(0)), ((1, 0), Some(1)), ((1, 1), Some(0))]);
    let second = heights(&mut oracle, &[0], &s, &BinaryHeapStrategy::new());
    assert_eq!(second, first);
    let unchanged = heights(&mut oracle, &[], &s, &BinaryHeapStrategy::new());
    assert_eq!(unchanged, second);
    let through_trait = oracle.get_strategy(&HashMap::new(), &BinaryHeapStrategy::new(), &s);
    assert_eq!(through_trait.length(), 3);
}

#[test]
fn height_keeps_what_earlier_updates_visited() {
    // x = {z}, y = {x}: visit x, then y alone; the walk from y through x to z is kept.
    let (x, y, z) = (0, 1, 2);
    let s = MockSystem::new(vec![Term::Or; 3], vec![vec![z], vec![x], vec![]], vec![]);
    let mut oracle = StrategicHeightOracle::new();
    heights(&mut oracle, &[x], &s, &BinaryHeapStrategy::new());
    let got = heights(&mut oracle, &[y], &s, &BinaryHeapStrategy::new());
    assert!(got.contains(&((z, y), Some(2))));
    assert!(got.contains(&((x, y), Some(1))));
    assert!(got.contains(&((z, x), Some(1))));
    assert_eq!(got.len(), 6);
}

use radguy::ordered::strategy::{OrxStrategy, PairHeap, Singleton, Strategy};

type OrxPairs = OrxStrategy<(usize, usize), PairHeap>;

fn orx_weighted(
    oracle: &mut StrategicArgumentsOracle<usize, OrxPairs>,
    visited: &BitSet<usize>,
    system: &MockSystem,
) -> Vec<((usize, usize), u64)> {
    let got = oracle.get_updated_closure_orx::<bool, MockSystem>(visited, system);
    let mut items: Vec<((usize, usize), u64)> = got
        .iter()
        .into_iter()
        .map(|i| match i.0 {
            StrategyWeight::Num(w) => (i.1, w),
            StrategyWeight::Infinity => (i.1, u64::MAX),
        })
        .collect();
    items.sort();
    items
}

#[test]
fn strategic_arguments_orx_chain() {
    let (x, y, z) = (0, 1, 2);
    let s = MockSystem::new(vec![Term::Or; 3], vec![vec![y], vec![z], vec![]], vec![]);
    let full = sorted(vec![((x, x), 3), ((y, x), 2), ((z, x), 1), ((y, y), 2), ((z, y), 1), ((z, z), 1)]);
    let mut oracle = StrategicArgumentsOracle::<usize, OrxPairs>::new();
    let mut visited = BitSet::new();
    visited.insert(x);
    assert_eq!(orx_weighted(&mut oracle, &visited, &s), sorted(vec![((x, x), 2), ((y, x), 1), ((y, y), 1)]));
    visited.insert(y);
    assert_eq!(orx_weighted(&mut oracle, &visited, &s), full);
    assert_eq!(orx_weighted(&mut oracle, &visited, &s), full);
    visited.insert(z);
    assert_eq!(orx_weighted(&mut oracle, &visited, &s), full);
}

#[test]
fn strategic_arguments_orx_through_the_trait() {
    let (x, y, z) = (0, 1, 2);
    let s = MockSystem::new(vec![Term::Or; 3], vec![vec![y, z], vec![], vec![]], vec![x]);
    let oracle = StrategicArgumentsOracle::<usize, OrxPairs>::new();
    let mut got = oracle.get_strategy(&HashMap::new(), &OrxPairs::new(), &s);
    assert_eq!(got.length(), 5);
    let mut order = Vec::new();
    while let Some(p) = got.extract_min() {
        order.push(p);
    }
    assert_eq!(order.len(), 5);
    assert_eq!(order[4], (x, x));
}

#[test]
fn orx_strategy_orders_updates_and_resets() {
    let mut s = OrxPairs::new();
    s.update_key_or_push((0, 1), StrategyWeight::Num(5));
    s.update_key_or_push((1, 1), StrategyWeight::Infinity);
    s.update_key_or_push((2, 1), StrategyWeight::Num(1));
    s.update_key_or_push((0, 1), StrategyWeight::Num(0));
    assert_eq!(s.length(), 3);
    let mut copy = s.clone();
    assert_eq!(copy.extract_min(), Some((0, 1)));
    assert_eq!(copy.extract_min(), Some((2, 1)));
    assert_eq!(copy.extract_min(), Some((1, 1)));
    assert_eq!(copy.extract_min(), None);
    assert_eq!(s.length(), 3);
    s.reset_weights();
    assert!(s.iter().iter().all(|i| i.0 == StrategyWeight::Infinity));
    let single = OrxPairs::singleton((3, 4));
    assert_eq!(single.iter().len(), 1);
    assert_eq!(single.iter()[0].1, (3, 4));
}

use radguy::ordered::oracle::{CombineStrategic, Constant, InverseCountOracle, Ordered, ToConstant, ToOrdered};

type Rel = BitsetRelation<usize, usize>;

fn strategy_of(items: &[((usize, usize), u64)]) -> BinaryHeapStrategy<(usize, usize)> {
    let mut r = BinaryHeapStrategy::new();
    for (pair, w) in items {
        r.push(StrategyItem(StrategyWeight::Num(*w), *pair));
    }
    r
}

fn listed(s: &BinaryHeapStrategy<(usize, usize)>) -> Vec<((usize, usize), Option<u64>)> {
    let mut v: Vec<((usize, usize), Option<u64>)> = s
        .iter()
        .into_iter()
        .map(|i| match i.0 {
            StrategyWeight::Num(w) => (i.1, Some(w)),
            StrategyWeight::Infinity => (i.1, None),
        })
        .collect();
    v.sort();
    v
}

#[test]
fn constant_and_ordered_strategic_oracles() {
    let s = MockSystem::new(vec![Term::Or; 3], vec![vec![1], vec![2], vec![]], vec![0]);
    let strategy = strategy_of(&[((1, 0), 5), ((2, 0), 1), ((0, 0), 7)]);
    let c: Constant<usize, bool, Rel, MockSystem, IdentityOracle<Rel>> =
        IdentityOracle::bitset().constant(StrategyWeight::Num(3));
    assert_eq!(
        listed(&c.get_strategy(&HashMap::new(), &strategy, &s)),
        vec![((0, 0), Some(3)), ((1, 0), Some(3)), ((2, 0), Some(3))]
    );
    let o: Ordered<usize, bool, Rel, MockSystem, IdentityOracle<Rel>> = IdentityOracle::bitset().ordered();
    assert_eq!(listed(&o.get_strategy(&HashMap::new(), &strategy, &s)), listed(&strategy));
    let smax: Ordered<usize, bool, Rel, MockSystem, SMax<Rel>> = SMax::bitset().ordered();
    let kept = smax.get_strategy(&HashMap::new(), &strategy, &s);
    assert!(kept.length() <= 3);
}

#[test]
fn composed_and_intersected_strategic_oracles() {
    let s = MockSystem::new(vec![Term::Or; 3], vec![vec![1], vec![2], vec![]], vec![0]);
    let strategy = strategy_of(&[((1, 0), 5), ((2, 0), 1), ((0, 0), 7)]);
    let count = CountOracle::<BinaryHeapStrategy<usize>>::new();
    let counted = listed(&count.get_strategy(&HashMap::new(), &strategy, &s));
    assert_eq!(counted, vec![((0, 0), Some(3)), ((1, 0), Some(0)), ((2, 0), Some(0))]);
    let o: Ordered<usize, bool, Rel, MockSystem, IdentityOracle<Rel>> = IdentityOracle::bitset().ordered();
    let composed = CountOracle::<BinaryHeapStrategy<usize>>::new().then(o);
    assert_eq!(listed(&composed.get_strategy(&HashMap::new(), &strategy, &s)), counted);
    let both = CountOracle::<BinaryHeapStrategy<usize>>::new()
        .and_by(InverseCountOracle::<BinaryHeapStrategy<usize>>::new(), |a: StrategyWeight, b: StrategyWeight| a.min(b));
    assert_eq!(listed(&both.get_strategy(&HashMap::new(), &strategy, &s)), counted);
    assert_eq!(both.name(), None);
    let named = CountOracle::<BinaryHeapStrategy<usize>>::new().and_by_with_name(
        CountOracle::<BinaryHeapStrategy<usize>>::new(),
        |a: StrategyWeight, b: StrategyWeight| a.add(b),
        "sum",
    );
    assert_eq!(named.name(), Some("sum"));
    assert_eq!(
        listed(&named.clone().get_strategy(&HashMap::new(), &strategy, &s)),
        vec![((0, 0), Some(6)), ((1, 0), Some(0)), ((2, 0), Some(0))]
    );
}

fn check_strategic_arguments(args: Vec<Vec<usize>>, visits: &[&[usize]], expected: &[&[((usize, usize), u64)]]) {
    let s = MockSystem::new(vec![Term::Or; args.len()], args, vec![]);
    let mut oracle = StrategicArgumentsOracle::<usize, BinaryHeapStrategy<(usize, usize)>>::new();
    let mut visited = BitSet::new();
    for (visit, want) in visits.iter().zip(expected.iter()) {
        for v in visit.iter() {
            visited.insert(*v);
        }
        assert_eq!(weighted(&mut oracle, &visited, &s), sorted(want.to_vec()));
    }
}

#[test]
fn strategic_arguments_single_variable() {
    check_strategic_arguments(
        vec![vec![]],
        &[&[0]],
        &[
            &[((0, 0), 1)],
        ],
    );
}

#[test]
fn strategic_arguments_direct_cycle() {
    check_strategic_arguments(
        vec![vec![0]],
        &[&[0]],
        &[
            &[((0, 0), 1)],
        ],
    );
}

#[test]
fn strategic_arguments_existing_children() {
    check_strategic_arguments(
        vec![vec![1, 2], vec![2], vec![]],
        &[&[0], &[1], &[2]],
        &[
            &[((0, 0), 3), ((1, 0), 1), ((2, 0), 1), ((1, 1), 1), ((2, 2), 1)],
            &[((0, 0), 3), ((1, 0), 2), ((2, 0), 1), ((1, 1), 2), ((2, 1), 1), ((2, 2), 1)],
            &[((0, 0), 3), ((1, 0), 2), ((2, 0), 1), ((1, 1), 2), ((2, 1), 1), ((2, 2), 1)],
        ],
    );
}

#[test]
fn strategic_arguments_four_cycle_with_center() {
    check_strategic_arguments(
        vec![vec![1], vec![2, 4], vec![3, 4], vec![0], vec![0, 3]],
        &[&[0], &[1], &[4], &[3], &[2]],
        &[
            &[((0, 0), 2), ((1, 1), 1), ((1, 0), 1)],
            &[((0, 0), 4), ((1, 0), 3), ((1, 1), 3), ((2, 0), 1), ((2, 1), 1), ((2, 2), 1), ((4, 0), 1), ((4, 1), 1), ((4, 4), 1)],
            &[((0, 0), 5), ((0, 1), 5), ((0, 4), 5), ((1, 0), 5), ((1, 1), 5), ((1, 4), 5), ((2, 0), 1), ((2, 1), 1), ((2, 2), 1), ((2, 4), 1), ((4, 0), 5), ((4, 1), 5), ((4, 4), 5), ((3, 0), 1), ((3, 1), 1), ((3, 4), 1), ((3, 3), 1)],
            &[((0, 0), 5), ((0, 1), 5), ((0, 4), 5), ((0, 3), 5), ((1, 0), 5), ((1, 1), 5), ((1, 4), 5), ((1, 3), 5), ((2, 0), 1), ((2, 1), 1), ((2, 2), 1), ((2, 4), 1), ((2, 3), 1), ((4, 0), 5), ((4, 1), 5), ((4, 4), 5), ((4, 3), 5), ((3, 0), 5), ((3, 1), 5), ((3, 4), 5), ((3, 3), 5)],
            &[((0, 0), 5), ((0, 1), 5), ((0, 2), 5), ((0, 4), 5), ((0, 3), 5), ((1, 0), 5), ((1, 1), 5), ((1, 2), 5), ((1, 4), 5), ((1, 3), 5), ((2, 0), 5), ((2, 1), 5), ((2, 2), 5), ((2, 4), 5), ((2, 3), 5), ((4, 0), 5), ((4, 1), 5), ((4, 2), 5), ((4, 4), 5), ((4, 3), 5), ((3, 0), 5), ((3, 1), 5), ((3, 2), 5), ((3, 4), 5), ((3, 3), 5)],
        ],
    );
}

#[test]
fn strategic_arguments_discover_into_existing_chain() {
    check_strategic_arguments(
        vec![vec![1, 3], vec![2], vec![], vec![4], vec![1]],
        &[&[0], &[1], &[2], &[3], &[4]],
        &[
            &[((0, 0), 3), ((1, 0), 1), ((1, 1), 1), ((3, 0), 1), ((3, 3), 1)],
            &[((0, 0), 4), ((1, 0), 2), ((1, 1), 2), ((2, 2), 1), ((2, 1), 1), ((2, 0), 1), ((3, 0), 1), ((3, 3), 1)],
            &[((0, 0), 4), ((1, 0), 2), ((1, 1), 2), ((2, 2), 1), ((2, 1), 1), ((2, 0), 1), ((3, 0), 1), ((3, 3), 1)],
            &[((0, 0), 5), ((1, 0), 2), ((1, 1), 2), ((2, 2), 1), ((2, 1), 1), ((2, 0), 1), ((3, 0), 2), ((3, 3), 2), ((4, 0), 1), ((4, 3), 1), ((4, 4), 1)],
            &[((0, 0), 5), ((1, 0), 2), ((1, 1), 2), ((1, 3), 2), ((1, 4), 2), ((2, 0), 1), ((2, 1), 1), ((2, 2), 1), ((2, 3), 1), ((2, 4), 1), ((3, 0), 4), ((3, 3), 4), ((4, 0), 3), ((4, 3), 3), ((4, 4), 3)],
        ],
    );
}

#[test]
fn strategic_arguments_ancestors_updated() {
    check_strategic_arguments(
        vec![vec![1, 2], vec![3, 4], vec![3], vec![4], vec![5], vec![]],
        &[&[0], &[1], &[2], &[3], &[4], &[5]],
        &[
            &[((0, 0), 3), ((1, 0), 1), ((1, 1), 1), ((2, 0), 1), ((2, 2), 1)],
            &[((0, 0), 5), ((1, 0), 3), ((1, 1), 3), ((2, 0), 1), ((2, 2), 1), ((3, 0), 1), ((3, 1), 1), ((3, 3), 1), ((4, 0), 1), ((4, 1), 1), ((4, 4), 1)],
            &[((0, 0), 5), ((1, 0), 3), ((1, 1), 3), ((2, 0), 2), ((2, 2), 2), ((3, 0), 1), ((3, 1), 1), ((3, 2), 1), ((3, 3), 1), ((4, 0), 1), ((4, 1), 1), ((4, 4), 1)],
            &[((0, 0), 5), ((1, 0), 3), ((1, 1), 3), ((2, 0), 3), ((2, 2), 3), ((3, 0), 2), ((3, 1), 2), ((3, 2), 2), ((3, 3), 2), ((4, 0), 1), ((4, 1), 1), ((4, 2), 1), ((4, 3), 1), ((4, 4), 1)],
            &[((0, 0), 6), ((1, 0), 4), ((1, 1), 4), ((2, 0), 4), ((2, 2), 4), ((3, 0), 3), ((3, 1), 3), ((3, 2), 3), ((3, 3), 3), ((4, 0), 2), ((4, 1), 2), ((4, 2), 2), ((4, 3), 2), ((4, 4), 2), ((5, 0), 1), ((5, 1), 1), ((5, 2), 1), ((5, 3), 1), ((5, 4), 1), ((5, 5), 1)],
            &[((0, 0), 6), ((1, 0), 4), ((1, 1), 4), ((2, 0), 4), ((2, 2), 4), ((3, 0), 3), ((3, 1), 3), ((3, 2), 3), ((3, 3), 3), ((4, 0), 2), ((4, 1), 2), ((4, 2), 2), ((4, 3), 2), ((4, 4), 2), ((5, 0), 1), ((5, 1), 1), ((5, 2), 1), ((5, 3), 1), ((5, 4), 1), ((5, 5), 1)],
        ],
    );
}

use radguy::ordered::oracle::{
    DependencyCountOracle, DependentCountOracle, InverseDependencyCountOracle, InverseDependentCountOracle,
};

/// x0 = x1 or x2, x1 = x0 or x3, x2 = x2, x3 = x4, x4 = true, x5 = x5 or x2, x6 = x5.
fn cyclic_system() -> MockSystem {
    MockSystem::new(
        vec![Term::Or, Term::Or, Term::Or, Term::Or, Term::Const(true), Term::Or, Term::Or],
        vec![vec![1, 2], vec![0, 3], vec![2], vec![4], vec![], vec![5, 2], vec![5]],
        vec![0, 1, 2, 3, 4, 5, 6],
    )
}

/// The least fixed point of `cyclic_system`.
const CYCLIC_LEAST: [bool; 7] = [true, true, false, true, true, false, false];

fn check_least_fixed_point<O: LocalOracle<usize, bool, BitsetRelation<usize, usize>, MockSystem>>(oracle: &O) {
    for (v, goal) in CYCLIC_LEAST.iter().enumerate() {
        let mut s = cyclic_system();
        let (value, (evaluations, passes)) = kleene_local(&mut s, v, oracle).unwrap();
        assert_eq!(value, *goal, "variable {v}");
        assert!(passes <= evaluations);
    }
}

#[test]
fn sound_oracles_give_the_least_fixed_point() {
    check_least_fixed_point(&SMax::bitset());
    check_least_fixed_point(&TrivialOracle::bitset());
    check_least_fixed_point(&LocalMaxR::bitset());
    check_least_fixed_point(&IdentityOracle::bitset());
    check_least_fixed_point(&TrivialOracle::bitset().and(SMax::bitset()));
    check_least_fixed_point(&LocalMaxR::bitset().and(SMax::bitset()));
    check_least_fixed_point(&LocalMaxR::bitset().and(TrivialOracle::bitset()));
    check_least_fixed_point(&TrivialOracle::bitset().then(SMax::bitset()));
    check_least_fixed_point(&TrivialOracle::bitset().then(LocalMaxR::bitset()));
    check_least_fixed_point(&SMax::bitset().then(TrivialOracle::bitset()));
    check_least_fixed_point(&SMax::bitset().then(LocalMaxR::bitset()));
    check_least_fixed_point(&LocalMaxR::bitset().then(SMax::bitset()));
    check_least_fixed_point(&LocalMaxR::bitset().then(TrivialOracle::bitset()));
}

fn check_ordered_least_fixed_point<O: StrategicLocalOracle<usize, bool, BinaryHeapStrategy<(usize, usize)>, MockSystem>>(
    oracle: &O,
) {
    for (v, goal) in CYCLIC_LEAST.iter().enumerate() {
        let mut s = cyclic_system();
        let (value, (evaluations, passes, discovered)) = radguy::ordered::kleene_local(&mut s, v, oracle).unwrap();
        assert_eq!(value, *goal, "variable {v}");
        assert!(passes <= evaluations);
        assert_eq!(discovered, 7);
    }
}

#[test]
fn sound_strategic_oracles_give_the_least_fixed_point() {
    check_ordered_least_fixed_point(&CountOracle::<BinaryHeapStrategy<usize>>::new());
    check_ordered_least_fixed_point(&InverseCountOracle::<BinaryHeapStrategy<usize>>::new());
    check_ordered_least_fixed_point(&DependencyCountOracle::<BinaryHeapStrategy<usize>>::new());
    check_ordered_least_fixed_point(&InverseDependencyCountOracle::<BinaryHeapStrategy<usize>>::new());
    check_ordered_least_fixed_point(&DependentCountOracle::<BinaryHeapStrategy<usize>>::new());
    check_ordered_least_fixed_point(&InverseDependentCountOracle::<BinaryHeapStrategy<usize>>::new());
    check_ordered_least_fixed_point(
        &CountOracle::<BinaryHeapStrategy<usize>>::new().then(InverseCountOracle::<BinaryHeapStrategy<usize>>::new()),
    );
}
