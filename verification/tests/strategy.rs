use radguy::ordered::strategy::{
    Domain, HashMapStrategy, IntersectBy, Length, Retain, Singleton, Strategy, StrategyItem,
    StrategyWeight,
};
use radguy::set::bitset::BitSet;
use radguy::{Intersect, SetOps};
use std::collections::HashSet;

#[test]
fn extract_from_empty() {
    let mut s = HashMapStrategy::<usize>::default();
    assert_eq!(None, s.extract_min());
}

#[test]
fn extract_single() {
    let mut s = HashMapStrategy::singleton(0);
    assert_eq!(Some(0), s.extract_min());
    assert_eq!(None, s.extract_min());
}

#[test]
fn extract_from_number_infinity() {
    let mut s = HashMapStrategy::singleton(0);
    s.insert(1, StrategyWeight::Num(0));
    assert_eq!(Some(1), s.extract_min());
    assert_eq!(Some(0), s.extract_min());
    assert_eq!(None, s.extract_min());
}

#[test]
fn extract_from_two_numbers() {
    let mut s = HashMapStrategy::default();
    s.insert(0, StrategyWeight::Num(10));
    s.insert(1, StrategyWeight::Num(0));
    assert_eq!(Some(1), s.extract_min());
    assert_eq!(Some(0), s.extract_min());
    assert_eq!(None, s.extract_min());
}

#[test]
fn weight_order_and_sum() {
    assert!(StrategyWeight::Num(3).le(&StrategyWeight::Infinity));
    assert!(!StrategyWeight::Infinity.le(&StrategyWeight::Num(3)));
    assert!(StrategyWeight::Num(2).lt(&StrategyWeight::Num(3)));
    assert!(!StrategyWeight::Num(3).lt(&StrategyWeight::Num(3)));
    assert_eq!(StrategyWeight::Num(2).add(StrategyWeight::Num(3)), StrategyWeight::Num(5));
    assert_eq!(StrategyWeight::Num(2).add(StrategyWeight::Infinity), StrategyWeight::Infinity);
    assert_eq!(StrategyWeight::Infinity.min(StrategyWeight::Num(7)), StrategyWeight::Num(7));
}

#[test]
fn strategy_items_compare_by_weight() {
    assert!(StrategyItem(StrategyWeight::Num(1), 5usize) == StrategyItem(StrategyWeight::Num(1), 6usize));
    assert!(StrategyItem(StrategyWeight::Num(1), 5usize) != StrategyItem(StrategyWeight::Num(2), 5usize));
    let i = StrategyItem::infinite(4usize);
    assert_eq!(i.0, StrategyWeight::Infinity);
    assert_eq!(i.1, 4);
}

#[test]
fn hashmap_strategy_intersections() {
    let mut s = HashMapStrategy::default();
    s.insert(0usize, StrategyWeight::Num(1));
    s.insert(1usize, StrategyWeight::Num(2));
    s.insert(2usize, StrategyWeight::Infinity);
    let mut other = HashSet::new();
    other.insert(1usize);
    other.insert(2usize);
    other.insert(7usize);
    let t = s.clone().intersect(&other);
    assert_eq!(t.length(), 2);
    assert_eq!(t.get(&0), None);
    assert_eq!(t.get(&1), Some(StrategyWeight::Num(2)));

    let mut u = HashMapStrategy::default();
    u.insert(1usize, StrategyWeight::Num(5));
    u.insert(3usize, StrategyWeight::Num(5));
    let v = s.intersect_by(&u, |a, b| a.add(b));
    assert_eq!(v.length(), 1);
    assert_eq!(v.get(&1), Some(StrategyWeight::Num(7)));
}

#[test]
fn hashmap_strategy_retain_and_domain() {
    let mut s = HashMapStrategy::default();
    s.insert(0usize, StrategyWeight::Num(1));
    s.insert(4usize, StrategyWeight::Num(2));
    s.insert(9usize, StrategyWeight::Infinity);
    let d: BitSet<usize> = s.clone().domain();
    assert!(d.contains(&4));
    assert!(d.contains(&9));
    assert!(!d.contains(&5));
    assert_eq!(d.len(), 3);
    s.retain(|i| i.0 != StrategyWeight::Infinity);
    assert_eq!(s.length(), 2);
    assert_eq!(s.get(&9), None);
    assert_eq!(s.remove(&4), Some(StrategyWeight::Num(2)));
    assert_eq!(s.len(), 1);
}

#[test]
fn hashmap_strategy_from_items_last_wins() {
    let s = HashMapStrategy::from_items(vec![
        StrategyItem(StrategyWeight::Num(4), 1usize),
        StrategyItem(StrategyWeight::Num(2), 1usize),
        StrategyItem(StrategyWeight::Num(3), 2usize),
    ]);
    assert_eq!(s.len(), 2);
    assert_eq!(s.get(&1), Some(StrategyWeight::Num(2)));
    let mut items = s.iter();
    items.sort_by_key(|i| i.1);
    assert_eq!(items.len(), 2);
    assert_eq!(items[0].1, 1);
    assert_eq!(items[1].0, StrategyWeight::Num(3));
}

use radguy::ordered::oracle::{
    CountOracle, DependentCountOracle, InverseCountOracle, InverseDependentCountOracle,
    StrategicLocalOracle,
};
use radguy::ordered::strategy::{BinaryHeapStrategy, SliceLeft, SliceRight};
use radguy::System;
use std::collections::HashMap;

struct NoSystem;

impl System<usize, bool> for NoSystem {
    fn evaluation(&self, _key: usize, _assignment: radguy::AssignmentMap<usize, bool>) -> bool {
        false
    }

    fn with_lock(&self, _locked: bool) -> Self {
        NoSystem
    }

    fn evaluate(&self, _key: usize, _assignment: &HashMap<usize, bool>) -> bool {
        false
    }

    fn bottom_assignment(&self) -> HashMap<usize, bool> {
        HashMap::new()
    }

    fn lock(&mut self) {}

    fn unlock(&mut self) {}
}

fn heap(items: &[(u64, (usize, usize))]) -> BinaryHeapStrategy<(usize, usize)> {
    BinaryHeapStrategy::from_items(
        items.iter().map(|(w, p)| StrategyItem(StrategyWeight::Num(*w), *p)).collect(),
    )
}

fn weights(s: &BinaryHeapStrategy<(usize, usize)>) -> Vec<(StrategyWeight, (usize, usize))> {
    s.iter().into_iter().map(|i| (i.0, i.1)).collect()
}

#[test]
fn binary_heap_extracts_in_weight_order() {
    let mut s = BinaryHeapStrategy::new();
    s.push(StrategyItem(StrategyWeight::Infinity, 3usize));
    s.push(StrategyItem(StrategyWeight::Num(5), 1usize));
    s.push(StrategyItem(StrategyWeight::Num(2), 2usize));
    assert_eq!(s.length(), 3);
    assert_eq!(s.extract_min(), Some(2));
    assert_eq!(s.extract_min(), Some(1));
    assert_eq!(s.extract_min(), Some(3));
    assert_eq!(s.extract_min(), None);
    let mut single = BinaryHeapStrategy::singleton(7usize);
    assert_eq!(single.extract_min(), Some(7));
    assert_eq!(single.extract_min(), None);
}

#[test]
fn binary_heap_slices_and_intersection() {
    let s = heap(&[(1, (0, 1)), (2, (2, 1)), (3, (0, 2))]);
    let mut right = s.slice_right_ref(1usize);
    assert_eq!(right.length(), 2);
    assert_eq!(right.extract_min(), Some(0));
    assert_eq!(right.extract_min(), Some(2));
    let mut left = s.slice_left_ref(0usize);
    assert_eq!(left.extract_min(), Some(1));
    assert_eq!(left.extract_min(), Some(2));
    let moved: BinaryHeapStrategy<usize> = heap(&[(4, (5, 6))]).slice_right(6usize);
    assert_eq!(moved.length(), 1);
    let moved: BinaryHeapStrategy<usize> = heap(&[(4, (5, 6))]).slice_left(6usize);
    assert_eq!(moved.length(), 0);

    let mut values = BinaryHeapStrategy::new();
    values.push(StrategyItem(StrategyWeight::Num(1), 1usize));
    values.push(StrategyItem(StrategyWeight::Num(0), 2usize));
    let mut keep = HashSet::new();
    keep.insert(1usize);
    let mut kept = values.intersect(&keep);
    assert_eq!(kept.extract_min(), Some(1));
    assert_eq!(kept.extract_min(), None);
}

#[test]
fn count_oracles_weigh_by_slices() {
    // pairs (x, y): x = 0 appears as a right component twice, as a left component once.
    let s = heap(&[(9, (0, 1)), (9, (1, 0)), (9, (2, 0))]);
    let count = CountOracle::<BinaryHeapStrategy<usize>>::new().get_strategy(&HashMap::new(), &s, &NoSystem);
    assert_eq!(
        weights(&count),
        vec![
            (StrategyWeight::Num(2), (0, 1)),
            (StrategyWeight::Num(1), (1, 0)),
            (StrategyWeight::Num(0), (2, 0)),
        ]
    );
    let inverse = InverseCountOracle::<BinaryHeapStrategy<usize>>::new().get_strategy(&HashMap::new(), &s, &NoSystem);
    assert_eq!(weights(&inverse)[0], (StrategyWeight::Num(u64::MAX - 2), (0, 1)));
    let dependent = DependentCountOracle::<BinaryHeapStrategy<usize>>::new().get_strategy(&HashMap::new(), &s, &NoSystem);
    assert_eq!(
        weights(&dependent),
        vec![
            (StrategyWeight::Num(1), (0, 1)),
            (StrategyWeight::Num(1), (1, 0)),
            (StrategyWeight::Num(1), (2, 0)),
        ]
    );
    let inverse_dependent =
        InverseDependentCountOracle::<BinaryHeapStrategy<usize>>::new().get_strategy(&HashMap::new(), &s, &NoSystem);
    assert_eq!(weights(&inverse_dependent)[2], (StrategyWeight::Num(u64::MAX - 1), (2, 0)));
}

use radguy::ordered::strategy::LazyHeap;
use radguy::{CopiedIter, Union};

type Lazy = LazyHeap<usize, BinaryHeapStrategy<usize>>;

fn lazy(items: &[(usize, StrategyWeight)]) -> Lazy {
    LazyHeap::from_items(items.iter().map(|(v, w)| StrategyItem(*w, *v)).collect())
}

fn lazy_items(s: &Lazy) -> Vec<(usize, StrategyWeight)> {
    let mut v: Vec<(usize, StrategyWeight)> = s.copied_iter().into_iter().map(|i| (i.1, i.0)).collect();
    v.sort_by_key(|p| p.0);
    v
}

#[test]
fn lazy_heap_extracts_in_weight_order_and_drops_what_it_extracts() {
    let mut s = lazy(&[(3, StrategyWeight::Infinity), (1, StrategyWeight::Num(5)), (2, StrategyWeight::Num(2))]);
    assert_eq!(s.extract_min(), Some(2));
    assert_eq!(s.length(), 2);
    assert_eq!(s.extract_min(), Some(1));
    assert_eq!(s.length(), 1);
    assert_eq!(s.get_weight(2), None);
    assert_eq!(s.get_weight(3), Some(StrategyWeight::Infinity));
    assert_eq!(lazy_items(&s), vec![(3, StrategyWeight::Infinity)]);
    assert_eq!(s.extract_min(), Some(3));
    assert_eq!(s.length(), 0);
    assert_eq!(s.extract_min(), None);
}

#[test]
fn lazy_heap_change_rebuilds_the_heap() {
    let mut s = lazy(&[(1, StrategyWeight::Num(1)), (2, StrategyWeight::Num(2))]);
    assert_eq!(s.extract_min(), Some(1));
    s.extend_items(vec![StrategyItem(StrategyWeight::Num(7), 1)]);
    assert_eq!(s.extract_min(), Some(2));
    assert_eq!(s.extract_min(), Some(1));
    assert_eq!(s.extract_min(), None);
}

#[test]
fn lazy_heap_union_and_union_with_by() {
    let a = lazy(&[(1, StrategyWeight::Num(1)), (2, StrategyWeight::Num(9))]);
    let b = lazy(&[(2, StrategyWeight::Num(4)), (3, StrategyWeight::Num(3))]);
    let u = a.union(b);
    assert_eq!(
        lazy_items(&u),
        vec![(1, StrategyWeight::Num(1)), (2, StrategyWeight::Num(4)), (3, StrategyWeight::Num(3))]
    );
    let mut c = lazy(&[(1, StrategyWeight::Num(1)), (2, StrategyWeight::Num(9))]);
    c.union_with_by(lazy(&[(2, StrategyWeight::Num(4)), (3, StrategyWeight::Infinity)]), |x, y| x.add(y));
    assert_eq!(
        lazy_items(&c),
        vec![(1, StrategyWeight::Num(1)), (2, StrategyWeight::Num(13)), (3, StrategyWeight::Infinity)]
    );
}

#[test]
fn lazy_heap_intersections_retain_and_reset() {
    let a = lazy(&[(1, StrategyWeight::Num(1)), (2, StrategyWeight::Num(9)), (4, StrategyWeight::Num(6))]);
    let keep: HashSet<usize> = [2, 4, 5].into_iter().collect();
    let i = a.intersect(&keep);
    assert_eq!(lazy_items(&i), vec![(2, StrategyWeight::Num(9)), (4, StrategyWeight::Num(6))]);
    let other = lazy(&[(4, StrategyWeight::Num(2)), (7, StrategyWeight::Num(1))]);
    let j = i.intersect_by(&other, |x, y| x.min(y));
    assert_eq!(lazy_items(&j), vec![(4, StrategyWeight::Num(2))]);
    let mut r = lazy(&[(1, StrategyWeight::Num(1)), (2, StrategyWeight::Num(9))]);
    r.retain(|item| item.0 == StrategyWeight::Num(9));
    assert_eq!(lazy_items(&r), vec![(2, StrategyWeight::Num(9))]);
    let mut z = lazy(&[(1, StrategyWeight::Num(1)), (2, StrategyWeight::Num(9))]);
    z.reset_weights();
    assert_eq!(lazy_items(&z), vec![(1, StrategyWeight::Infinity), (2, StrategyWeight::Infinity)]);
    let d: BitSet<usize> = lazy(&[(3, StrategyWeight::Num(0)), (5, StrategyWeight::Num(1))]).domain();
    assert!(d.contains(&3) && d.contains(&5) && !d.contains(&4));
    let single = Lazy::singleton(8);
    assert_eq!(lazy_items(&single), vec![(8, StrategyWeight::Infinity)]);
    assert_eq!(Lazy::new().length(), 0);
}

#[test]
fn hashmap_strategy_round_trips_through_its_items() {
    let mut s = HashMapStrategy::<usize>::new();
    s.insert(3, radguy::ordered::strategy::StrategyWeight::Num(7));
    s.insert(5, radguy::ordered::strategy::StrategyWeight::Infinity);
    s.insert(9, radguy::ordered::strategy::StrategyWeight::Num(0));
    let t = HashMapStrategy::from_items(s.iter());
    assert_eq!(t.len(), 3);
    assert_eq!(t.get(&3), Some(radguy::ordered::strategy::StrategyWeight::Num(7)));
    assert_eq!(t.get(&5), Some(radguy::ordered::strategy::StrategyWeight::Infinity));
    assert_eq!(t.get(&9), Some(radguy::ordered::strategy::StrategyWeight::Num(0)));
    assert_eq!(t.get(&4), None);
}
