use radguy::set::bitset::raw::{RawBitSet, SetMethods};
use radguy::set::bitset::{BitSet, BitsetRelation, BitsetRelationOrder};
use radguy::{
    Cartesian, CopiedIter, Diagonal, Extract, Intersect, SetOps, SliceLeft, SliceRight, Union,
    UnionWith, Without,
};

fn rel(pairs: &[(usize, usize)]) -> BitsetRelation<usize, usize> {
    BitsetRelation::from_pairs(pairs.to_vec())
}

#[test]
fn from_iter() {
    let s: BitSet<usize> = BitSet::from_keys(vec![0, 2, 3]);
    let mut expected = BitSet::new();
    expected.insert(0);
    expected.insert(2);
    expected.insert(3);
    assert_eq!(expected, s);
}

#[test]
fn from_iter_of_sets() {
    let a: BitSet<usize> = BitSet::from_keys(vec![0, 1, 4]);
    let b: BitSet<usize> = BitSet::from_keys(vec![0, 3, 5]);
    let c: BitSet<usize> = BitSet::from([8]);
    let expected: BitSet<usize> = BitSet::from_keys(vec![0, 1, 3, 4, 5, 8]);
    let flattened = [a.keys(), b.keys(), c.keys()].concat();
    assert_eq!(expected, BitSet::from_keys(flattened));
}

#[test]
fn relation_from_rights_ordered() {
    let rights = vec![
        (BitSet::from([0, 2, 4]), 0),
        (BitSet::from([1, 2, 3]), 2),
        (BitSet::from([3, 4, 5]), 3),
    ];
    let expected = rel(&[(0, 0), (2, 0), (4, 0), (1, 2), (2, 2), (3, 2), (3, 3), (4, 3), (5, 3)]);
    assert_eq!(expected, BitsetRelation::from_rights(rights));
}

#[test]
fn relation_from_rights_unordered() {
    let rights = vec![
        (BitSet::from([1, 2, 3]), 2),
        (BitSet::from([0, 2, 4]), 0),
        (BitSet::from([3, 4, 5]), 3),
    ];
    let expected = rel(&[(0, 0), (2, 0), (4, 0), (1, 2), (2, 2), (3, 2), (3, 3), (4, 3), (5, 3)]);
    assert_eq!(expected, BitsetRelation::from_rights(rights));
}

#[test]
fn relation_from_rights_hole_at_start() {
    let rights = vec![
        (BitSet::from([1, 2, 3]), 2),
        (BitSet::from([0, 2, 4]), 3),
        (BitSet::from([3, 4, 5]), 5),
    ];
    let expected = rel(&[(0, 3), (2, 3), (4, 3), (1, 2), (2, 2), (3, 2), (3, 5), (4, 5), (5, 5)]);
    assert_eq!(expected, BitsetRelation::from_rights(rights));
}

#[test]
fn relation_slice_right_right() {
    let rights = vec![
        (BitSet::from([1, 2, 3]), 2),
        (BitSet::from([0, 2, 4]), 3),
        (BitSet::from([3, 4, 5]), 5),
    ];
    let expected: BitSet<usize> = BitSet::from([3, 4, 5]);
    assert_eq!(expected, BitsetRelation::from_rights(rights).slice_right(5));
}

#[test]
fn slice_left_left() {
    let lefts = vec![
        (2, BitSet::from([1, 2, 3])),
        (3, BitSet::from([0, 2, 4])),
        (5, BitSet::from([3, 4, 5])),
    ];
    let expected: BitSet<usize> = BitSet::from([3, 4, 5]);
    assert_eq!(expected, BitsetRelation::from_lefts(lefts).slice_left(5));
}

#[test]
fn relation_cartesian_self() {
    let set: BitSet<usize> = BitSet::from([0, 1, 3]);
    let expected = rel(&[(0, 0), (0, 1), (0, 3), (1, 0), (1, 1), (1, 3), (3, 0), (3, 1), (3, 3)]);
    assert_eq!(expected, set.cartesian(&set));
}

#[test]
fn relation_cartesian_uneven() {
    let a: BitSet<usize> = BitSet::from([0, 1, 3]);
    let b: BitSet<usize> = BitSet::from([1, 2]);
    let expected = rel(&[(0, 1), (0, 2), (1, 1), (1, 2), (3, 1), (3, 2)]);
    assert_eq!(expected, a.cartesian(&b));
    let expected = rel(&[(1, 0), (2, 0), (1, 1), (2, 1), (1, 3), (2, 3)]);
    assert_eq!(expected, b.cartesian(&a));
}

#[test]
fn relation_cartesian_full() {
    let s: BitSet<usize> = BitSet::full(4);
    let expected = rel(&[
        (0, 0), (0, 1), (0, 2), (0, 3),
        (1, 0), (1, 1), (1, 2), (1, 3),
        (2, 0), (2, 1), (2, 2), (2, 3),
        (3, 0), (3, 1), (3, 2), (3, 3),
    ]);
    assert_eq!(expected, s.cartesian(&s));
}

#[test]
fn relation_intersect_truncate_left() {
    let big: BitSet<usize> = BitSet::full(5);
    let small: BitSet<usize> = BitSet::full(2);
    assert_eq!(small, big.intersect(&small));
}

#[test]
fn relation_intersect_truncate_right() {
    let big: BitSet<usize> = BitSet::full(5);
    let small: BitSet<usize> = BitSet::full(2);
    assert_eq!(small, small.clone().intersect(&big));
}

#[test]
fn relation_intersect() {
    let a: BitSet<usize> = BitSet::from([0, 2, 3]);
    let b: BitSet<usize> = BitSet::from([1, 2, 4]);
    let expected = BitSet::from([2]);
    assert_eq!(expected, a.clone().intersect(&b));
    assert_eq!(expected, b.intersect(&a));
}

#[test]
fn relation_union_with_grows() {
    let mut r = rel(&[(0, 0)]);
    r.union_with(rel(&[(0, 1), (1, 0)]));
    let expected = rel(&[(0, 0), (0, 1), (1, 0)]);
    assert_eq!(r, expected);
}

#[test]
fn without_same_order() {
    let a = rel(&[(0, 0), (1, 2), (4, 3)]);
    let b = rel(&[(1, 3), (4, 3)]);
    let expected = rel(&[(0, 0), (1, 2)]);
    assert_eq!(a.without(&b), expected);
}

#[test]
fn without_different_order() {
    let a = rel(&[(0, 0), (1, 2), (4, 3)]);
    let b = rel(&[(1, 3), (4, 3)]).transposed();
    let expected = rel(&[(0, 0), (1, 2)]);
    assert_eq!(a.without(&b), expected);
}

#[test]
fn relation_intersect_different_orders_is_set_intersection() {
    let a = rel(&[(0, 1), (2, 3), (4, 5)]);
    let b = rel(&[(2, 3), (5, 4), (0, 1)]).transposed();
    assert_eq!(b.order(), BitsetRelationOrder::LeftFirst);
    assert_eq!(a.intersect(&b), rel(&[(0, 1), (2, 3)]));
}

#[test]
fn relation_insert_reports_presence() {
    let mut r: BitsetRelation<usize, usize> = BitsetRelation::new_left();
    assert!(!r.insert((3, 7)));
    assert!(r.insert((3, 7)));
    assert!(SetOps::contains(&r, &(3, 7)));
    assert!(!SetOps::contains(&r, &(7, 3)));
    assert_eq!(SetOps::len(&r), 1);
    assert!(SetOps::remove(&mut r, &(3, 7)));
    assert!(SetOps::is_empty(&r));
}

#[test]
fn relation_diagonal_and_pairs() {
    let s: BitSet<usize> = BitSet::from([1, 4]);
    let d = s.diagonal();
    assert_eq!(d, rel(&[(1, 1), (4, 4)]));
    let mut ps = d.copied_iter();
    ps.sort();
    assert_eq!(ps, vec![(1, 1), (4, 4)]);
}

#[test]
fn bitset_insert_remove_extract() {
    let mut s: BitSet<usize> = BitSet::new();
    assert!(!s.insert(5));
    assert!(s.insert(5));
    assert_eq!(SetOps::len(&s), 1);
    let x = s.extract();
    assert_eq!(x, Some(5));
    assert_eq!(s.extract(), None);
    assert!(SetOps::is_empty(&s));
}

#[test]
fn bitset_union_without() {
    let a: BitSet<usize> = BitSet::from([1, 2]);
    let b: BitSet<usize> = BitSet::from([2, 9]);
    assert_eq!(a.clone().union(b.clone()), BitSet::from([1, 2, 9]));
    assert_eq!(a.without(&b), BitSet::from([1]));
}

#[test]
fn raw_full_and_last_one() {
    let f = RawBitSet::full(3);
    assert_eq!(f.to_vec(), vec![0, 1, 2]);
    assert_eq!(f.last_one(), 2);
    assert_eq!(RawBitSet::new().last_one(), 0);
    let mut g = RawBitSet::from_indices(vec![10, 3]);
    assert_eq!(g.len(), 2);
    g.clear();
    assert!(g.is_empty());
}
