use radguy::boolean::{BoolExtension, StrategicBoolExtension};
use radguy::oracle::{ArgumentsOracle, IdentityOracle, LocalMaxR, SMax, TrivialOracle, WeightedDepOracle};
use radguy::ordered::oracle::{CountOracle, InverseCountOracle, StrategicHeightOracle};
use radguy::set::bitset::{BitSet, BitsetRelation};
use std::collections::HashSet;

#[test]
fn local_oracles_are_shown_by_their_names() {
    assert_eq!(TrivialOracle::<HashSet<(usize, usize)>>::hashset().name(), "Trivial:hashset");
    assert_eq!(TrivialOracle::<BitsetRelation<usize, usize>>::bitset().name(), "Trivial:bitset");
    assert_eq!(IdentityOracle::<HashSet<(usize, usize)>>::hashset().name(), "Identity:hashset");
    assert_eq!(IdentityOracle::<BitsetRelation<usize, usize>>::bitset().name(), "Identity:bitset");
    assert_eq!(LocalMaxR::<HashSet<usize>>::hashset().name(), "LocalMaxR:hashset");
    assert_eq!(LocalMaxR::<BitSet<usize>>::bitset().name(), "LocalMaxR:bitset");
    assert_eq!(SMax::<HashSet<(usize, usize)>>::hashset().name(), "SMax:hashset");
    assert_eq!(SMax::<BitsetRelation<usize, usize>>::bitset().name(), "SMax:bitset");
    assert_eq!(WeightedDepOracle::<HashSet<(usize, usize)>>::hashset().name(), "WeightedDep:hashset");
    assert_eq!(WeightedDepOracle::<BitsetRelation<usize, usize>>::bitset().name(), "WeightedDep:bitset");
    assert_eq!(ArgumentsOracle::<usize, BitSet<usize>, BitsetRelation<usize, usize>>::bitset().name(), "Args:bitset");
}

#[test]
fn extensions_and_strategic_oracles_are_shown_by_their_names() {
    assert_eq!(BoolExtension::<usize, String, HashSet<usize>>::hashset().name(), "Bool:hashset");
    assert_eq!(BoolExtension::<usize, String, BitSet<usize>>::bitset().name(), "Bool:bitset");
    assert_eq!(StrategicBoolExtension::<HashSet<usize>>::hashset().name(), "StrategicBool:hashset");
    assert_eq!(StrategicBoolExtension::<BitSet<usize>>::bitset().name(), "StrategicBool:bitset");
    assert_eq!(CountOracle::<BitSet<usize>>::default().name(), "Count");
    assert_eq!(InverseCountOracle::<BitSet<usize>>::default().name(), "Count⁻¹");
    assert_eq!(StrategicHeightOracle::<usize>::new().name(), "height_c");
}
