use radguy::ccs::{relabelling_logic, Action};
use std::collections::BTreeMap;

fn check(first: &[(&'static str, &'static str)], second: &[(&'static str, &'static str)], result: &[(&'static str, &'static str)]) {
    let first: BTreeMap<&str, &str> = first.iter().copied().collect();
    let second: BTreeMap<&str, &str> = second.iter().copied().collect();
    let result: BTreeMap<&str, &str> = result.iter().copied().collect();
    assert_eq!(relabelling_logic(&first, &second), result);
}

#[test]
fn test_compose_labels() {
    assert_eq!(
        relabelling_logic(&BTreeMap::from([("a", "b")]), &BTreeMap::from([("b", "c")])),
        BTreeMap::from([("a", "c"), ("b", "c")])
    );
    assert_eq!(
        relabelling_logic(&BTreeMap::from([("a", "d")]), &BTreeMap::from([("b", "c")])),
        BTreeMap::from([("a", "d"), ("b", "c")])
    );
    assert_eq!(
        relabelling_logic(&BTreeMap::from([("a", "b"), ("d", "c")]), &BTreeMap::from([("b", "c")])),
        BTreeMap::from([("a", "c"), ("b", "c"), ("d", "c")])
    );
    assert_eq!(
        relabelling_logic(&BTreeMap::from([("a", "b")]), &BTreeMap::from([("b", "c"), ("d", "c")])),
        BTreeMap::from([("a", "c"), ("b", "c"), ("d", "c")])
    );
    assert_eq!(
        relabelling_logic(&BTreeMap::from([("a", "b"), ("b", "c")]), &BTreeMap::from([("c", "d")])),
        BTreeMap::from([("a", "b"), ("b", "d"), ("c", "d")])
    );
}

#[test]
fn relabelling_with_empty_maps() {
    check(&[], &[], &[]);
    check(&[("a", "b")], &[], &[("a", "b")]);
    check(&[], &[("a", "b")], &[("a", "b")]);
}

#[test]
fn relabelling_second_overrides_first() {
    check(&[("a", "b")], &[("a", "x")], &[("a", "x")]);
    check(&[("a", "b"), ("b", "a")], &[("a", "c")], &[("a", "c"), ("b", "c")]);
}

#[test]
fn actions_synchronize_with_complements() {
    let a = Action::Label { name: "a", is_complement: false };
    let a_bar = Action::Label { name: "a", is_complement: true };
    let b_bar = Action::Label { name: "b", is_complement: true };
    assert!(a.can_syncronize(&a_bar));
    assert!(a_bar.can_syncronize(&a));
    assert!(!a.can_syncronize(&a));
    assert!(!a.can_syncronize(&b_bar));
    assert!(!Action::Tau.can_syncronize(&a));
    assert!(!a.can_syncronize(&Action::Tau));
    assert!(!Action::Tau.can_syncronize(&Action::Tau));
}
