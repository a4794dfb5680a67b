use radguy::arena::{Arena, BiArena, SecondaryArena};

#[test]
fn arena_keys_follow_insertion() {
    let mut a: Arena<usize, &str> = Arena::new();
    assert!(a.is_empty());
    assert_eq!(a.insert("x"), 0);
    assert_eq!(a.insert("y"), 1);
    assert_eq!(*a.get(1), "y");
    *a.get_mut(0) = "z";
    assert_eq!(*a.get(0), "z");
    assert_eq!(a.len(), 2);
    assert_eq!(a.keys(), vec![0, 1]);
    let items: Vec<(usize, &str)> = a.iter().into_iter().map(|(k, v)| (k, *v)).collect();
    assert_eq!(items, vec![(0, "z"), (1, "y")]);
}

#[test]
fn secondary_arena_holds_sparse_values() {
    let mut s: SecondaryArena<usize, u32> = SecondaryArena::new();
    assert_eq!(s.insert(5, 50), None);
    assert_eq!(s.insert(2, 20), None);
    assert_eq!(s.insert(5, 55), Some(50));
    assert_eq!(s.get(5), Some(&55));
    assert_eq!(s.get(3), None);
    assert_eq!(s.get(100), None);
    assert!(s.contains_key(2) && !s.contains_key(0));
    assert_eq!(s.keys(), vec![2, 5]);
    let items: Vec<(usize, u32)> = s.iter().into_iter().map(|(k, v)| (k, *v)).collect();
    assert_eq!(items, vec![(2, 20), (5, 55)]);
    assert_eq!(s.take(2), Some(20));
    assert_eq!(s.take(2), None);
    assert_eq!(s.take(40), None);
    s.replace_with(5, |prev| prev.unwrap_or(0) + 1);
    s.replace_with(7, |prev| prev.unwrap_or(0) + 1);
    assert_eq!(s.get(5), Some(&56));
    assert_eq!(s.get(7), Some(&1));
    *s.get_or_insert_with(9, || 90) += 1;
    *s.get_or_insert_with(5, || 0) += 1;
    assert_eq!(s.get(9), Some(&91));
    assert_eq!(s.get(5), Some(&57));
}

#[test]
fn bi_arena_gives_each_value_one_key() {
    let mut b: BiArena<usize, &str> = BiArena::new();
    let x = b.get_or_insert_key("x");
    let y = b.get_or_insert_key("y");
    assert_eq!(b.get_or_insert_key("x"), x);
    assert_ne!(x, y);
    assert_eq!(*b.get_value(y), "y");
    assert!(b.contains_value(&"x") && !b.contains_value(&"z"));
    assert_eq!(b.len(), 2);
    assert_eq!(b.keys(), vec![0, 1]);
    assert!(!b.is_empty());
}
