use indexical::IndexedDomain;

fn mk(s: &str) -> String {
    s.to_string()
}

#[test]
fn test_domain() {
    let d = IndexedDomain::from_iter(vec![mk("a"), mk("b")]);
    let a = d.index(&mk("a"));
    let b = d.index(&mk("b"));
    assert_eq!(d.value(a), "a");
    assert_eq!(d.value(b), "b");
    assert!(d.contains_value(&mk("a")));
    assert!(!d.contains_value(&mk("c")));
    assert_eq!(d.len(), 2);

    assert_eq!(d.iter().iter().collect::<Vec<_>>(), vec!["a", "b"]);
}

#[test]
fn domain_round_trip_and_ensure() {
    let mut d: IndexedDomain<String> = IndexedDomain::new();
    assert!(d.is_empty());
    assert_eq!(d.insert(mk("x")), 0);
    assert_eq!(d.ensure(&mk("y")), 1);
    assert_eq!(d.ensure(&mk("x")), 0);
    assert_eq!(d.len(), 2);
    for v in ["x", "y"] {
        assert_eq!(d.value(d.index(&mk(v))), v);
    }
    assert!(d.contains_index(1));
    assert!(!d.contains_index(2));
    assert_eq!(d.indices(), 0..2);
    let pairs = d.iter_enumerated();
    assert_eq!(pairs.len(), 2);
    assert_eq!(pairs[1].0, 1);
    assert_eq!(pairs[1].1, "y");
    assert_eq!(d.as_vec().len(), 2);
}

#[test]
fn domain_duplicate_insert_keeps_first_index() {
    let mut d = IndexedDomain::from_iter(vec![5u64, 6]);
    assert_eq!(d.insert(5), 2);
    assert_eq!(d.index(&5), 0);
    assert_eq!(d.value(2), &5);
}
