use indexical::BitSet;
use indexical::{IndexedDomain, RoaringIndexSet, SimdArcIndexSet, SimdIndexSet, SimdRefIndexSet};
use std::rc::Rc;
use std::sync::Arc;

fn mk(s: &str) -> String {
    s.to_string()
}

#[test]
fn test_indexset() {
    let d = Rc::new(IndexedDomain::from_iter(vec![mk("a"), mk("b"), mk("c")]));
    let mut s = SimdIndexSet::new(&d);
    s.insert(mk("a"));
    let b = d.index(&mk("b"));
    s.insert(b);
    assert!(s.contains(mk("a")));
    assert!(s.contains(mk("b")));
    assert_eq!(s.len(), 2);

    let collected = SimdIndexSet::from_indexical_iter(vec![mk("a"), mk("b")], &d);
    assert_eq!(collected.indices(), s.indices());
    assert_eq!(s.iter(), vec!["a", "b"]);
}

#[test]
fn test_indexset_reffamily() {
    let d = &IndexedDomain::from_iter(vec![mk("a"), mk("b"), mk("c")]);
    let mut s = SimdRefIndexSet::new(&d);
    s.insert(mk("a"));
    assert!(s.contains(mk("a")));

    let s2 = s.clone();
    assert!(std::ptr::eq(*s.domain(), *s2.domain()));
}

#[test]
fn indexset_algebra() {
    let d = Arc::new(IndexedDomain::from_iter(vec![10u32, 20, 30, 40]));
    let mut a = SimdArcIndexSet::new(&d);
    let mut b = SimdArcIndexSet::new(&d);
    assert!(a.is_empty());
    assert!(a.insert(10u32));
    assert!(!a.insert(&10u32));
    a.insert(2usize);
    b.insert(30u32);
    b.insert(40u32);
    assert!(!a.is_superset(&b));
    assert!(a.union_changed(&b));
    assert!(a.is_superset(&b));
    assert_eq!(a.indices(), vec![0, 2, 3]);
    assert!(a.subtract_changed(&b));
    assert_eq!(a.iter(), vec![&10]);
    a.union(&b);
    assert!(a.intersect_changed(&b));
    assert_eq!(a.indices(), vec![2, 3]);
    a.subtract(&b);
    assert!(a.is_empty());
    a.insert_all();
    assert_eq!(a.len(), 4);
    a.intersect(&b);
    assert_eq!(a.iter_enumerated(), vec![(2, &30), (3, &40)]);
    a.clear();
    assert_eq!(a.len(), 0);
    assert_eq!(a.inner().len(), 0);
}

#[test]
fn indexset_over_roaring() {
    let d = Rc::new(IndexedDomain::from_iter(vec![mk("p"), mk("q")]));
    let mut s = RoaringIndexSet::new(&d);
    assert!(s.insert(mk("q")));
    assert!(s.contains(1usize));
    assert!(!s.contains(mk("p")));
    assert_eq!(s.iter(), vec!["q"]);
}
