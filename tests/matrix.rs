use indexical::{IndexedDomain, SimdIndexMatrix, SimdIndexSet};
use std::rc::Rc;

fn mk(s: &str) -> String {
    s.to_string()
}

#[test]
fn test_indexmatrix() {
    let col_domain = Rc::new(IndexedDomain::from_iter(vec![mk("a"), mk("b"), mk("c")]));
    let mut mtx = SimdIndexMatrix::new(&col_domain);
    mtx.insert(0, mk("b"));
    mtx.insert(1, mk("c"));
    assert_eq!(mtx.row(&0), vec!["b"]);
    assert_eq!(mtx.row(&1), vec!["c"]);

    assert!(mtx.union_rows(0, 1));
    assert_eq!(mtx.row(&1), vec!["b", "c"]);
}

#[test]
fn union_rows_same_row_and_source_unchanged() {
    let col_domain = Rc::new(IndexedDomain::from_iter(vec![mk("a"), mk("b"), mk("c")]));
    let mut mtx = SimdIndexMatrix::new(&col_domain);
    mtx.insert(0, mk("b"));
    mtx.insert(1, mk("c"));
    assert!(mtx.union_rows(0, 1));
    assert_eq!(mtx.row(&0), vec!["b"]);
    assert!(!mtx.union_rows(1, 1));
    assert!(!mtx.union_rows(0, 1));
    assert_eq!(mtx.row(&1), vec!["b", "c"]);
}

#[test]
fn matrix_rows_and_clearing() {
    let col_domain = Rc::new(IndexedDomain::from_iter(vec![mk("a"), mk("b")]));
    let mut mtx = SimdIndexMatrix::new(&col_domain);
    assert!(mtx.row(&7u64).is_empty());
    assert!(mtx.insert(7u64, mk("a")));
    assert!(!mtx.insert(7u64, mk("a")));
    let mut extra = SimdIndexSet::new(&col_domain);
    extra.insert(mk("b"));
    assert!(mtx.union_into_row(8u64, &extra));
    assert!(!mtx.union_into_row(8u64, &extra));
    assert_eq!(mtx.rows().len(), 2);
    assert_eq!(mtx.row_set(&8u64).len(), 1);
    mtx.clear_row(&7u64);
    assert!(mtx.row(&7u64).is_empty());
    assert_eq!(mtx.row(&8u64), vec!["b"]);
    assert_eq!(mtx.rows().len(), 1);
    assert_eq!(mtx.col_domain().len(), 2);
}
