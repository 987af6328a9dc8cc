use indexical::bitset::BitSet;
use indexical::{RoaringSet, SimdBitset, SimdSetIter};

fn impl_test<T: BitSet>() {
    let mut bv = T::empty(10);
    assert!(!bv.contains(0));

    bv.insert(0);
    bv.insert(5);
    assert!(bv.contains(0));
    assert!(bv.contains(5));
    assert!(!bv.contains(1));
    assert_eq!(bv.iter(), vec![0, 5]);
    assert_eq!(bv.len(), 2);

    let mut bv2 = T::empty(10);
    bv2.insert(5);
    assert!(bv.superset(&bv2));
    bv2.insert(1);
    assert!(!bv.superset(&bv2));

    assert!(bv.intersect_changed(&bv2));
    assert!(!bv.intersect_changed(&bv2));
    assert_eq!(bv.iter(), vec![5]);

    let mut bv = T::empty(64 * 4 + 1);
    bv.insert(64 * 4);
    assert!(!bv.contains(64 * 4 - 1));
    assert!(bv.contains(64 * 4));

    let mut bv = T::empty(10);
    bv.insert(0);
    bv.insert(1);
    let mut bv2 = T::empty(10);
    bv2.insert(0);
    bv.subtract(&bv2);
    assert_eq!(bv.iter(), vec![1]);

    bv.invert();
    assert_eq!(bv.iter(), vec![0, 2, 3, 4, 5, 6, 7, 8, 9]);

    bv.clear();
    assert_eq!(bv.iter(), Vec::<usize>::new());

    let mut bv = T::empty(10);
    bv.insert(0);
    assert!(bv.contains(0));
    bv.remove(0);
    assert!(!bv.contains(0));
}

#[test]
fn simd_test_simd_bitset() {
    const N: usize = 64 * 7 + 63;
    let mut bitset = SimdBitset::empty(N);

    for i in 0..N {
        bitset.clear();
        for j in 0..i {
            bitset.insert(j);
        }
        assert_eq!(bitset.iter(), (0..i).collect::<Vec<_>>());
        assert_eq!(bitset.len(), i);
    }

    impl_test::<SimdBitset>();
}

#[test]
fn roar_test_roaring() {
    impl_test::<RoaringSet>();
}

#[test]
fn roaring_test_roaring() {
    impl_test::<RoaringSet>();
}

fn empty_has_nothing<T: BitSet>(n: usize) {
    let s = T::empty(n);
    for i in 0..n {
        assert!(!s.contains(i));
    }
    assert!(s.is_empty());
    assert_eq!(s.len(), 0);
}

#[test]
fn empty_set_contains_no_index() {
    for n in [0, 1, 63, 64, 65, 255, 256, 257, 1000] {
        empty_has_nothing::<SimdBitset>(n);
        empty_has_nothing::<RoaringSet>(n);
    }
}

fn insert_twice<T: BitSet>() {
    let mut s = T::empty(300);
    assert!(s.insert(270));
    assert!(!s.insert(270));
    assert_eq!(s.iter(), vec![270]);
    assert!(s.remove(270));
    assert!(!s.remove(270));
    assert!(s.is_empty());
}

#[test]
fn insert_twice_reports_change_once() {
    insert_twice::<SimdBitset>();
    insert_twice::<RoaringSet>();
}

fn superset_by_count<T: BitSet>() {
    let mut a = T::empty(130);
    let mut b = T::empty(130);
    for i in [1, 64, 129] {
        a.insert(i);
    }
    b.insert(64);
    let mut u = a.duplicate();
    u.union(&b);
    assert!(a.superset(&b));
    assert_eq!(u.len(), a.len());
    b.insert(2);
    let mut u = a.duplicate();
    u.union(&b);
    assert!(!a.superset(&b));
    assert_ne!(u.len(), a.len());
    assert!(b.superset(&T::empty(130)));
}

#[test]
fn superset_matches_union_count() {
    superset_by_count::<SimdBitset>();
    superset_by_count::<RoaringSet>();
}

fn subtract_by_complement<T: BitSet>() {
    let mut a = T::empty(300);
    let mut b = T::empty(300);
    for i in [0, 3, 64, 200, 299] {
        a.insert(i);
    }
    for i in [3, 100, 299] {
        b.insert(i);
    }
    let mut left = a.duplicate();
    left.subtract(&b);
    let mut c = b.duplicate();
    c.invert();
    let mut right = a.duplicate();
    right.intersect(&c);
    assert_eq!(left.iter(), right.iter());
    assert_eq!(left.iter(), vec![0, 64, 200]);
}

#[test]
fn subtract_equals_intersect_with_inverse() {
    subtract_by_complement::<SimdBitset>();
    subtract_by_complement::<RoaringSet>();
}

fn changed_flags<T: BitSet>() {
    let mut a = T::empty(70);
    let mut b = T::empty(70);
    a.insert(1);
    b.insert(69);
    assert!(a.union_changed(&b));
    assert!(!a.union_changed(&b));
    assert_eq!(a.iter(), vec![1, 69]);
    assert!(a.subtract_changed(&b));
    assert!(!a.subtract_changed(&b));
    assert_eq!(a.iter(), vec![1]);
    let mut c = T::empty(70);
    c.copy_from(&a);
    assert_eq!(c.iter(), vec![1]);
    c.insert_all();
    assert_eq!(c.len(), 70);
    assert_eq!(c.iter(), (0..70).collect::<Vec<_>>());
    c.invert();
    assert!(c.is_empty());
}

#[test]
fn changed_variants_and_fills() {
    changed_flags::<SimdBitset>();
    changed_flags::<RoaringSet>();
}

#[test]
fn invert_keeps_bits_beyond_capacity_clear() {
    let mut s = SimdBitset::empty(10);
    s.invert();
    assert_eq!(s.len(), 10);
    assert_eq!(s.iter(), (0..10).collect::<Vec<_>>());
    let mut t = SimdBitset::empty(257);
    t.insert_all();
    assert_eq!(t.len(), 257);
    assert_eq!(t.iter().last(), Some(&256));
}

#[test]
fn chunk_coordinates() {
    let s = SimdBitset::empty(1000);
    assert_eq!(SimdBitset::chunk_size(), 256);
    assert_eq!(SimdBitset::lane_size(), 64);
    assert_eq!(s.coords(0), (0, 0, 0));
    assert_eq!(s.coords(63), (0, 0, 63));
    assert_eq!(s.coords(64), (0, 1, 0));
    assert_eq!(s.coords(256), (1, 0, 0));
    assert_eq!(s.coords(64 * 7 + 5), (1, 3, 5));
}

#[test]
fn cursor_walks_members_in_order() {
    let mut s = SimdBitset::empty(1100);
    for i in [3, 700, 1099] {
        s.insert(i);
    }
    let mut it = SimdSetIter::new(&s);
    assert_eq!(it.next(), Some(3));
    assert_eq!(it.next(), Some(700));
    assert_eq!(it.next(), Some(1099));
    assert_eq!(it.next(), None);
    let e = SimdBitset::empty(0);
    let mut it = SimdSetIter::new(&e);
    assert_eq!(it.next(), None);
}

#[test]
fn roaring_index_conversion() {
    assert_eq!(indexical::roar::to_usize(7), 7usize);
}
