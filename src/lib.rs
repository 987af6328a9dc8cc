//! Indexed sets: sets of values drawn from a fixed, numbered universe, backed by
//! dense bit-sets.
//!
//! An [`IndexedDomain`] numbers the values of a universe. An [`IndexSet`] is a
//! bit-set over the indices of a shared domain, and an [`IndexMatrix`] maps row
//! keys to such sets. The bit-sets beneath them implement [`BitSet`]: the dense
//! [`SimdBitset`], or the compressed [`RoaringSet`].
use vstd::prelude::*;

pub mod bits;
pub mod bitset;
pub mod domain;
pub mod matrix;
pub mod pointer;
pub mod roar;
pub mod set;
pub mod simd;

pub use bitset::BitSet;
pub use domain::{IndexedDomain, IndexedValue};
pub use matrix::IndexMatrix;
pub use pointer::{ArcFamily, PointerFamily, RcFamily, RefFamily};
pub use roar::RoaringSet;
pub use set::IndexSet;
pub use simd::{SimdBitset, SimdSetIter};

verus! {

/// [`IndexSet`] over the dense bit-set, holding its domain by [`std::rc::Rc`].
pub type SimdIndexSet<T> = IndexSet<'static, T, SimdBitset, RcFamily>;

/// [`IndexSet`] over the dense bit-set, holding its domain by [`std::sync::Arc`].
pub type SimdArcIndexSet<T> = IndexSet<'static, T, SimdBitset, ArcFamily>;

/// [`IndexSet`] over the dense bit-set, holding its domain by reference.
pub type SimdRefIndexSet<'a, T> = IndexSet<'a, T, SimdBitset, RefFamily<'a>>;

/// [`IndexMatrix`] over the dense bit-set, holding its domain by [`std::rc::Rc`].
pub type SimdIndexMatrix<R, C> = IndexMatrix<'static, R, C, SimdBitset, RcFamily>;

/// [`IndexMatrix`] over the dense bit-set, holding its domain by [`std::sync::Arc`].
pub type SimdArcIndexMatrix<R, C> = IndexMatrix<'static, R, C, SimdBitset, ArcFamily>;

/// [`IndexMatrix`] over the dense bit-set, holding its domain by reference.
pub type SimdRefIndexMatrix<'a, R, C> = IndexMatrix<'a, R, C, SimdBitset, RefFamily<'a>>;

/// [`IndexSet`] over the compressed bit-set, holding its domain by [`std::rc::Rc`].
pub type RoaringIndexSet<T> = IndexSet<'static, T, RoaringSet, RcFamily>;

/// [`IndexMatrix`] over the compressed bit-set, holding its domain by [`std::rc::Rc`].
pub type RoaringIndexMatrix<R, C> = IndexMatrix<'static, R, C, RoaringSet, RcFamily>;

/// Selects the conversion of an owned value in [`ToIndex`].
pub struct MarkerOwned;

/// Selects the conversion of a borrowed value in [`ToIndex`].
pub struct MarkerRef;

/// Selects the conversion of an index in [`ToIndex`].
pub struct MarkerIndex;

/// Something that designates an index of a domain: a value of the domain, or an
/// index itself.
///
/// `M` tells the cases apart: [`MarkerOwned`], [`MarkerRef`] or [`MarkerIndex`].
pub trait ToIndex<T: IndexedValue, M> {
    /// Whether `self` designates an index of `domain`.
    spec fn in_domain(&self, domain: &IndexedDomain<T>) -> bool;

    /// The index that `self` designates in `domain`.
    spec fn index_in(&self, domain: &IndexedDomain<T>) -> int;

    /// The index that `self` designates in `domain`.
    fn to_index(self, domain: &IndexedDomain<T>) -> (r: usize)
        requires
            self.in_domain(domain),
        ensures
            r == self.index_in(domain),
            r < domain@.len(),
    ;
}

impl<T: IndexedValue> ToIndex<T, MarkerOwned> for T {
    open spec fn in_domain(&self, domain: &IndexedDomain<T>) -> bool {
        domain@.contains(self@)
    }

    open spec fn index_in(&self, domain: &IndexedDomain<T>) -> int {
        domain.index_of(self@)
    }

    fn to_index(self, domain: &IndexedDomain<T>) -> (r: usize) {
        domain.index(&self)
    }
}

impl<'v, T: IndexedValue> ToIndex<T, MarkerRef> for &'v T {
    open spec fn in_domain(&self, domain: &IndexedDomain<T>) -> bool {
        domain@.contains((**self)@)
    }

    open spec fn index_in(&self, domain: &IndexedDomain<T>) -> int {
        domain.index_of((**self)@)
    }

    fn to_index(self, domain: &IndexedDomain<T>) -> (r: usize) {
        domain.index(self)
    }
}

impl<T: IndexedValue> ToIndex<T, MarkerIndex> for usize {
    open spec fn in_domain(&self, domain: &IndexedDomain<T>) -> bool {
        *self < domain@.len()
    }

    open spec fn index_in(&self, domain: &IndexedDomain<T>) -> int {
        *self as int
    }

    fn to_index(self, domain: &IndexedDomain<T>) -> (r: usize) {
        self
    }
}

} // verus!
