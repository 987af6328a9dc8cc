//! How a shared domain is held: the pointer families.
use vstd::prelude::*;
use std::marker::PhantomData;
use std::rc::Rc;
use std::sync::Arc;

verus! {

/// A way of holding a shared, immutable `T`.
pub trait PointerFamily<'a, T: 'a> {
    /// The pointer type of the family.
    type Pointer;

    /// The value pointed to.
    spec fn target(p: &Self::Pointer) -> T;

    /// Borrows the value pointed to.
    fn get<'b>(p: &'b Self::Pointer) -> (r: &'b T)
        ensures
            *r == Self::target(p),
    ;

    /// A second pointer to the same value.
    fn share(p: &Self::Pointer) -> (r: Self::Pointer)
        ensures
            Self::target(&r) == Self::target(p),
    ;
}

/// Relies on `Rc::clone`: the new pointer points to the same value.
#[verifier::external_body]
fn rc_clone<T>(p: &Rc<T>) -> (r: Rc<T>)
    ensures
        *r == **p,
{
    Rc::clone(p)
}

/// Relies on `Arc::clone`: the new pointer points to the same value.
#[verifier::external_body]
fn arc_clone<T>(p: &Arc<T>) -> (r: Arc<T>)
    ensures
        *r == **p,
{
    Arc::clone(p)
}

/// The family of thread-safe reference-counted pointers.
pub struct ArcFamily;

impl<'a, T: 'a> PointerFamily<'a, T> for ArcFamily {
    type Pointer = Arc<T>;

    open spec fn target(p: &Arc<T>) -> T {
        **p
    }

    fn get<'b>(p: &'b Arc<T>) -> (r: &'b T) {
        &**p
    }

    fn share(p: &Arc<T>) -> (r: Arc<T>) {
        arc_clone(p)
    }
}

/// The family of reference-counted pointers.
pub struct RcFamily;

impl<'a, T: 'a> PointerFamily<'a, T> for RcFamily {
    type Pointer = Rc<T>;

    open spec fn target(p: &Rc<T>) -> T {
        **p
    }

    fn get<'b>(p: &'b Rc<T>) -> (r: &'b T) {
        &**p
    }

    fn share(p: &Rc<T>) -> (r: Rc<T>) {
        rc_clone(p)
    }
}

/// The family of plain references that live for `'a`.
pub struct RefFamily<'a>(PhantomData<&'a ()>);

impl<'a, T: 'a> PointerFamily<'a, T> for RefFamily<'a> {
    type Pointer = &'a T;

    open spec fn target(p: &&'a T) -> T {
        **p
    }

    fn get<'b>(p: &'b &'a T) -> (r: &'b T) {
        *p
    }

    fn share(p: &&'a T) -> (r: &'a T) {
        *p
    }
}

} // verus!
