//! Sets of domain values, stored as bit-sets over the values' indices.
use vstd::prelude::*;
use crate::bitset::{BitSet, below, lists_in_order};
use crate::domain::{IndexedDomain, IndexedValue};
use crate::pointer::PointerFamily;
use crate::ToIndex;

verus! {

/// A set of values of a shared domain, held as a bit-set over their indices.
///
/// The bit-set's capacity is the size of the domain when the set was made.
pub struct IndexSet<'a, T: IndexedValue + 'a, S: BitSet, P: PointerFamily<'a, IndexedDomain<T>>> {
    set: S,
    domain: P::Pointer,
}

impl<'a, T: IndexedValue + 'a, S: BitSet, P: PointerFamily<'a, IndexedDomain<T>>> View for IndexSet<
    'a,
    T,
    S,
    P,
> {
    type V = Set<nat>;

    /// The indices of the members.
    closed spec fn view(&self) -> Set<nat> {
        self.set.view()
    }
}

impl<'a, T: IndexedValue + 'a, S: BitSet, P: PointerFamily<'a, IndexedDomain<T>>> IndexSet<
    'a,
    T,
    S,
    P,
> {
    /// The domain that the set ranges over.
    pub closed spec fn domain_value(&self) -> IndexedDomain<T> {
        P::target(&self.domain)
    }

    /// The bit-set is well formed and sized to the domain.
    pub closed spec fn wf(&self) -> bool {
        &&& self.set.wf()
        &&& self.set.capacity() == self.domain_value()@.len()
    }

    /// Creates an empty set over `domain`.
    pub fn new(domain: &P::Pointer) -> (r: Self)
        requires
            S::fits(P::target(domain)@.len()),
        ensures
            r.wf(),
            r@ == Set::<nat>::empty(),
            r.domain_value() == P::target(domain),
    {
        let n = P::get(domain).len();
        IndexSet { set: S::empty(n), domain: P::share(domain) }
    }

    /// Creates the set of the elements of `elts` over `domain`.
    pub fn from_indexical_iter<M, E: ToIndex<T, M>>(elts: Vec<E>, domain: &P::Pointer) -> (r: Self)
        requires
            S::fits(P::target(domain)@.len()),
            forall|i: int| 0 <= i < elts@.len() ==> (#[trigger] elts@[i]).in_domain(&P::target(domain)),
        ensures
            r.wf(),
            r.domain_value() == P::target(domain),
            r@ == Set::new(
                |x: nat|
                    exists|i: int|
                        0 <= i < elts@.len() && #[trigger] elts@[i].index_in(&P::target(domain))
                            as nat == x,
            ),
    {
        let mut set = Self::new(domain);
        let ghost all = elts@;
        let ghost d = P::target(domain);
        let total = elts.len();
        let mut rest = elts;
        let mut taken: usize = 0;
        while rest.len() > 0
            invariant
                set.wf(),
                set.domain_value() == d,
                rest@.len() + taken == all.len(),
                all.len() == total,
                forall|i: int| 0 <= i < rest@.len() ==> #[trigger] rest@[i] == all[i + taken],
                forall|i: int| 0 <= i < all.len() ==> (#[trigger] all[i]).in_domain(&d),
                set@ == Set::new(
                    |x: nat| exists|i: int| 0 <= i < taken && #[trigger] all[i].index_in(&d) as nat == x,
                ),
            decreases rest@.len(),
        {
            let e = rest.remove(0);
            let ghost before = set@;
            proof {
                assert(e == all[taken as int]);
            }
            set.insert(e);
            proof {
                let nxt = Set::new(
                    |x: nat| exists|i: int| 0 <= i < taken + 1 && #[trigger] all[i].index_in(&d) as nat == x,
                );
                assert forall|x: nat| nxt.contains(x) implies set@.contains(x) by {
                    let i = choose|i: int| 0 <= i < taken + 1 && #[trigger] all[i].index_in(&d) as nat == x;
                    if i < taken {
                        assert(before.contains(x));
                    }
                }
                assert forall|x: nat| set@.contains(x) implies nxt.contains(x) by {
                    if x == all[taken as int].index_in(&d) as nat {
                        assert(all[taken as int].index_in(&d) as nat == x);
                    } else {
                        assert(before.contains(x));
                        let i = choose|i: int| 0 <= i < taken && #[trigger] all[i].index_in(&d) as nat == x;
                        assert(all[i].index_in(&d) as nat == x);
                    }
                }
                assert(set@ =~= nxt);
            }
            taken = taken + 1;
        }
        set
    }

    /// The indices of the members, in ascending order.
    pub fn indices(&self) -> (r: Vec<usize>)
        requires
            self.wf(),
        ensures
            lists_in_order(r@, self@),
    {
        self.set.iter()
    }

    /// The members, in the order of their indices.
    pub fn iter(&self) -> (r: Vec<&T>)
        requires
            self.wf(),
        ensures
            exists|ix: Seq<usize>|
                {
                    &&& lists_in_order(ix, self@)
                    &&& ix.len() == r@.len()
                    &&& forall|i: int|
                        0 <= i < r@.len() ==> (#[trigger] r@[i])@ == self.domain_value()@[ix[i] as int]
                },
    {
        let pairs = self.iter_enumerated();
        let mut out: Vec<&T> = Vec::new();
        let mut i: usize = 0;
        while i < pairs.len()
            invariant
                i <= pairs@.len(),
                out@.len() == i,
                forall|j: int| 0 <= j < i ==> (#[trigger] out@[j]) == pairs@[j].1,
            decreases pairs@.len() - i,
        {
            out.push(pairs[i].1);
            i = i + 1;
        }
        proof {
            let ix = choose|ix: Seq<usize>|
                {
                    &&& lists_in_order(ix, self@)
                    &&& ix.len() == pairs@.len()
                    &&& forall|i: int|
                        0 <= i < pairs@.len() ==> (#[trigger] pairs@[i]).0 == ix[i]
                            && pairs@[i].1@ == self.domain_value()@[ix[i] as int]
                };
            assert forall|i: int| 0 <= i < out@.len() implies (#[trigger] out@[i])@
                == self.domain_value()@[ix[i] as int] by {
                assert(out@[i] == pairs@[i].1);
            }
        }
        out
    }

    /// The members with their indices, in the order of their indices.
    pub fn iter_enumerated(&self) -> (r: Vec<(usize, &T)>)
        requires
            self.wf(),
        ensures
            exists|ix: Seq<usize>|
                {
                    &&& lists_in_order(ix, self@)
                    &&& ix.len() == r@.len()
                    &&& forall|i: int|
                        0 <= i < r@.len() ==> (#[trigger] r@[i]).0 == ix[i]
                            && r@[i].1@ == self.domain_value()@[ix[i] as int]
                },
    {
        proof {
            self.set.lemma_members_bounded();
        }
        let ix = self.set.iter();
        let d = P::get(&self.domain);
        let mut out: Vec<(usize, &T)> = Vec::new();
        let mut i: usize = 0;
        while i < ix.len()
            invariant
                i <= ix@.len(),
                lists_in_order(ix@, self@),
                self@.subset_of(below(self.domain_value()@.len())),
                *d == self.domain_value(),
                out@.len() == i,
                forall|j: int|
                    0 <= j < i ==> (#[trigger] out@[j]).0 == ix@[j] && out@[j].1@
                        == self.domain_value()@[ix@[j] as int],
            decreases ix@.len() - i,
        {
            proof {
                assert(self@.contains(ix@[i as int] as nat));
            }
            out.push((ix[i], d.value(ix[i])));
            i = i + 1;
        }
        out
    }

    /// Returns true if the element designated by `index` is a member.
    pub fn contains<M, E: ToIndex<T, M>>(&self, index: E) -> (r: bool)
        requires
            self.wf(),
            index.in_domain(&self.domain_value()),
        ensures
            r == self@.contains(index.index_in(&self.domain_value()) as nat),
    {
        let elem = index.to_index(P::get(&self.domain));
        self.set.contains(elem)
    }

    /// The number of members.
    pub fn len(&self) -> (r: usize)
        requires
            self.wf(),
        ensures
            r == self@.len(),
    {
        self.set.len()
    }

    /// Returns true if the set has no members.
    pub fn is_empty(&self) -> (r: bool)
        requires
            self.wf(),
        ensures
            r == (self@ == Set::<nat>::empty()),
    {
        self.set.is_empty()
    }

    /// Returns true if every member of `other` is a member of `self`.
    pub fn is_superset(&self, other: &Self) -> (r: bool)
        requires
            self.wf(),
            other.wf(),
            self.domain_value()@.len() == other.domain_value()@.len(),
        ensures
            r == other@.subset_of(self@),
    {
        self.set.superset(&other.set)
    }

    /// Adds the element designated by `elt`, returning true if the set changed.
    pub fn insert<M, E: ToIndex<T, M>>(&mut self, elt: E) -> (r: bool)
        requires
            old(self).wf(),
            elt.in_domain(&old(self).domain_value()),
        ensures
            final(self).wf(),
            final(self).domain_value() == old(self).domain_value(),
            final(self)@ == old(self)@.insert(elt.index_in(&old(self).domain_value()) as nat),
            r == !old(self)@.contains(elt.index_in(&old(self).domain_value()) as nat),
    {
        let elt = elt.to_index(P::get(&self.domain));
        self.set.insert(elt)
    }

    /// Adds each member of `other`.
    pub fn union(&mut self, other: &Self)
        requires
            old(self).wf(),
            other.wf(),
            old(self).domain_value()@.len() == other.domain_value()@.len(),
        ensures
            final(self).wf(),
            final(self).domain_value() == old(self).domain_value(),
            final(self)@ == old(self)@.union(other@),
    {
        self.set.union(&other.set);
    }

    /// Adds each member of `other`, returning true if the set changed.
    pub fn union_changed(&mut self, other: &Self) -> (r: bool)
        requires
            old(self).wf(),
            other.wf(),
            old(self).domain_value()@.len() == other.domain_value()@.len(),
        ensures
            final(self).wf(),
            final(self).domain_value() == old(self).domain_value(),
            final(self)@ == old(self)@.union(other@),
            r == (final(self)@ != old(self)@),
    {
        self.set.union_changed(&other.set)
    }

    /// Adds each member of `other`, returning true if the set changed: the join
    /// of two dataflow facts.
    pub fn join(&mut self, other: &Self) -> (r: bool)
        requires
            old(self).wf(),
            other.wf(),
            old(self).domain_value()@.len() == other.domain_value()@.len(),
        ensures
            final(self).wf(),
            final(self).domain_value() == old(self).domain_value(),
            final(self)@ == old(self)@.union(other@),
            r == (final(self)@ != old(self)@),
    {
        self.union_changed(other)
    }

    /// Removes each member of `other`.
    pub fn subtract(&mut self, other: &Self)
        requires
            old(self).wf(),
            other.wf(),
            old(self).domain_value()@.len() == other.domain_value()@.len(),
        ensures
            final(self).wf(),
            final(self).domain_value() == old(self).domain_value(),
            final(self)@ == old(self)@.difference(other@),
    {
        self.set.subtract(&other.set)
    }

    /// Removes each member of `other`, returning true if the set changed.
    pub fn subtract_changed(&mut self, other: &Self) -> (r: bool)
        requires
            old(self).wf(),
            other.wf(),
            old(self).domain_value()@.len() == other.domain_value()@.len(),
        ensures
            final(self).wf(),
            final(self).domain_value() == old(self).domain_value(),
            final(self)@ == old(self)@.difference(other@),
            r == (final(self)@ != old(self)@),
    {
        self.set.subtract_changed(&other.set)
    }

    /// Removes each member that `other` lacks.
    pub fn intersect(&mut self, other: &Self)
        requires
            old(self).wf(),
            other.wf(),
            old(self).domain_value()@.len() == other.domain_value()@.len(),
        ensures
            final(self).wf(),
            final(self).domain_value() == old(self).domain_value(),
            final(self)@ == old(self)@.intersect(other@),
    {
        self.set.intersect(&other.set)
    }

    /// Removes each member that `other` lacks, returning true if the set changed.
    pub fn intersect_changed(&mut self, other: &Self) -> (r: bool)
        requires
            old(self).wf(),
            other.wf(),
            old(self).domain_value()@.len() == other.domain_value()@.len(),
        ensures
            final(self).wf(),
            final(self).domain_value() == old(self).domain_value(),
            final(self)@ == old(self)@.intersect(other@),
            r == (final(self)@ != old(self)@),
    {
        self.set.intersect_changed(&other.set)
    }

    /// Makes every index of the domain a member.
    pub fn insert_all(&mut self)
        requires
            old(self).wf(),
        ensures
            final(self).wf(),
            final(self).domain_value() == old(self).domain_value(),
            final(self)@ == below(old(self).domain_value()@.len()),
    {
        self.set.insert_all()
    }

    /// Removes every member.
    pub fn clear(&mut self)
        requires
            old(self).wf(),
        ensures
            final(self).wf(),
            final(self).domain_value() == old(self).domain_value(),
            final(self)@ == Set::<nat>::empty(),
    {
        self.set.clear();
    }

    /// The bit-set beneath.
    pub fn inner(&self) -> (r: &S)
        requires
            self.wf(),
        ensures
            r.wf(),
            r.view() == self@,
            r.capacity() == self.domain_value()@.len(),
    {
        &self.set
    }

    /// The pointer to the domain.
    pub fn domain(&self) -> (r: &P::Pointer)
        ensures
            P::target(r) == self.domain_value(),
    {
        &self.domain
    }
}

impl<'a, T: IndexedValue + 'a, S: BitSet, P: PointerFamily<'a, IndexedDomain<T>>> Clone for IndexSet<
    'a,
    T,
    S,
    P,
> {
    /// A copy of the set, over the same domain.
    fn clone(&self) -> (r: Self)
        ensures
            r.wf() == self.wf(),
            r@ == self@,
            r.domain_value() == self.domain_value(),
    {
        IndexSet { set: self.set.duplicate(), domain: P::share(&self.domain) }
    }
}

} // verus!
