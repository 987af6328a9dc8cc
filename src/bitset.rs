//! The operations that every bit-set beneath the indexed collections provides.
use vstd::prelude::*;

verus! {

/// The indices `0..n`.
pub open spec fn below(n: nat) -> Set<nat> {
    Set::new(|i: nat| i < n)
}

/// There are `n` indices below `n`.
pub proof fn lemma_below_len(n: nat)
    ensures
        below(n).finite(),
        below(n).len() == n,
    decreases n,
{
    if n == 0 {
        assert(below(0) =~= Set::<nat>::empty());
    } else {
        lemma_below_len((n - 1) as nat);
        assert(below(n) =~= below((n - 1) as nat).insert((n - 1) as nat));
    }
}

/// `v` lists the members of `s` in strictly ascending order.
pub open spec fn lists_in_order(v: Seq<usize>, s: Set<nat>) -> bool {
    &&& forall|a: int, b: int| 0 <= a < b < v.len() ==> v[a] < v[b]
    &&& forall|a: int| 0 <= a < v.len() ==> s.contains(#[trigger] v[a] as nat)
    &&& forall|x: nat| s.contains(x) ==> exists|a: int| 0 <= a < v.len() && #[trigger] v[a] == x
}

/// Interface of a fixed-capacity set of indices, one flag per index.
///
/// All operations on two sets require them to have the same capacity.
pub trait BitSet: Sized {
    /// The internal invariant of the set.
    spec fn wf(&self) -> bool;

    /// The capacity: members are drawn from `0..capacity()`.
    spec fn capacity(&self) -> nat;

    /// The members of the set.
    spec fn view(&self) -> Set<nat>;

    /// Whether this kind of set can be created with capacity `size`.
    spec fn fits(size: nat) -> bool;

    /// Members lie below the capacity, so there are finitely many.
    proof fn lemma_members_bounded(&self)
        requires
            self.wf(),
        ensures
            self.view().subset_of(below(self.capacity())),
            self.view().finite(),
    ;

    /// Constructs a set with capacity `size` and no members.
    fn empty(size: usize) -> (r: Self)
        requires
            Self::fits(size as nat),
        ensures
            r.wf(),
            r.capacity() == size,
            r.view() == Set::<nat>::empty(),
    ;

    /// A copy of the set.
    fn duplicate(&self) -> (r: Self)
        ensures
            r.wf() == self.wf(),
            r.capacity() == self.capacity(),
            r.view() == self.view(),
    ;

    /// Adds `index`, returning true if it was not a member before.
    fn insert(&mut self, index: usize) -> (r: bool)
        requires
            old(self).wf(),
            index < old(self).capacity(),
        ensures
            final(self).wf(),
            final(self).capacity() == old(self).capacity(),
            final(self).view() == old(self).view().insert(index as nat),
            r == !old(self).view().contains(index as nat),
    ;

    /// Removes `index`, returning true if it was a member before.
    fn remove(&mut self, index: usize) -> (r: bool)
        requires
            old(self).wf(),
            index < old(self).capacity(),
        ensures
            final(self).wf(),
            final(self).capacity() == old(self).capacity(),
            final(self).view() == old(self).view().remove(index as nat),
            r == old(self).view().contains(index as nat),
    ;

    /// Returns true if `index` is a member.
    fn contains(&self, index: usize) -> (r: bool)
        requires
            self.wf(),
            index < self.capacity(),
        ensures
            r == self.view().contains(index as nat),
    ;

    /// The members in ascending order.
    fn iter(&self) -> (r: Vec<usize>)
        requires
            self.wf(),
        ensures
            lists_in_order(r@, self.view()),
    ;

    /// The number of members.
    fn len(&self) -> (r: usize)
        requires
            self.wf(),
        ensures
            r == self.view().len(),
    ;

    /// Returns true if the set has no members.
    fn is_empty(&self) -> (r: bool)
        requires
            self.wf(),
        ensures
            r == (self.view() == Set::<nat>::empty()),
    {
        let n = self.len();
        proof {
            self.lemma_members_bounded();
            if n == 0 {
                Set::lemma_len0_is_empty(self.view());
            }
        }
        n == 0
    }

    /// Adds every member of `other`.
    fn union(&mut self, other: &Self)
        requires
            old(self).wf(),
            other.wf(),
            old(self).capacity() == other.capacity(),
        ensures
            final(self).wf(),
            final(self).capacity() == old(self).capacity(),
            final(self).view() == old(self).view().union(other.view()),
    ;

    /// Adds every member of `other`, returning true if the set changed.
    fn union_changed(&mut self, other: &Self) -> (r: bool)
        requires
            old(self).wf(),
            other.wf(),
            old(self).capacity() == other.capacity(),
        ensures
            final(self).wf(),
            final(self).capacity() == old(self).capacity(),
            final(self).view() == old(self).view().union(other.view()),
            r == (final(self).view() != old(self).view()),
    {
        let ghost before = self.view();
        proof {
            self.lemma_members_bounded();
            other.lemma_members_bounded();
        }
        let n = self.len();
        self.union(other);
        let m = self.len();
        proof {
            lemma_len_differs_iff(before, self.view());
        }
        n != m
    }

    /// Removes every member that `other` lacks.
    fn intersect(&mut self, other: &Self)
        requires
            old(self).wf(),
            other.wf(),
            old(self).capacity() == other.capacity(),
        ensures
            final(self).wf(),
            final(self).capacity() == old(self).capacity(),
            final(self).view() == old(self).view().intersect(other.view()),
    ;

    /// Removes every member that `other` lacks, returning true if the set changed.
    fn intersect_changed(&mut self, other: &Self) -> (r: bool)
        requires
            old(self).wf(),
            other.wf(),
            old(self).capacity() == other.capacity(),
        ensures
            final(self).wf(),
            final(self).capacity() == old(self).capacity(),
            final(self).view() == old(self).view().intersect(other.view()),
            r == (final(self).view() != old(self).view()),
    {
        let ghost before = self.view();
        proof {
            self.lemma_members_bounded();
        }
        let n = self.len();
        self.intersect(other);
        let m = self.len();
        proof {
            self.lemma_members_bounded();
            lemma_len_differs_iff(self.view(), before);
        }
        n != m
    }

    /// Removes every member of `other`.
    fn subtract(&mut self, other: &Self)
        requires
            old(self).wf(),
            other.wf(),
            old(self).capacity() == other.capacity(),
        ensures
            final(self).wf(),
            final(self).capacity() == old(self).capacity(),
            final(self).view() == old(self).view().difference(other.view()),
    ;

    /// Removes every member of `other`, returning true if the set changed.
    fn subtract_changed(&mut self, other: &Self) -> (r: bool)
        requires
            old(self).wf(),
            other.wf(),
            old(self).capacity() == other.capacity(),
        ensures
            final(self).wf(),
            final(self).capacity() == old(self).capacity(),
            final(self).view() == old(self).view().difference(other.view()),
            r == (final(self).view() != old(self).view()),
    {
        let ghost before = self.view();
        proof {
            self.lemma_members_bounded();
        }
        let n = self.len();
        self.subtract(other);
        let m = self.len();
        proof {
            self.lemma_members_bounded();
            lemma_len_differs_iff(self.view(), before);
        }
        n != m
    }

    /// Flips the flag of every index below the capacity.
    fn invert(&mut self)
        requires
            old(self).wf(),
        ensures
            final(self).wf(),
            final(self).capacity() == old(self).capacity(),
            final(self).view() == below(old(self).capacity()).difference(old(self).view()),
    ;

    /// Removes every member.
    fn clear(&mut self)
        requires
            old(self).wf(),
        ensures
            final(self).wf(),
            final(self).capacity() == old(self).capacity(),
            final(self).view() == Set::<nat>::empty(),
    ;

    /// Makes every index below the capacity a member.
    fn insert_all(&mut self)
        requires
            old(self).wf(),
        ensures
            final(self).wf(),
            final(self).capacity() == old(self).capacity(),
            final(self).view() == below(old(self).capacity()),
    ;

    /// Returns true if every member of `other` is a member of `self`.
    fn superset(&self, other: &Self) -> (r: bool)
        requires
            self.wf(),
            other.wf(),
            self.capacity() == other.capacity(),
        ensures
            r == other.view().subset_of(self.view()),
    ;

    /// Makes the members of `self` those of `other`.
    fn copy_from(&mut self, other: &Self)
        requires
            old(self).wf(),
            other.wf(),
            old(self).capacity() == other.capacity(),
        ensures
            final(self).wf(),
            final(self).capacity() == old(self).capacity(),
            final(self).view() == other.view(),
    ;
}

/// Of two finite sets, one inside the other, the sizes differ exactly when the
/// sets do.
pub proof fn lemma_len_differs_iff(small: Set<nat>, big: Set<nat>)
    requires
        small.subset_of(big),
        big.finite(),
    ensures
        small.finite(),
        (small.len() != big.len()) == (small != big),
{
    vstd::set_lib::lemma_len_subset(small, big);
    if small.len() == big.len() {
        vstd::set_lib::lemma_subset_equality(small, big);
    }
}

/// A set made by `empty` answers `contains` with false at every index.
pub proof fn law_empty_contains_nothing<S: BitSet>(s: &S, i: nat)
    requires
        s.wf(),
        s.view() == Set::<nat>::empty(),
    ensures
        !s.view().contains(i),
{
}

/// Inserting an index twice changes the set only the first time, and the
/// second insertion reports no change.
pub proof fn law_insert_idempotent<S: BitSet>(s: &S, i: nat)
    requires
        s.wf(),
    ensures
        s.view().insert(i).insert(i) == s.view().insert(i),
        s.view().insert(i).contains(i),
{
    assert(s.view().insert(i).insert(i) =~= s.view().insert(i));
}

/// `a` is a superset of `b` exactly when adding the members of `b` to `a` leaves
/// the number of members of `a` unchanged.
pub proof fn law_superset_by_count<S: BitSet>(a: &S, b: &S)
    requires
        a.wf(),
        b.wf(),
        a.capacity() == b.capacity(),
    ensures
        b.view().subset_of(a.view()) <==> a.view().union(b.view()).len() == a.view().len(),
{
    a.lemma_members_bounded();
    b.lemma_members_bounded();
    let u = a.view().union(b.view());
    vstd::set_lib::lemma_set_union_finite_iff(a.view(), b.view());
    lemma_len_differs_iff(a.view(), u);
    if b.view().subset_of(a.view()) {
        assert(u =~= a.view());
    } else {
        let x = choose|x: nat| b.view().contains(x) && !a.view().contains(x);
        assert(u.contains(x));
    }
}

/// Subtracting `b` from `a` leaves what intersecting `a` with the inverse of `b`
/// leaves.
pub proof fn law_subtract_is_intersect_inverse<S: BitSet>(a: &S, b: &S)
    requires
        a.wf(),
        b.wf(),
        a.capacity() == b.capacity(),
    ensures
        a.view().difference(b.view()) == a.view().intersect(
            below(b.capacity()).difference(b.view()),
        ),
{
    a.lemma_members_bounded();
    assert(a.view().difference(b.view()) =~= a.view().intersect(
        below(b.capacity()).difference(b.view()),
    ));
}

} // verus!
