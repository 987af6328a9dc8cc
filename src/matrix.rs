//! Sparse matrices of pairs: a set of columns for each row key.
use vstd::prelude::*;
use crate::bitset::{BitSet, lists_in_order};
use crate::domain::{IndexedDomain, IndexedValue, first_index, lemma_first_index, views, find};
use crate::pointer::PointerFamily;
use crate::set::IndexSet;
use crate::ToIndex;

verus! {

/// A set of pairs `(row, column)`: for each row key, an [`IndexSet`] of columns.
///
/// Only the rows that have been given a column hold a set; every other row is
/// empty.
pub struct IndexMatrix<
    'a,
    R: IndexedValue,
    C: IndexedValue + 'a,
    S: BitSet,
    P: PointerFamily<'a, IndexedDomain<C>>,
> {
    rows: Vec<R>,
    sets: Vec<IndexSet<'a, C, S, P>>,
    empty_set: IndexSet<'a, C, S, P>,
    col_domain: P::Pointer,
}

/// In a sequence without repeats, the first occurrence of a value is its only one.
proof fn lemma_first_index_distinct<V>(s: Seq<V>, i: int)
    requires
        0 <= i < s.len(),
        forall|a: int, b: int| 0 <= a < b < s.len() ==> s[a] != s[b],
    ensures
        first_index(s, s[i]) == i,
{
    lemma_first_index(s, s[i]);
    let f = first_index(s, s[i]);
    assert(s.contains(s[i]));
    if f > i {
        assert(s[i] != s[i]);
    }
}

impl<
    'a,
    R: IndexedValue,
    C: IndexedValue + 'a,
    S: BitSet,
    P: PointerFamily<'a, IndexedDomain<C>>,
> IndexMatrix<'a, R, C, S, P> {
    /// The domain of the columns.
    pub closed spec fn col_domain_value(&self) -> IndexedDomain<C> {
        P::target(&self.col_domain)
    }

    /// The indices of the columns in row `row`.
    pub closed spec fn row_view(&self, row: R::V) -> Set<nat> {
        let i = first_index(views(self.rows@), row);
        if i >= 0 {
            self.sets@[i]@
        } else {
            Set::empty()
        }
    }

    /// Each stored row has one well-formed set over the column domain, and no row
    /// key is stored twice.
    pub closed spec fn wf(&self) -> bool {
        &&& self.rows@.len() == self.sets@.len()
        &&& S::fits(self.col_domain_value()@.len())
        &&& forall|i: int|
            0 <= i < self.sets@.len() ==> {
                &&& (#[trigger] self.sets@[i]).wf()
                &&& self.sets@[i].domain_value() == self.col_domain_value()
            }
        &&& forall|a: int, b: int|
            0 <= a < b < self.rows@.len() ==> self.rows@[a]@ != self.rows@[b]@
        &&& self.empty_set.wf()
        &&& self.empty_set@ == Set::<nat>::empty()
        &&& self.empty_set.domain_value() == self.col_domain_value()
    }

    /// Creates a matrix with no pairs, over the column domain `col_domain`.
    pub fn new(col_domain: &P::Pointer) -> (r: Self)
        requires
            S::fits(P::target(col_domain)@.len()),
        ensures
            r.wf(),
            r.col_domain_value() == P::target(col_domain),
            forall|row: R::V| #[trigger] r.row_view(row) == Set::<nat>::empty(),
    {
        let r = IndexMatrix {
            rows: Vec::new(),
            sets: Vec::new(),
            empty_set: IndexSet::new(col_domain),
            col_domain: P::share(col_domain),
        };
        proof {
            assert forall|row: R::V| #[trigger] r.row_view(row) == Set::<nat>::empty() by {
                assert(views(r.rows@) =~= Seq::<R::V>::empty());
            }
        }
        r
    }

    /// The position of the set of `row`, which is made empty first if the row has
    /// none.
    fn ensure_row(&mut self, row: R) -> (r: usize)
        requires
            old(self).wf(),
        ensures
            final(self).wf(),
            final(self).col_domain_value() == old(self).col_domain_value(),
            forall|k: R::V| #[trigger] final(self).row_view(k) == old(self).row_view(k),
            r < final(self).sets@.len(),
            old(self).sets@.len() <= final(self).sets@.len(),
            final(self).rows@[r as int]@ == row@,
            first_index(views(final(self).rows@), row@) == r,
            forall|i: int|
                0 <= i < old(self).rows@.len() ==> final(self).rows@[i] == old(self).rows@[i]
                    && final(self).sets@[i] == old(self).sets@[i],
    {
        match find(&self.rows, &row) {
            Some(i) => {
                proof {
                    lemma_first_index(views(self.rows@), row@);
                }
                i
            },
            None => {
                let i = self.rows.len();
                let fresh = self.empty_set.clone();
                let ghost prev = *old(self);
                self.rows.push(row);
                self.sets.push(fresh);
                proof {
                    lemma_first_index(views(prev.rows@), row@);
                    assert forall|a: int, b: int|
                        0 <= a < b < self.rows@.len() implies self.rows@[a]@ != self.rows@[b]@ by {
                        if b == prev.rows@.len() {
                            assert(views(prev.rows@)[a] == prev.rows@[a]@);
                        } else {
                            assert(prev.rows@[a]@ != prev.rows@[b]@);
                        }
                    }
                    assert forall|j: int| 0 <= j < self.sets@.len() implies (
                    #[trigger] self.sets@[j]).wf() && self.sets@[j].domain_value()
                        == self.col_domain_value() by {
                        if j < prev.sets@.len() {
                            assert(self.sets@[j] == prev.sets@[j]);
                        }
                    }
                    assert(views(self.rows@) =~= views(prev.rows@).push(row@));
                    assert(views(self.rows@).drop_last() =~= views(prev.rows@));
                    lemma_first_index(views(prev.rows@), row@);
                    assert forall|k: R::V| #[trigger] self.row_view(k) == prev.row_view(k) by {
                        lemma_first_index(views(prev.rows@), k);
                        if views(prev.rows@).contains(k) {
                            crate::domain::lemma_first_index_push(views(prev.rows@), row@, k);
                        } else if k == row@ {
                        } else {
                            lemma_first_index(views(self.rows@), k);
                            if views(self.rows@).contains(k) {
                                let j = choose|j: int|
                                    0 <= j < views(self.rows@).len() && views(self.rows@)[j] == k;
                                if j < prev.rows@.len() {
                                    assert(views(prev.rows@)[j] == k);
                                }
                            }
                        }
                    }
                }
                i
            },
        }
    }

    /// Adds the pair `(row, col)`, returning true if the matrix changed.
    pub fn insert<M, E: ToIndex<C, M>>(&mut self, row: R, col: E) -> (r: bool)
        requires
            old(self).wf(),
            col.in_domain(&old(self).col_domain_value()),
        ensures
            final(self).wf(),
            final(self).col_domain_value() == old(self).col_domain_value(),
            final(self).row_view(row@) == old(self).row_view(row@).insert(
                col.index_in(&old(self).col_domain_value()) as nat,
            ),
            forall|k: R::V| k != row@ ==> #[trigger] final(self).row_view(k) == old(self).row_view(k),
            r == !old(self).row_view(row@).contains(
                col.index_in(&old(self).col_domain_value()) as nat,
            ),
    {
        let ghost key = row@;
        let i = self.ensure_row(row);
        let ghost mid = *self;
        proof {
            assert(self.sets@[i as int].wf());
            assert(mid.row_view(key) == mid.sets@[i as int]@);
        }
        let r = self.sets[i].insert(col);
        proof {
            self.lemma_rows_after_update(mid, i as int, key);
        }
        r
    }

    /// After the set at `i` changes, in place, the other rows are as they were.
    proof fn lemma_rows_after_update(&self, before: Self, i: int, key: R::V)
        requires
            before.wf(),
            0 <= i < before.sets@.len(),
            before.rows@ == self.rows@,
            before.rows@[i]@ == key,
            self.sets@.len() == before.sets@.len(),
            self.empty_set == before.empty_set,
            self.col_domain == before.col_domain,
            self.sets@[i].wf(),
            self.sets@[i].domain_value() == before.col_domain_value(),
            forall|j: int| 0 <= j < self.sets@.len() && j != i ==> self.sets@[j] == before.sets@[j],
        ensures
            self.wf(),
            self.row_view(key) == self.sets@[i]@,
            forall|k: R::V| k != key ==> #[trigger] self.row_view(k) == before.row_view(k),
    {
        lemma_first_index_distinct(views(self.rows@), i);
        assert forall|k: R::V| k != key implies #[trigger] self.row_view(k) == before.row_view(k) by {
            lemma_first_index(views(self.rows@), k);
        }
        assert forall|j: int| 0 <= j < self.sets@.len() implies (#[trigger] self.sets@[j]).wf()
            && self.sets@[j].domain_value() == self.col_domain_value() by {
            if j != i {
                assert(self.sets@[j] == before.sets@[j]);
            }
        }
    }

    /// Adds every member of `from` to row `into`, returning true if the row changed.
    pub fn union_into_row(&mut self, into: R, from: &IndexSet<'a, C, S, P>) -> (r: bool)
        requires
            old(self).wf(),
            from.wf(),
            from.domain_value()@.len() == old(self).col_domain_value()@.len(),
        ensures
            final(self).wf(),
            final(self).col_domain_value() == old(self).col_domain_value(),
            final(self).row_view(into@) == old(self).row_view(into@).union(from@),
            forall|k: R::V| k != into@ ==> #[trigger] final(self).row_view(k) == old(self).row_view(k),
            r == (final(self).row_view(into@) != old(self).row_view(into@)),
    {
        let ghost key = into@;
        let i = self.ensure_row(into);
        let ghost mid = *self;
        proof {
            assert(self.sets@[i as int].wf());
            assert(mid.row_view(key) == mid.sets@[i as int]@);
        }
        let r = self.sets[i].union_changed(from);
        proof {
            self.lemma_rows_after_update(mid, i as int, key);
        }
        r
    }

    /// Adds every column of row `from` to row `to`, returning true if row `to`
    /// changed. Nothing happens when the two rows are the same.
    pub fn union_rows(&mut self, from: R, to: R) -> (r: bool)
        requires
            old(self).wf(),
        ensures
            final(self).wf(),
            final(self).col_domain_value() == old(self).col_domain_value(),
            from@ == to@ ==> !r && forall|k: R::V|
                #[trigger] final(self).row_view(k) == old(self).row_view(k),
            from@ != to@ ==> {
                &&& final(self).row_view(to@) == old(self).row_view(to@).union(
                    old(self).row_view(from@),
                )
                &&& forall|k: R::V|
                    k != to@ ==> #[trigger] final(self).row_view(k) == old(self).row_view(k)
                &&& r == (final(self).row_view(to@) != old(self).row_view(to@))
            },
    {
        if from.same_value(&to) {
            return false;
        }
        let ghost to_key = to@;
        let ghost from_key = from@;
        let i = self.ensure_row(from);
        let j = self.ensure_row(to);
        proof {
            assert(self.sets@[i as int].wf());
            assert(self.sets@[j as int].wf());
            lemma_first_index_distinct(views(self.rows@), i as int);
            assert(self.row_view(from_key) == self.sets@[i as int]@);
        }
        let mut source = IndexSet::new(&self.col_domain);
        source.union(&self.sets[i]);
        let ghost mid = *self;
        proof {
            assert(mid.row_view(to_key) == mid.sets@[j as int]@);
        }
        let r = self.sets[j].union_changed(&source);
        proof {
            self.lemma_rows_after_update(mid, j as int, to_key);
        }
        r
    }

    /// The columns of `row`, in the order of their indices.
    pub fn row(&self, row: &R) -> (r: Vec<&C>)
        requires
            self.wf(),
        ensures
            exists|ix: Seq<usize>|
                {
                    &&& lists_in_order(ix, self.row_view(row@))
                    &&& ix.len() == r@.len()
                    &&& forall|i: int|
                        0 <= i < r@.len() ==> (#[trigger] r@[i])@ == self.col_domain_value()@[ix[i] as int]
                },
    {
        self.row_set(row).iter()
    }

    /// The stored rows, each with its set of columns.
    pub fn rows(&self) -> (r: Vec<(&R, &IndexSet<'a, C, S, P>)>)
        requires
            self.wf(),
        ensures
            forall|i: int|
                0 <= i < r@.len() ==> {
                    &&& (#[trigger] r@[i]).1.wf()
                    &&& r@[i].1@ == self.row_view(r@[i].0@)
                    &&& r@[i].1.domain_value() == self.col_domain_value()
                },
            forall|a: int, b: int| 0 <= a < b < r@.len() ==> r@[a].0@ != r@[b].0@,
            forall|k: R::V|
                #[trigger] self.row_view(k) != Set::<nat>::empty() ==> exists|i: int|
                    0 <= i < r@.len() && r@[i].0@ == k,
    {
        let mut out: Vec<(&R, &IndexSet<'a, C, S, P>)> = Vec::new();
        let mut i: usize = 0;
        while i < self.rows.len()
            invariant
                self.wf(),
                i <= self.rows@.len(),
                out@.len() == i,
                forall|j: int|
                    0 <= j < i ==> *(#[trigger] out@[j]).0 == self.rows@[j] && *out@[j].1
                        == self.sets@[j],
            decreases self.rows@.len() - i,
        {
            out.push((&self.rows[i], &self.sets[i]));
            i = i + 1;
        }
        proof {
            assert forall|j: int| 0 <= j < out@.len() implies {
                &&& (#[trigger] out@[j]).1.wf()
                &&& out@[j].1@ == self.row_view(out@[j].0@)
                &&& out@[j].1.domain_value() == self.col_domain_value()
            } by {
                lemma_first_index_distinct(views(self.rows@), j);
            }
            assert forall|k: R::V| #[trigger] self.row_view(k) != Set::<nat>::empty() implies exists|
                j: int,
            | 0 <= j < out@.len() && out@[j].0@ == k by {
                lemma_first_index(views(self.rows@), k);
                let f = first_index(views(self.rows@), k);
                assert(out@[f].0@ == k);
            }
        }
        out
    }

    /// The set of columns of `row`.
    pub fn row_set(&self, row: &R) -> (r: &IndexSet<'a, C, S, P>)
        requires
            self.wf(),
        ensures
            r.wf(),
            r@ == self.row_view(row@),
            r.domain_value() == self.col_domain_value(),
    {
        proof {
            lemma_first_index(views(self.rows@), row@);
        }
        match find(&self.rows, row) {
            Some(i) => {
                proof {
                    assert(self.sets@[i as int].wf());
                }
                &self.sets[i]
            },
            None => {
                proof {
                    lemma_first_index(views(self.rows@), row@);
                }
                &self.empty_set
            },
        }
    }

    /// Removes every column of `row`.
    pub fn clear_row(&mut self, row: &R)
        requires
            old(self).wf(),
        ensures
            final(self).wf(),
            final(self).col_domain_value() == old(self).col_domain_value(),
            final(self).row_view(row@) == Set::<nat>::empty(),
            forall|k: R::V| k != row@ ==> #[trigger] final(self).row_view(k) == old(self).row_view(k),
    {
        proof {
            lemma_first_index(views(self.rows@), row@);
        }
        match find(&self.rows, row) {
            Some(i) => {
                let ghost prev = *old(self);
                self.rows.remove(i);
                self.sets.remove(i);
                proof {
                    let pv = views(prev.rows@);
                    let nv = views(self.rows@);
                    assert(nv =~= pv.remove(i as int));
                    assert forall|a: int, b: int|
                        0 <= a < b < self.rows@.len() implies self.rows@[a]@ != self.rows@[b]@ by {
                        let a2 = if a < i { a } else { a + 1 };
                        let b2 = if b < i { b } else { b + 1 };
                        assert(prev.rows@[a2]@ != prev.rows@[b2]@);
                    }
                    assert forall|k: R::V| #[trigger] self.row_view(k) == if k == row@ {
                        Set::<nat>::empty()
                    } else {
                        prev.row_view(k)
                    } by {
                        lemma_first_index(pv, k);
                        lemma_first_index(nv, k);
                        if nv.contains(k) {
                            let j = first_index(nv, k);
                            let j2 = if j < i { j } else { j + 1 };
                            assert(pv[j2] == k);
                            lemma_first_index_distinct(pv, j2);
                            lemma_first_index_distinct(nv, j);
                            assert(self.sets@[j] == prev.sets@[j2]);
                            if k == row@ {
                                lemma_first_index_distinct(pv, i as int);
                            }
                        } else if pv.contains(k) {
                            let p = first_index(pv, k);
                            if p != i {
                                let p2 = if p < i { p } else { p - 1 };
                                assert(nv[p2] == k);
                            }
                        }
                    }
                    assert forall|j: int| 0 <= j < self.sets@.len() implies (
                    #[trigger] self.sets@[j]).wf() && self.sets@[j].domain_value()
                        == self.col_domain_value() by {
                        let j2 = if j < i { j } else { j + 1 };
                        assert(self.sets@[j] == prev.sets@[j2]);
                    }
                }
            },
            None => {
                proof {
                    lemma_first_index(views(self.rows@), row@);
                }
            },
        }
    }

    /// Adds every pair of `other`, returning true if the matrix changed.
    pub fn join(&mut self, other: &Self) -> (r: bool)
        requires
            old(self).wf(),
            other.wf(),
            other.col_domain_value()@.len() == old(self).col_domain_value()@.len(),
        ensures
            final(self).wf(),
            final(self).col_domain_value() == old(self).col_domain_value(),
            forall|k: R::V| #[trigger] final(self).row_view(k) == old(self).row_view(k).union(
                other.row_view(k),
            ),
            r == exists|k: R::V| #[trigger] final(self).row_view(k) != old(self).row_view(k),
    {
        let ghost start = *old(self);
        let ghost keys = views(other.rows@);
        let mut changed = false;
        let mut j: usize = 0;
        while j < other.rows.len()
            invariant
                self.wf(),
                other.wf(),
                keys == views(other.rows@),
                self.col_domain_value() == start.col_domain_value(),
                other.col_domain_value()@.len() == start.col_domain_value()@.len(),
                j <= other.rows@.len(),
                forall|k: R::V| #[trigger] self.row_view(k) == if keys.subrange(0, j as int).contains(k) {
                    start.row_view(k).union(other.row_view(k))
                } else {
                    start.row_view(k)
                },
                changed == exists|k: R::V| #[trigger] self.row_view(k) != start.row_view(k),
            decreases other.rows@.len() - j,
        {
            let ghost prev = *self;
            let ghost kj = keys[j as int];
            proof {
                lemma_first_index_distinct(keys, j as int);
                assert(other.sets@[j as int].wf());
                assert(other.row_view(kj) == other.sets@[j as int]@);
            }
            let key = other.rows[j].duplicate();
            let r = self.union_into_row(key, &other.sets[j]);
            proof {
                let before = keys.subrange(0, j as int);
                let after = keys.subrange(0, j as int + 1);
                assert(after =~= before.push(kj));
                assert forall|k: R::V| #[trigger] self.row_view(k) == if after.contains(k) {
                    start.row_view(k).union(other.row_view(k))
                } else {
                    start.row_view(k)
                } by {
                    if k == kj {
                        assert(after[j as int] == kj);
                        if before.contains(k) {
                            assert(prev.row_view(k) == start.row_view(k).union(other.row_view(k)));
                            assert(self.row_view(k) =~= start.row_view(k).union(other.row_view(k)));
                        } else {
                            assert(self.row_view(k) =~= start.row_view(k).union(other.row_view(k)));
                        }
                    } else {
                        if after.contains(k) {
                            let a = choose|a: int| 0 <= a < after.len() && after[a] == k;
                            assert(before[a] == k);
                        }
                        if before.contains(k) {
                            let a = choose|a: int| 0 <= a < before.len() && before[a] == k;
                            assert(after[a] == k);
                        }
                    }
                }
                if r {
                    assert(self.row_view(kj) != start.row_view(kj)) by {
                        if self.row_view(kj) == start.row_view(kj) {
                            assert(prev.row_view(kj).subset_of(self.row_view(kj)));
                            assert(start.row_view(kj).subset_of(prev.row_view(kj)));
                            assert(prev.row_view(kj) =~= self.row_view(kj));
                        }
                    }
                } else {
                    assert forall|k: R::V| #[trigger] self.row_view(k) == prev.row_view(k) by {}
                    if changed {
                        let w = choose|k: R::V| #[trigger] prev.row_view(k) != start.row_view(k);
                        assert(self.row_view(w) != start.row_view(w));
                    } else if exists|k: R::V| #[trigger] self.row_view(k) != start.row_view(k) {
                        let w = choose|k: R::V| #[trigger] self.row_view(k) != start.row_view(k);
                        assert(prev.row_view(w) != start.row_view(w));
                    }
                }
            }
            changed = changed || r;
            j = j + 1;
        }
        proof {
            assert(keys.subrange(0, j as int) =~= keys);
            assert forall|k: R::V| #[trigger] self.row_view(k) == start.row_view(k).union(
                other.row_view(k),
            ) by {
                if !keys.contains(k) {
                    lemma_first_index(keys, k);
                    assert(start.row_view(k).union(other.row_view(k)) =~= start.row_view(k));
                }
            }
        }
        changed
    }

    /// The pointer to the column domain.
    pub fn col_domain(&self) -> (r: &P::Pointer)
        ensures
            P::target(r) == self.col_domain_value(),
    {
        &self.col_domain
    }
}

impl<
    'a,
    R: IndexedValue,
    C: IndexedValue + 'a,
    S: BitSet,
    P: PointerFamily<'a, IndexedDomain<C>>,
> Clone for IndexMatrix<'a, R, C, S, P> {
    /// A copy of the matrix, over the same column domain.
    fn clone(&self) -> (r: Self)
        ensures
            self.wf() ==> {
                &&& r.wf()
                &&& r.col_domain_value() == self.col_domain_value()
                &&& forall|k: R::V| #[trigger] r.row_view(k) == self.row_view(k)
            },
    {
        let mut rows: Vec<R> = Vec::new();
        let mut sets: Vec<IndexSet<'a, C, S, P>> = Vec::new();
        let mut i: usize = 0;
        while i < self.rows.len() && i < self.sets.len()
            invariant
                i <= self.rows@.len(),
                rows@.len() == i,
                sets@.len() == i,
                forall|j: int| 0 <= j < i ==> (#[trigger] rows@[j])@ == self.rows@[j]@,
                forall|j: int|
                    0 <= j < i ==> {
                        &&& (#[trigger] sets@[j]).wf() == self.sets@[j].wf()
                        &&& sets@[j]@ == self.sets@[j]@
                        &&& sets@[j].domain_value() == self.sets@[j].domain_value()
                    },
            decreases self.rows@.len() - i,
        {
            rows.push(self.rows[i].duplicate());
            sets.push(self.sets[i].clone());
            i = i + 1;
        }
        let r = IndexMatrix {
            rows,
            sets,
            empty_set: self.empty_set.clone(),
            col_domain: P::share(&self.col_domain),
        };
        proof {
            if self.wf() {
                assert(views(r.rows@) =~= views(self.rows@));
                assert forall|j: int| 0 <= j < r.sets@.len() implies (#[trigger] r.sets@[j]).wf()
                    && r.sets@[j].domain_value() == r.col_domain_value() by {
                    assert(self.sets@[j].wf());
                }
                assert forall|a: int, b: int|
                    0 <= a < b < r.rows@.len() implies r.rows@[a]@ != r.rows@[b]@ by {
                    assert(self.rows@[a]@ != self.rows@[b]@);
                }
                assert forall|k: R::V| #[trigger] r.row_view(k) == self.row_view(k) by {
                    lemma_first_index(views(self.rows@), k);
                }
            }
        }
        r
    }
}

} // verus!
