//! The numbering of a universe of values: a bidirectional mapping between values
//! and dense, zero-based indices.
use vstd::prelude::*;

verus! {

/// A value that can be numbered in a domain.
///
/// Two values are the same domain value when their views are equal.
pub trait IndexedValue: View + Sized {
    /// Returns true if `self` and `other` are the same domain value.
    fn same_value(&self, other: &Self) -> (r: bool)
        ensures
            r == (self@ == other@),
    ;

    /// A copy of `self`.
    fn duplicate(&self) -> (r: Self)
        ensures
            r@ == self@,
    ;
}

impl IndexedValue for String {
    fn same_value(&self, other: &Self) -> (r: bool) {
        *self == *other
    }

    fn duplicate(&self) -> (r: Self) {
        self.clone()
    }
}

impl IndexedValue for u32 {
    fn same_value(&self, other: &Self) -> (r: bool) {
        *self == *other
    }

    fn duplicate(&self) -> (r: Self) {
        *self
    }
}

impl IndexedValue for u64 {
    fn same_value(&self, other: &Self) -> (r: bool) {
        *self == *other
    }

    fn duplicate(&self) -> (r: Self) {
        *self
    }
}

impl IndexedValue for usize {
    fn same_value(&self, other: &Self) -> (r: bool) {
        *self == *other
    }

    fn duplicate(&self) -> (r: Self) {
        *self
    }
}

impl IndexedValue for i32 {
    fn same_value(&self, other: &Self) -> (r: bool) {
        *self == *other
    }

    fn duplicate(&self) -> (r: Self) {
        *self
    }
}

/// The position of the first occurrence of `v` in `s`, or -1 when `v` does not
/// occur.
pub open spec fn first_index<V>(s: Seq<V>, v: V) -> int
    decreases s.len(),
{
    if s.len() == 0 {
        -1
    } else {
        let f = first_index(s.drop_last(), v);
        if f >= 0 {
            f
        } else if s.last() == v {
            s.len() - 1
        } else {
            -1
        }
    }
}

/// `first_index` finds the first occurrence, and finds one exactly when there is one.
pub proof fn lemma_first_index<V>(s: Seq<V>, v: V)
    ensures
        first_index(s, v) == -1 <==> !s.contains(v),
        first_index(s, v) != -1 ==> {
            &&& 0 <= first_index(s, v) < s.len()
            &&& s[first_index(s, v)] == v
            &&& forall|j: int| 0 <= j < first_index(s, v) ==> s[j] != v
        },
    decreases s.len(),
{
    if s.len() > 0 {
        let p = s.drop_last();
        lemma_first_index(p, v);
        if first_index(p, v) >= 0 {
            let f = first_index(p, v);
            assert(s[f] == p[f]);
            assert(s.contains(v));
            assert forall|j: int| 0 <= j < f implies s[j] != v by {
                assert(s[j] == p[j]);
            }
        } else if s.last() == v {
            assert(s.contains(v)) by {
                assert(s[s.len() - 1] == v);
            }
            assert forall|j: int| 0 <= j < s.len() - 1 implies s[j] != v by {
                assert(s[j] == p[j]);
            }
        } else {
            assert forall|j: int| 0 <= j < s.len() implies s[j] != v by {
                if j < s.len() - 1 {
                    assert(s[j] == p[j]);
                }
            }
        }
    }
}

/// Appending keeps the first occurrence of every value that already occurs.
pub proof fn lemma_first_index_push<V>(s: Seq<V>, x: V, v: V)
    requires
        s.contains(v),
    ensures
        first_index(s.push(x), v) == first_index(s, v),
{
    assert(s.push(x).drop_last() =~= s);
    lemma_first_index(s, v);
}

/// The position of the first element of `s` that is the same domain value as `v`.
pub(crate) fn find<T: IndexedValue>(s: &Vec<T>, v: &T) -> (r: Option<usize>)
    ensures
        match r {
            None => !views(s@).contains(v@),
            Some(i) => i == first_index(views(s@), v@),
        },
{
    let mut i: usize = 0;
    while i < s.len()
        invariant
            i <= s@.len(),
            forall|j: int| 0 <= j < i ==> views(s@)[j] != v@,
        decreases s@.len() - i,
    {
        if s[i].same_value(v) {
            proof {
                lemma_first_index(views(s@), v@);
                let f = first_index(views(s@), v@);
                assert(views(s@)[i as int] == v@);
                assert(f != -1);
                if f < i {
                    assert(views(s@)[f] != v@);
                }
            }
            return Some(i);
        }
        i = i + 1;
    }
    proof {
        if views(s@).contains(v@) {
            let j = choose|j: int| 0 <= j < views(s@).len() && views(s@)[j] == v@;
            assert(views(s@)[j] != v@);
        }
    }
    None
}

/// The views of a sequence of values.
pub open spec fn views<T: View>(s: Seq<T>) -> Seq<T::V> {
    s.map_values(|t: T| t@)
}

/// A numbered collection of values: value `i` has index `i`.
///
/// Indices are handed out in order and never reused; the domain only grows.
pub struct IndexedDomain<T: IndexedValue> {
    domain: Vec<T>,
}

impl<T: IndexedValue> View for IndexedDomain<T> {
    type V = Seq<T::V>;

    /// The values, by index.
    closed spec fn view(&self) -> Seq<T::V> {
        views(self.domain@)
    }
}

impl<T: IndexedValue> IndexedDomain<T> {
    /// The index of `v`: the first index that holds it.
    pub open spec fn index_of(&self, v: T::V) -> int {
        first_index(self@, v)
    }

    /// Creates an empty domain.
    pub fn new() -> (r: Self)
        ensures
            r@ == Seq::<T::V>::empty(),
    {
        let r = IndexedDomain { domain: Vec::new() };
        proof {
            assert(r@ =~= Seq::<T::V>::empty());
        }
        r
    }

    /// Creates a domain that numbers `values` in order.
    pub fn from_iter(values: Vec<T>) -> (r: Self)
        ensures
            r@ == views(values@),
    {
        IndexedDomain { domain: values }
    }

    /// The value at `index`.
    pub fn value(&self, index: usize) -> (r: &T)
        requires
            index < self@.len(),
        ensures
            r@ == self@[index as int],
    {
        &self.domain[index]
    }

    /// The index of `value`.
    pub fn index(&self, value: &T) -> (r: usize)
        requires
            self@.contains(value@),
        ensures
            r == self.index_of(value@),
            r < self@.len(),
            self@[r as int] == value@,
    {
        proof {
            lemma_first_index(self@, value@);
        }
        match find(&self.domain, value) {
            Some(i) => i,
            None => {
                proof {
                    assert(false);
                }
                0
            },
        }
    }

    /// Returns true if `value` is in the domain.
    pub fn contains_value(&self, value: &T) -> (r: bool)
        ensures
            r == self@.contains(value@),
    {
        proof {
            lemma_first_index(self@, value@);
        }
        match find(&self.domain, value) {
            Some(_) => true,
            None => false,
        }
    }

    /// Returns true if `index` is an index of the domain.
    pub fn contains_index(&self, index: usize) -> (r: bool)
        ensures
            r == (index < self@.len()),
    {
        index < self.domain.len()
    }

    /// Adds `value` at a new index, which is returned.
    pub fn insert(&mut self, value: T) -> (r: usize)
        ensures
            final(self)@ == old(self)@.push(value@),
            r == old(self)@.len(),
    {
        let r = self.domain.len();
        self.domain.push(value);
        proof {
            assert(self@ =~= old(self)@.push(value@));
        }
        r
    }

    /// The values, by index.
    pub fn as_vec(&self) -> (r: &Vec<T>)
        ensures
            views(r@) == self@,
    {
        &self.domain
    }

    /// The number of values.
    pub fn len(&self) -> (r: usize)
        ensures
            r == self@.len(),
    {
        self.domain.len()
    }

    /// Returns true if the domain has no values.
    pub fn is_empty(&self) -> (r: bool)
        ensures
            r == (self@.len() == 0),
    {
        self.domain.len() == 0
    }

    /// The index of `value`, which is added first if it is not in the domain yet.
    pub fn ensure(&mut self, value: &T) -> (r: usize)
        ensures
            old(self)@.contains(value@) ==> {
                &&& final(self)@ == old(self)@
                &&& r == old(self).index_of(value@)
            },
            !old(self)@.contains(value@) ==> {
                &&& final(self)@ == old(self)@.push(value@)
                &&& r == old(self)@.len()
            },
            r < final(self)@.len(),
            final(self)@[r as int] == value@,
            r == final(self).index_of(value@),
    {
        proof {
            lemma_first_index(self@, value@);
        }
        match find(&self.domain, value) {
            Some(i) => i,
            None => {
                let r = self.insert(value.duplicate());
                proof {
                    lemma_first_index(self@, value@);
                    assert(self@[r as int] == value@);
                    assert(self@ == old(self)@.push(value@));
                    assert(self@.drop_last() =~= old(self)@);
                }
                r
            },
        }
    }

    /// The values, in index order.
    pub fn iter(&self) -> (r: &[T])
        ensures
            views(r@) == self@,
    {
        self.domain.as_slice()
    }

    /// The indices, in order.
    pub fn indices(&self) -> (r: std::ops::Range<usize>)
        ensures
            r.start == 0,
            r.end == self@.len(),
    {
        0..self.domain.len()
    }

    /// Each index with its value, in index order.
    pub fn iter_enumerated(&self) -> (r: Vec<(usize, &T)>)
        ensures
            r@.len() == self@.len(),
            forall|i: int| 0 <= i < r@.len() ==> (#[trigger] r@[i]).0 == i && r@[i].1@ == self@[i],
    {
        let mut out: Vec<(usize, &T)> = Vec::new();
        let mut i: usize = 0;
        while i < self.domain.len()
            invariant
                i <= self.domain@.len(),
                out@.len() == i,
                forall|j: int| 0 <= j < i ==> (#[trigger] out@[j]).0 == j && out@[j].1@
                    == self@[j],
            decreases self.domain@.len() - i,
        {
            out.push((i, &self.domain[i]));
            i = i + 1;
        }
        out
    }
}

impl<T: IndexedValue> Default for IndexedDomain<T> {
    /// An empty domain.
    fn default() -> (r: Self)
        ensures
            r@ == Seq::<T::V>::empty(),
    {
        IndexedDomain::new()
    }
}

/// Every value inserted into a domain is found again at its index: the value at
/// `index(v)` is `v`.
pub proof fn law_index_round_trip<T: IndexedValue>(domain: &IndexedDomain<T>, v: T::V)
    requires
        domain@.contains(v),
    ensures
        0 <= domain.index_of(v) < domain@.len(),
        domain@[domain.index_of(v)] == v,
{
    lemma_first_index(domain@, v);
}

} // verus!
