//! A bit-set backed by a compressed bitmap of the `roaring` crate.
use vstd::prelude::*;
use vstd::set_lib::FiniteFull;
use roaring::RoaringBitmap;
use crate::bitset::{BitSet, below};

verus! {

#[verifier::external_type_specification]
#[verifier::external_body]
pub struct ExRoaringBitmap(roaring::RoaringBitmap);

/// The values held by a compressed bitmap.
pub uninterp spec fn bitmap_values(b: RoaringBitmap) -> Set<u32>;

/// Relies on `RoaringBitmap::new`: the new bitmap holds no value.
#[verifier::external_body]
fn bitmap_new() -> (r: RoaringBitmap)
    ensures
        bitmap_values(r) == Set::<u32>::empty(),
{
    RoaringBitmap::new()
}

/// Relies on `RoaringBitmap::insert`: adds the value, returning whether it was absent.
#[verifier::external_body]
fn bitmap_insert(b: &mut RoaringBitmap, value: u32) -> (r: bool)
    ensures
        bitmap_values(*final(b)) == bitmap_values(*old(b)).insert(value),
        r == !bitmap_values(*old(b)).contains(value),
{
    b.insert(value)
}

/// Relies on `RoaringBitmap::remove`: removes the value, returning whether it was present.
#[verifier::external_body]
fn bitmap_remove(b: &mut RoaringBitmap, value: u32) -> (r: bool)
    ensures
        bitmap_values(*final(b)) == bitmap_values(*old(b)).remove(value),
        r == bitmap_values(*old(b)).contains(value),
{
    b.remove(value)
}

/// Relies on `RoaringBitmap::contains`: whether the value is held.
#[verifier::external_body]
fn bitmap_contains(b: &RoaringBitmap, value: u32) -> (r: bool)
    ensures
        r == bitmap_values(*b).contains(value),
{
    b.contains(value)
}

/// Relies on `RoaringBitmap::len`: the number of distinct values held.
#[verifier::external_body]
fn bitmap_len(b: &RoaringBitmap) -> (r: u64)
    ensures
        r as nat == bitmap_values(*b).len(),
{
    b.len()
}

/// Relies on `RoaringBitmap::iter`: each value held, in ascending order.
#[verifier::external_body]
fn bitmap_iter(b: &RoaringBitmap) -> (r: Vec<u32>)
    ensures
        forall|i: int, j: int| 0 <= i < j < r@.len() ==> r@[i] < r@[j],
        forall|i: int| 0 <= i < r@.len() ==> bitmap_values(*b).contains(#[trigger] r@[i]),
        forall|x: u32|
            bitmap_values(*b).contains(x) ==> exists|i: int| 0 <= i < r@.len() && #[trigger] r@[i] == x,
{
    b.iter().collect()
}

/// Relies on `RoaringBitmap`'s `|=`: the union of the two bitmaps.
#[verifier::external_body]
fn bitmap_union(b: &mut RoaringBitmap, other: &RoaringBitmap)
    ensures
        bitmap_values(*final(b)) == bitmap_values(*old(b)).union(bitmap_values(*other)),
{
    *b |= other;
}

/// Relies on `RoaringBitmap`'s `&=`: the intersection of the two bitmaps.
#[verifier::external_body]
fn bitmap_intersect(b: &mut RoaringBitmap, other: &RoaringBitmap)
    ensures
        bitmap_values(*final(b)) == bitmap_values(*old(b)).intersect(bitmap_values(*other)),
{
    *b &= other;
}

/// Relies on `RoaringBitmap`'s `-=`: the values of `b` that `other` lacks.
#[verifier::external_body]
fn bitmap_subtract(b: &mut RoaringBitmap, other: &RoaringBitmap)
    ensures
        bitmap_values(*final(b)) == bitmap_values(*old(b)).difference(bitmap_values(*other)),
{
    *b -= other;
}

/// Relies on `RoaringBitmap::clear`: no value is left.
#[verifier::external_body]
fn bitmap_clear(b: &mut RoaringBitmap)
    ensures
        bitmap_values(*final(b)) == Set::<u32>::empty(),
{
    b.clear();
}

/// Relies on `RoaringBitmap::insert_range`: adds every value below `end`.
#[verifier::external_body]
fn bitmap_insert_below(b: &mut RoaringBitmap, end: u32)
    ensures
        bitmap_values(*final(b)) == bitmap_values(*old(b)).union(Set::new(|x: u32| x < end)),
{
    b.insert_range(0..end);
}

/// Relies on `RoaringBitmap::is_superset`: whether `b` holds every value of `other`.
#[verifier::external_body]
fn bitmap_is_superset(b: &RoaringBitmap, other: &RoaringBitmap) -> (r: bool)
    ensures
        r == bitmap_values(*other).subset_of(bitmap_values(*b)),
{
    b.is_superset(other)
}

/// Relies on `RoaringBitmap::clone_from`: `b` then holds the values of `other`.
#[verifier::external_body]
fn bitmap_copy_from(b: &mut RoaringBitmap, other: &RoaringBitmap)
    ensures
        bitmap_values(*final(b)) == bitmap_values(*other),
{
    b.clone_from(other);
}

/// Relies on `RoaringBitmap::clone`: the copy holds the same values.
#[verifier::external_body]
fn bitmap_clone(b: &RoaringBitmap) -> (r: RoaringBitmap)
    ensures
        bitmap_values(r) == bitmap_values(*b),
{
    b.clone()
}

/// A bit-set over a compressed bitmap, together with the size of its domain.
pub struct RoaringSet {
    set: RoaringBitmap,
    size: usize,
}

/// Every set of 32-bit values is finite.
proof fn lemma_u32_set_finite(s: Set<u32>)
    ensures
        s.finite(),
{
    <u32 as FiniteFull>::full_properties();
    vstd::set_lib::lemma_len_subset(s, Set::<u32>::full());
}

/// Converts a member below the size; the size fits in 32 bits.
fn to_u32(i: usize) -> (r: u32)
    requires
        i <= u32::MAX,
    ensures
        r == i,
{
    i as u32
}

/// Converts a value of the bitmap back to an index.
pub fn to_usize(i: u32) -> (r: usize)
    ensures
        r == i,
{
    i as usize
}

impl BitSet for RoaringSet {
    closed spec fn wf(&self) -> bool {
        &&& self.size <= u32::MAX
        &&& forall|x: u32| #[trigger] bitmap_values(self.set).contains(x) ==> x < self.size
    }

    closed spec fn capacity(&self) -> nat {
        self.size as nat
    }

    closed spec fn view(&self) -> Set<nat> {
        Set::new(|i: nat| i < self.size && bitmap_values(self.set).contains(i as u32))
    }

    open spec fn fits(size: nat) -> bool {
        size <= u32::MAX
    }

    proof fn lemma_members_bounded(&self) {
        crate::bitset::lemma_below_len(self.capacity());
        vstd::set_lib::lemma_len_subset(self.view(), below(self.capacity()));
    }

    fn empty(size: usize) -> (r: Self) {
        let r = RoaringSet { set: bitmap_new(), size };
        proof {
            assert(r.view() =~= Set::<nat>::empty());
        }
        r
    }

    fn duplicate(&self) -> (r: Self) {
        let r = RoaringSet { set: bitmap_clone(&self.set), size: self.size };
        proof {
            assert(bitmap_values(r.set) == bitmap_values(self.set));
            if self.wf() {
                assert forall|x: u32| #[trigger] bitmap_values(r.set).contains(x) implies x < r.size by {
                    assert(bitmap_values(self.set).contains(x));
                }
            }
            assert(r.view() =~= self.view());
        }
        r
    }

    fn insert(&mut self, index: usize) -> (r: bool) {
        let r = bitmap_insert(&mut self.set, to_u32(index));
        proof {
            assert(self.view() =~= old(self).view().insert(index as nat));
        }
        r
    }

    fn remove(&mut self, index: usize) -> (r: bool) {
        let r = bitmap_remove(&mut self.set, to_u32(index));
        proof {
            assert(self.view() =~= old(self).view().remove(index as nat));
        }
        r
    }

    fn contains(&self, index: usize) -> (r: bool) {
        bitmap_contains(&self.set, to_u32(index))
    }

    fn iter(&self) -> (r: Vec<usize>) {
        let values = bitmap_iter(&self.set);
        let mut out: Vec<usize> = Vec::new();
        let mut i: usize = 0;
        while i < values.len()
            invariant
                i <= values@.len(),
                out@.len() == i,
                forall|j: int| 0 <= j < i ==> out@[j] == values@[j],
            decreases values@.len() - i,
        {
            out.push(to_usize(values[i]));
            i = i + 1;
        }
        proof {
            assert forall|x: nat| self.view().contains(x) implies exists|a: int|
                0 <= a < out@.len() && #[trigger] out@[a] == x by {
                assert(bitmap_values(self.set).contains(x as u32));
                let a = choose|a: int| 0 <= a < values@.len() && #[trigger] values@[a] == x as u32;
                assert(out@[a] == x);
            }
            assert forall|a: int| 0 <= a < out@.len() implies self.view().contains(
                #[trigger] out@[a] as nat,
            ) by {
                assert(bitmap_values(self.set).contains(values@[a]));
            }
        }
        out
    }

    fn len(&self) -> (r: usize) {
        let n = bitmap_len(&self.set);
        proof {
            lemma_u32_set_finite(bitmap_values(self.set));
            let f = |x: u32| x as nat;
            let m = bitmap_values(self.set).map(f);
            assert(vstd::relations::injective_on(f, bitmap_values(self.set)));
            vstd::set_lib::lemma_map_size(bitmap_values(self.set), m, f);
            assert forall|i: nat| #[trigger] m.contains(i) implies self.view().contains(i) by {
                let x = choose|x: u32| bitmap_values(self.set).contains(x) && f(x) == i;
                assert(x < self.size);
            }
            assert forall|i: nat| self.view().contains(i) implies #[trigger] m.contains(i) by {
                assert(bitmap_values(self.set).contains(i as u32));
                assert(f(i as u32) == i);
            }
            assert(m =~= self.view());
            crate::bitset::lemma_below_len(self.capacity());
            vstd::set_lib::lemma_len_subset(self.view(), below(self.capacity()));
        }
        n as usize
    }

    fn union(&mut self, other: &Self) {
        bitmap_union(&mut self.set, &other.set);
        proof {
            assert(self.view() =~= old(self).view().union(other.view()));
        }
    }

    fn intersect(&mut self, other: &Self) {
        bitmap_intersect(&mut self.set, &other.set);
        proof {
            assert(self.view() =~= old(self).view().intersect(other.view()));
        }
    }

    fn subtract(&mut self, other: &Self) {
        bitmap_subtract(&mut self.set, &other.set);
        proof {
            assert(self.view() =~= old(self).view().difference(other.view()));
        }
    }

    fn invert(&mut self) {
        let ghost before = self.view();
        let mut i: usize = 0;
        while i < self.size
            invariant
                self.wf(),
                self.size == old(self).size,
                before == old(self).view(),
                i <= self.size,
                forall|j: nat|
                    j < self.size ==> (#[trigger] self.view().contains(j) == if j < i {
                        !before.contains(j)
                    } else {
                        before.contains(j)
                    }),
            decreases self.size - i,
        {
            let ghost prev = self.view();
            if bitmap_contains(&self.set, to_u32(i)) {
                bitmap_remove(&mut self.set, to_u32(i));
            } else {
                bitmap_insert(&mut self.set, to_u32(i));
            }
            proof {
                assert forall|j: nat| j < self.size implies #[trigger] self.view().contains(j) == (
                j != i && prev.contains(j) || j == i && !prev.contains(j)) by {
                    if j == i {
                    } else {
                        assert((j as u32) != (i as u32));
                    }
                }
            }
            i = i + 1;
        }
        proof {
            assert(self.view() =~= below(self.size as nat).difference(before));
        }
    }

    fn clear(&mut self) {
        bitmap_clear(&mut self.set);
        proof {
            assert(self.view() =~= Set::<nat>::empty());
        }
    }

    fn insert_all(&mut self) {
        bitmap_insert_below(&mut self.set, to_u32(self.size));
        proof {
            assert(self.view() =~= below(self.size as nat));
        }
    }

    fn superset(&self, other: &Self) -> (r: bool) {
        let r = bitmap_is_superset(&self.set, &other.set);
        proof {
            if r {
                assert(other.view().subset_of(self.view()));
            } else {
                let x = choose|x: u32|
                    bitmap_values(other.set).contains(x) && !bitmap_values(self.set).contains(x);
                assert(other.view().contains(x as nat));
            }
        }
        r
    }

    fn copy_from(&mut self, other: &Self) {
        bitmap_copy_from(&mut self.set, &other.set);
        proof {
            assert(self.view() =~= other.view());
        }
    }
}

} // verus!
