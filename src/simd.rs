//! A dense bit-set stored as chunks of 64-bit lanes.
//!
//! Bit `i` lives in chunk `i / 256`, lane `(i / 64) % 4` of that chunk, at offset
//! `i % 64` of the lane. The chunks lie one after another in a flat buffer of lanes,
//! so lane `l` of chunk `c` is the word at position `4 * c + l`. Bits at and beyond
//! the capacity are kept clear by every operation, so that no operation ever
//! observes them.
use vstd::prelude::*;
use crate::bitset::{BitSet, below, lists_in_order};
use crate::bits::{
    lane_bit, lane_offsets, ones_below, count_ones, lemma_or, lemma_and, lemma_not, lemma_zero,
    lemma_set_bit, lemma_clear_bit, lemma_low_mask, lemma_all_ones, lemma_test_bit,
    lemma_offsets_len, LANE_BITS,
};

verus! {

/// Number of lanes in one chunk.
pub const LANES: usize = 4;

/// Number of bits in one chunk.
pub const CHUNK_BITS: usize = 256;

/// Number of lanes that a bit-set of capacity `nbits` holds: whole chunks only.
pub open spec fn lanes_for(nbits: nat) -> nat {
    (((nbits + 255) / 256) * 4) as nat
}

/// A dense bit-set over the indices `0..nbits`.
pub struct SimdBitset {
    words: Vec<u64>,
    nbits: usize,
}

impl SimdBitset {
    /// Whether the bit at `i` is set in the buffer, whatever the capacity.
    pub closed spec fn bit(&self, i: nat) -> bool {
        lane_bit(self.words@[(i / 64) as int], (i % 64) as u64)
    }

    /// Number of bits in one chunk.
    pub fn chunk_size() -> (r: usize)
        ensures
            r == CHUNK_BITS,
    {
        Self::lane_size() * LANES
    }

    /// Number of bits in one lane.
    pub fn lane_size() -> (r: usize)
        ensures
            r == LANE_BITS,
    {
        LANE_BITS
    }

    /// The chunk, the lane within the chunk, and the offset within the lane of
    /// the bit at `index`.
    pub fn coords(&self, index: usize) -> (r: (usize, usize, u32))
        ensures
            r.0 == index / 256,
            r.1 == (index % 256) / 64,
            r.2 == index % 64,
            r.0 * 4 + r.1 == index / 64,
            r.1 < 4,
    {
        let (chunk, rest) = (index / Self::chunk_size(), index % Self::chunk_size());
        let (lane, bit) = (rest / Self::lane_size(), rest % Self::lane_size());
        proof {
            lemma_coords(index as int);
        }
        (chunk, lane, bit as u32)
    }

    /// Reads the bit at offset `bit` of lane `lane_idx` of chunk `chunk_idx`.
    fn get(&self, chunk_idx: usize, lane_idx: usize, bit: u32) -> (r: bool)
        requires
            chunk_idx * 4 + lane_idx < self.words@.len(),
            lane_idx < 4,
            bit < 64,
        ensures
            r == lane_bit(self.words@[chunk_idx * 4 + lane_idx], bit as u64),
    {
        let n = self.words.len();
        proof {
            assert(chunk_idx * 4 + lane_idx < n);
        }
        let w = self.words[chunk_idx * LANES + lane_idx];
        proof {
            lemma_test_bit(w, bit as u64);
        }
        (w >> (bit as u64)) & 1u64 == 1u64
    }

    /// Returns true if every lane of the chunk that starts at lane `first` is zero.
    fn chunk_is_zero(&self, first: usize) -> (r: bool)
        requires
            first + 4 <= self.words@.len(),
        ensures
            r == forall|j: int| first <= j < first + 4 ==> self.words@[j] == 0u64,
    {
        let len = self.words.len();
        proof {
            assert(first + 4 <= len);
        }
        let r = self.words[first] == 0 && self.words[first + 1] == 0 && self.words[first + 2] == 0
            && self.words[first + 3] == 0;
        proof {
            if !r {
                if self.words@[first as int] != 0 {
                } else if self.words@[first + 1] != 0 {
                } else if self.words@[first + 2] != 0 {
                } else {
                    assert(self.words@[first + 3] != 0);
                }
            }
        }
        r
    }

    /// The lane whose ones are exactly the offsets of lane `word` that lie below
    /// the capacity.
    fn tail_mask(&self, word: usize) -> (r: u64)
        requires
            word < self.words@.len(),
            self.words@.len() == lanes_for(self.nbits as nat),
        ensures
            forall|k: u64| k < 64 ==> #[trigger] lane_bit(r, k) == (word * 64 + k < self.nbits),
    {
        proof {
            assert(word * 64 + 64 <= self.words@.len() * 64);
        }
        if self.nbits <= word * 64 {
            proof {
                assert forall|k: u64| k < 64 implies #[trigger] lane_bit(0u64, k) == (word * 64 + k
                    < self.nbits) by {
                    lemma_zero(k);
                }
            }
            0u64
        } else if self.nbits - word * 64 >= 64 {
            proof {
                assert forall|k: u64| k < 64 implies #[trigger] lane_bit(u64::MAX, k) == (word * 64
                    + k < self.nbits) by {
                    lemma_all_ones(k);
                }
            }
            u64::MAX
        } else {
            let n = (self.nbits - word * 64) as u64;
            assert(1u64 << n >= 1u64) by (bit_vector)
                requires
                    n < 64,
            ;
            let m = (1u64 << n) - 1;
            proof {
                assert forall|k: u64| k < 64 implies #[trigger] lane_bit(m, k) == (word * 64 + k
                    < self.nbits) by {
                    lemma_low_mask(n, k);
                }
            }
            m
        }
    }
}

impl SimdBitset {
    /// The members below `m`.
    closed spec fn members_below(&self, m: nat) -> Set<nat> {
        Set::new(|i: nat| i < m && i < self.nbits && self.bit(i))
    }

    /// The members in lane `word` are the offsets of its ones, moved up by the
    /// lane's first index.
    proof fn lemma_members_step(&self, word: nat)
        requires
            self.wf(),
            word < self.words@.len(),
            self.members_below(word * 64).finite(),
        ensures
            self.members_below(word * 64 + 64).finite(),
            self.members_below(word * 64 + 64).len() == self.members_below(word * 64).len()
                + ones_below(self.words@[word as int], 64),
    {
        let w = self.words@[word as int];
        let lo = self.members_below(word * 64);
        let f = |k: nat| word * 64 + k;
        let offs = lane_offsets(w, 64);
        let moved = offs.map(f);
        lemma_offsets_len(w, 64);
        assert(vstd::relations::injective_on(f, offs));
        vstd::set_lib::lemma_map_size(offs, moved, f);
        assert forall|i: nat| #[trigger] moved.contains(i) implies i >= word * 64 && i < word * 64
            + 64 && i < self.nbits && self.bit(i) by {
            let k = choose|k: nat| offs.contains(k) && f(k) == i;
            assert(offs.contains(k));
            assert(i == word * 64 + k);
            assert(i / 64 == word);
            assert(i % 64 == k);
            assert(self.bit(i));
            assert(i < self.words@.len() * 64);
        }
        assert forall|i: nat|
            word * 64 <= i < word * 64 + 64 && i < self.nbits && self.bit(
                i,
            ) implies #[trigger] moved.contains(i) by {
            let k = (i - word * 64) as nat;
            assert(i / 64 == word);
            assert(i % 64 == k);
            assert(offs.contains(k));
            assert(f(k) == i);
        }
        assert(self.members_below(word * 64 + 64) =~= lo.union(moved));
        assert(lo.disjoint(moved));
        vstd::set_lib::lemma_set_disjoint_lens(lo, moved);
    }

    /// The capacity fits in the buffer.
    proof fn lemma_capacity_in_buffer(&self)
        requires
            self.wf(),
        ensures
            self.nbits <= self.words@.len() * 64,
    {
        let n = self.nbits as int;
        assert(n <= ((n + 255) / 256) * 256) by (nonlinear_arith)
            requires
                n >= 0,
        ;
    }
}

impl BitSet for SimdBitset {
    closed spec fn wf(&self) -> bool {
        &&& self.words@.len() == lanes_for(self.nbits as nat)
        &&& forall|i: nat|
            self.nbits <= i < self.words@.len() * 64 ==> !#[trigger] self.bit(i)
    }

    closed spec fn capacity(&self) -> nat {
        self.nbits as nat
    }

    closed spec fn view(&self) -> Set<nat> {
        Set::new(|i: nat| i < self.nbits && self.bit(i))
    }

    open spec fn fits(size: nat) -> bool {
        true
    }

    proof fn lemma_members_bounded(&self) {
        assert(self.view().subset_of(below(self.capacity())));
        crate::bitset::lemma_below_len(self.capacity());
        vstd::set_lib::lemma_len_subset(self.view(), below(self.capacity()));
    }

    fn empty(nbits: usize) -> (r: Self) {
        let n_chunks = nbits / Self::chunk_size() + if nbits % Self::chunk_size() != 0 {
            1
        } else {
            0
        };
        let words = vec![0u64; n_chunks * LANES];
        let r = SimdBitset { words, nbits };
        proof {
            assert(n_chunks == (nbits + 255) / 256);
            assert forall|i: nat| i < r.words@.len() * 64 implies !#[trigger] r.bit(i) by {
                lemma_zero((i % 64) as u64);
            }
            assert(r.view() =~= Set::<nat>::empty());
        }
        r
    }

    fn duplicate(&self) -> (r: Self) {
        self.clone()
    }

    fn insert(&mut self, index: usize) -> (r: bool) {
        let (chunk_idx, lane_idx, bit) = self.coords(index);
        proof {
            self.lemma_capacity_in_buffer();
        }
        let was = self.get(chunk_idx, lane_idx, bit);
        let w = chunk_idx * LANES + lane_idx;
        let lane = self.words[w] | (1u64 << (bit as u64));
        let ghost before = *self;
        self.words.set(w, lane);
        proof {
            assert forall|i: nat| i < self.words@.len() * 64 implies #[trigger] self.bit(i) == (
            before.bit(i) || i == index) by {
                if i / 64 == w {
                    lemma_set_bit(before.words@[w as int], bit as u64, (i % 64) as u64);
                }
            }
            assert(self.view() =~= before.view().insert(index as nat));
        }
        !was
    }

    fn remove(&mut self, index: usize) -> (r: bool) {
        let (chunk_idx, lane_idx, bit) = self.coords(index);
        proof {
            self.lemma_capacity_in_buffer();
        }
        let was = self.get(chunk_idx, lane_idx, bit);
        let w = chunk_idx * LANES + lane_idx;
        let lane = self.words[w] & !(1u64 << (bit as u64));
        let ghost before = *self;
        self.words.set(w, lane);
        proof {
            assert forall|i: nat| i < self.words@.len() * 64 implies #[trigger] self.bit(i) == (
            before.bit(i) && i != index) by {
                if i / 64 == w {
                    lemma_clear_bit(before.words@[w as int], bit as u64, (i % 64) as u64);
                }
            }
            assert(self.view() =~= before.view().remove(index as nat));
        }
        was
    }

    fn contains(&self, index: usize) -> (r: bool) {
        let (chunk_idx, lane_idx, bit) = self.coords(index);
        proof {
            self.lemma_capacity_in_buffer();
        }
        self.get(chunk_idx, lane_idx, bit)
    }

    fn iter(&self) -> (r: Vec<usize>) {
        let mut out: Vec<usize> = Vec::new();
        let mut it = SimdSetIter::new(self);
        loop
            invariant_except_break
                it.wf(),
                it.set() == *self,
                it.position() <= self.nbits,
                forall|a: int| 0 <= a < out@.len() ==> #[trigger] out@[a] < it.position(),
                lists_in_order(
                    out@,
                    Set::new(|x: nat| x < it.position() && self.view().contains(x)),
                ),
            ensures
                lists_in_order(out@, self.view()),
            decreases self.nbits - it.position(),
        {
            let ghost prev = out@;
            let ghost prev_it = it;
            match it.next() {
                Some(x) => {
                    out.push(x);
                    proof {
                        let s = Set::new(|y: nat| y < it.position() && self.view().contains(y));
                        assert forall|y: nat| s.contains(y) implies exists|a: int|
                            0 <= a < out@.len() && #[trigger] out@[a] == y by {
                            if y < x {
                                assert(!prev_it.remaining().contains(y));
                                let old_s = Set::new(
                                    |z: nat| z < prev_it.position() && self.view().contains(z),
                                );
                                assert(old_s.contains(y));
                                let a = choose|a: int| 0 <= a < prev.len() && #[trigger] prev[a] == y;
                                assert(out@[a] == y);
                            } else {
                                assert(out@[prev.len() as int] == y);
                            }
                        }
                    }
                },
                None => {
                    proof {
                        assert forall|y: nat| #[trigger] self.view().contains(y) implies y
                            < prev_it.position() by {
                            if y >= prev_it.position() {
                                assert(prev_it.remaining().contains(y));
                            }
                        }
                        assert(Set::new(|x: nat| x < prev_it.position() && self.view().contains(x))
                            =~= self.view());
                    }
                    break;
                },
            }
        }
        out
    }

    fn len(&self) -> (r: usize) {
        let mut n: usize = 0;
        let mut i: usize = 0;
        proof {
            assert(self.members_below(0) =~= Set::<nat>::empty());
        }
        while i < self.words.len()
            invariant
                self.wf(),
                i <= self.words@.len(),
                self.members_below(i as nat * 64).finite(),
                n as nat == self.members_below(i as nat * 64).len(),
                n <= i * 64,
            decreases self.words@.len() - i,
        {
            proof {
                self.lemma_members_step(i as nat);
                let next = self.members_below(i as nat * 64 + 64);
                assert(next.subset_of(below(self.nbits as nat)));
                crate::bitset::lemma_below_len(self.nbits as nat);
                vstd::set_lib::lemma_len_subset(next, below(self.nbits as nat));
            }
            let c = count_ones(self.words[i]);
            n = n + c as usize;
            i = i + 1;
        }
        proof {
            self.lemma_capacity_in_buffer();
            assert(self.members_below(self.words@.len() * 64) =~= self.view());
        }
        n
    }

    fn union(&mut self, other: &Self) {
        let ghost before = *self;
        let n = self.words.len();
        let mut i: usize = 0;
        while i < n
            invariant
                n == self.words@.len(),
                n == other.words@.len(),
                n == before.words@.len(),
                self.nbits == before.nbits,
                i <= n,
                forall|j: int| 0 <= j < i ==> self.words@[j] == before.words@[j] | other.words@[j],
                forall|j: int| i <= j < n ==> self.words@[j] == before.words@[j],
            decreases n - i,
        {
            let v = self.words[i] | other.words[i];
            self.words.set(i, v);
            i = i + 1;
        }
        proof {
            assert forall|i: nat| i < n * 64 implies #[trigger] self.bit(i) == (before.bit(i)
                || other.bit(i)) by {
                lemma_or(before.words@[(i / 64) as int], other.words@[(i / 64) as int], (i % 64) as u64);
            }
            assert(self.view() =~= before.view().union(other.view()));
        }
    }

    fn intersect(&mut self, other: &Self) {
        let ghost before = *self;
        let n = self.words.len();
        let mut i: usize = 0;
        while i < n
            invariant
                n == self.words@.len(),
                n == other.words@.len(),
                n == before.words@.len(),
                self.nbits == before.nbits,
                i <= n,
                forall|j: int| 0 <= j < i ==> self.words@[j] == before.words@[j] & other.words@[j],
                forall|j: int| i <= j < n ==> self.words@[j] == before.words@[j],
            decreases n - i,
        {
            let v = self.words[i] & other.words[i];
            self.words.set(i, v);
            i = i + 1;
        }
        proof {
            assert forall|i: nat| i < n * 64 implies #[trigger] self.bit(i) == (before.bit(i)
                && other.bit(i)) by {
                lemma_and(before.words@[(i / 64) as int], other.words@[(i / 64) as int], (i % 64) as u64);
            }
            assert(self.view() =~= before.view().intersect(other.view()));
        }
    }

    fn subtract(&mut self, other: &Self) {
        let mut complement = other.clone();
        complement.invert();
        self.intersect(&complement);
        proof {
            other.lemma_members_bounded();
        }
        assert(self.view() =~= old(self).view().difference(other.view()));
    }

    fn invert(&mut self) {
        let ghost before = *self;
        let n = self.words.len();
        let mut i: usize = 0;
        while i < n
            invariant
                n == self.words@.len(),
                n == before.words@.len(),
                n == lanes_for(self.nbits as nat),
                self.nbits == before.nbits,
                i <= n,
                forall|j: int, k: u64|
                    0 <= j < i && k < 64 ==> #[trigger] lane_bit(self.words@[j], k) == (!lane_bit(
                        before.words@[j],
                        k,
                    ) && j * 64 + k < self.nbits),
                forall|j: int| i <= j < n ==> self.words@[j] == before.words@[j],
            decreases n - i,
        {
            let mask = self.tail_mask(i);
            let v = !self.words[i] & mask;
            proof {
                assert forall|k: u64| k < 64 implies #[trigger] lane_bit(v, k) == (!lane_bit(
                    before.words@[i as int],
                    k,
                ) && i * 64 + k < self.nbits) by {
                    lemma_and(!before.words@[i as int], mask, k);
                    lemma_not(before.words@[i as int], k);
                }
            }
            self.words.set(i, v);
            i = i + 1;
        }
        proof {
            assert forall|i: nat| i < n * 64 implies #[trigger] self.bit(i) == (!before.bit(i)
                && i < self.nbits) by {
                let j = (i / 64) as int;
                let k = (i % 64) as u64;
                assert(lane_bit(self.words@[j], k) == (!lane_bit(before.words@[j], k) && j * 64 + k
                    < self.nbits));
            }
            assert(self.view() =~= below(before.nbits as nat).difference(before.view()));
        }
    }

    fn clear(&mut self) {
        let ghost before = *self;
        let n = self.words.len();
        let mut i: usize = 0;
        while i < n
            invariant
                n == self.words@.len(),
                n == before.words@.len(),
                self.nbits == before.nbits,
                i <= n,
                forall|j: int| 0 <= j < i ==> self.words@[j] == 0u64,
                forall|j: int| i <= j < n ==> self.words@[j] == before.words@[j],
            decreases n - i,
        {
            self.words.set(i, 0u64);
            i = i + 1;
        }
        proof {
            assert forall|i: nat| i < n * 64 implies !#[trigger] self.bit(i) by {
                lemma_zero((i % 64) as u64);
            }
            assert(self.view() =~= Set::<nat>::empty());
        }
    }

    fn insert_all(&mut self) {
        let ghost before = *self;
        let n = self.words.len();
        let mut i: usize = 0;
        while i < n
            invariant
                n == self.words@.len(),
                n == before.words@.len(),
                n == lanes_for(self.nbits as nat),
                self.nbits == before.nbits,
                i <= n,
                forall|j: int, k: u64|
                    0 <= j < i && k < 64 ==> #[trigger] lane_bit(self.words@[j], k) == (j * 64 + k
                        < self.nbits),
                forall|j: int| i <= j < n ==> self.words@[j] == before.words@[j],
            decreases n - i,
        {
            let mask = self.tail_mask(i);
            self.words.set(i, mask);
            i = i + 1;
        }
        proof {
            assert forall|i: nat| i < n * 64 implies #[trigger] self.bit(i) == (i < self.nbits) by {
                let j = (i / 64) as int;
                let k = (i % 64) as u64;
                assert(lane_bit(self.words@[j], k) == (j * 64 + k < self.nbits));
            }
            assert(self.view() =~= below(before.nbits as nat));
        }
    }

    fn superset(&self, other: &Self) -> (r: bool) {
        let mut joined = self.clone();
        joined.union(other);
        let n = self.len();
        let m = joined.len();
        proof {
            self.lemma_members_bounded();
            other.lemma_members_bounded();
            crate::bitset::lemma_len_differs_iff(self.view(), joined.view());
            if other.view().subset_of(self.view()) {
                assert(joined.view() =~= self.view());
            }
        }
        n == m
    }

    fn copy_from(&mut self, other: &Self) {
        let ghost before = *self;
        let n = self.words.len();
        let mut i: usize = 0;
        while i < n
            invariant
                n == self.words@.len(),
                n == other.words@.len(),
                n == before.words@.len(),
                self.nbits == before.nbits,
                i <= n,
                forall|j: int| 0 <= j < i ==> self.words@[j] == other.words@[j],
                forall|j: int| i <= j < n ==> self.words@[j] == before.words@[j],
            decreases n - i,
        {
            let v = other.words[i];
            self.words.set(i, v);
            i = i + 1;
        }
        proof {
            assert(self.words@ =~= other.words@);
            assert forall|i: nat| #![all_triggers] self.bit(i) == other.bit(i) by {}
            assert(self.view() =~= other.view());
        }
    }
}

impl Clone for SimdBitset {
    fn clone(&self) -> (r: Self)
        ensures
            r.wf() == self.wf(),
            r.capacity() == self.capacity(),
            r.view() == self.view(),
    {
        let mut words: Vec<u64> = Vec::with_capacity(self.words.len());
        let mut i: usize = 0;
        while i < self.words.len()
            invariant
                i <= self.words@.len(),
                words@ == self.words@.subrange(0, i as int),
            decreases self.words@.len() - i,
        {
            words.push(self.words[i]);
            i = i + 1;
        }
        proof {
            assert(words@ =~= self.words@);
        }
        let r = SimdBitset { words, nbits: self.nbits };
        proof {
            assert forall|i: nat| #![all_triggers] r.bit(i) == self.bit(i) by {}
            assert(r.view() =~= self.view());
        }
        r
    }
}

/// Cursor over the members of a [`SimdBitset`], in ascending order.
///
/// The cursor holds the lane it scans, with the bits already handed out cleared,
/// and moves past lanes, and whole chunks, with no set bit without testing their
/// bits one by one.
pub struct SimdSetIter<'a> {
    set: &'a SimdBitset,
    word: usize,
    lane: u64,
    next_index: Ghost<nat>,
}

impl<'a> SimdSetIter<'a> {
    /// The set being walked.
    pub closed spec fn set(&self) -> SimdBitset {
        *self.set
    }

    /// The first index not yet considered.
    pub closed spec fn position(&self) -> nat {
        self.next_index@
    }

    /// The members not yet handed out.
    pub open spec fn remaining(&self) -> Set<nat> {
        Set::new(|x: nat| x >= self.position() && self.set().view().contains(x))
    }

    /// The cursor's lane agrees with the set at and after the position.
    pub closed spec fn wf(&self) -> bool {
        &&& self.set.wf()
        &&& self.word <= self.set.words@.len()
        &&& self.word < self.set.words@.len() ==> {
            &&& self.word * 64 <= self.next_index@ <= self.word * 64 + 64
            &&& forall|k: u64|
                k < 64 ==> #[trigger] lane_bit(self.lane, k) == (lane_bit(
                    self.set.words@[self.word as int],
                    k,
                ) && self.word * 64 + k >= self.next_index@)
        }
        &&& self.word == self.set.words@.len() ==> {
            &&& self.lane == 0
            &&& self.next_index@ == self.word * 64
        }
    }

    /// A cursor at the first index of `set`.
    pub fn new(set: &'a SimdBitset) -> (r: Self)
        requires
            set.wf(),
        ensures
            r.wf(),
            r.set() == *set,
            r.position() == 0,
    {
        if set.words.len() == 0 {
            SimdSetIter { set, word: 0, lane: 0, next_index: Ghost(0) }
        } else {
            SimdSetIter { set, word: 0, lane: set.words[0], next_index: Ghost(0) }
        }
    }

    /// Hands out the least member not yet handed out, or `None` when there is none.
    pub fn next(&mut self) -> (r: Option<usize>)
        requires
            old(self).wf(),
        ensures
            final(self).wf(),
            final(self).set() == old(self).set(),
            match r {
                None => old(self).remaining() == Set::<nat>::empty(),
                Some(x) => {
                    &&& old(self).remaining().contains(x as nat)
                    &&& forall|y: nat| old(self).remaining().contains(y) ==> x <= y
                    &&& final(self).position() == x + 1
                },
            },
    {
        let ghost start = self.remaining();
        let n = self.set.words.len();
        proof {
            self.set.lemma_capacity_in_buffer();
        }
        if self.word >= n {
            proof {
                assert(self.remaining() =~= Set::<nat>::empty());
            }
            return None;
        }
        while self.lane == 0
            invariant
                self.wf(),
                n == self.set.words@.len(),
                self.word < n,
                self.set() == old(self).set(),
                self.remaining() == start,
                start == old(self).remaining(),
            decreases n - self.word,
        {
            proof {
                assert forall|x: nat|
                    self.word * 64 + 64 > x >= self.next_index@ implies !self.set().view().contains(
                    x,
                ) by {
                    let k = (x - self.word * 64) as u64;
                    assert(x / 64 == self.word);
                    assert(x % 64 == k);
                    lemma_zero(k);
                    assert(!lane_bit(self.lane, k));
                }
            }
            if self.word + 1 >= n {
                proof {
                    assert forall|x: nat| start.contains(x) implies false by {
                        assert(self.set().view().contains(x));
                    }
                    assert(start =~= Set::<nat>::empty());
                }
                self.word = n;
                self.next_index = Ghost((n * 64) as nat);
                proof {
                    assert(self.remaining() =~= Set::<nat>::empty());
                }
                return None;
            }
            let next = self.word + 1;
            proof {
                assert(n % 4 == 0);
            }
            if next % LANES == 0 && self.set.chunk_is_zero(next) {
                proof {
                    assert forall|x: nat|
                        next * 64 <= x < next * 64 + 256 implies !self.set().view().contains(x) by {
                        let k = (x % 64) as u64;
                        assert(self.set.words@[(x / 64) as int] == 0u64);
                        lemma_zero(k);
                    }
                }
                self.word = next + LANES - 1;
                self.lane = 0;
                self.next_index = Ghost((self.word * 64 + 64) as nat);
                proof {
                    assert forall|k: u64| k < 64 implies #[trigger] lane_bit(self.lane, k) == (lane_bit(
                        self.set.words@[self.word as int],
                        k,
                    ) && self.word * 64 + k >= self.next_index@) by {
                        lemma_zero(k);
                    }
                    assert(self.remaining() =~= start);
                }
            } else {
                self.word = next;
                self.lane = self.set.words[self.word];
                self.next_index = Ghost((self.word * 64) as nat);
                proof {
                    assert(self.remaining() =~= start);
                }
            }
        }
        proof {
            vstd::std_specs::bits::axiom_u64_trailing_zeros(self.lane);
        }
        let zeros = self.lane.trailing_zeros();
        let ghost x: nat = (self.word * 64 + zeros) as nat;
        proof {
            lemma_test_bit(self.lane, zeros as u64);
            assert(x / 64 == self.word);
            assert(x % 64 == zeros);
            assert(self.set().bit(x));
            assert(x < self.set().nbits);
            assert forall|y: nat| start.contains(y) implies x <= y by {
                if y < x {
                    let k = (y - self.word * 64) as u64;
                    assert(y / 64 == self.word);
                    assert(y % 64 == k);
                    assert(lane_bit(self.lane, k));
                    assert((self.lane >> k) & 1u64 == 0u64);
                }
            }
        }
        let idx = self.word * LANE_BITS + zeros as usize;
        let ghost before = self.lane;
        self.lane = self.lane & !(1u64 << (zeros as u64));
        self.next_index = Ghost((idx + 1) as nat);
        proof {
            assert forall|k: u64| k < 64 implies #[trigger] lane_bit(self.lane, k) == (lane_bit(
                self.set.words@[self.word as int],
                k,
            ) && self.word * 64 + k >= self.next_index@) by {
                lemma_clear_bit(before, zeros as u64, k);
                if k < zeros {
                    assert((before >> k) & 1u64 == 0u64);
                }
            }
        }
        Some(idx)
    }
}

/// Where the bit at `index` lives.
pub proof fn lemma_coords(index: int)
    requires
        index >= 0,
    ensures
        (index / 256) * 4 + (index % 256) / 64 == index / 64,
        (index % 256) % 64 == index % 64,
        (index % 256) / 64 < 4,
{
    assert((index / 256) * 4 + (index % 256) / 64 == index / 64) by (nonlinear_arith)
        requires
            index >= 0,
    ;
    assert((index % 256) % 64 == index % 64) by (nonlinear_arith)
        requires
            index >= 0,
    ;
}

} // verus!
