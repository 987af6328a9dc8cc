//! Facts about single 64-bit lanes, the unit of storage of the dense bit-set.
use vstd::prelude::*;

verus! {

/// Number of bits in one lane.
pub const LANE_BITS: usize = 64;

/// Bit `k` (counted from the least significant end) of lane `w`.
pub open spec fn lane_bit(w: u64, k: u64) -> bool {
    (w >> k) & 1u64 == 1u64
}

/// Number of ones among the lowest `j` bits of `w`.
pub open spec fn ones_below(w: u64, j: nat) -> nat
    decreases j,
{
    if j == 0 {
        0
    } else {
        ones_below(w, (j - 1) as nat) + if lane_bit(w, (j - 1) as u64) {
            1nat
        } else {
            0nat
        }
    }
}

/// The offsets of the ones among the lowest `j` bits of `w`.
pub open spec fn lane_offsets(w: u64, j: nat) -> Set<nat> {
    Set::new(|k: nat| k < j && lane_bit(w, k as u64))
}

pub proof fn lemma_or(a: u64, b: u64, k: u64)
    requires
        k < 64,
    ensures
        lane_bit(a | b, k) == (lane_bit(a, k) || lane_bit(b, k)),
{
    assert(((a | b) >> k) & 1u64 == 1u64 <==> ((a >> k) & 1u64 == 1u64 || (b >> k) & 1u64 == 1u64))
        by (bit_vector)
        requires
            k < 64,
    ;
}

pub proof fn lemma_and(a: u64, b: u64, k: u64)
    requires
        k < 64,
    ensures
        lane_bit(a & b, k) == (lane_bit(a, k) && lane_bit(b, k)),
{
    assert(((a & b) >> k) & 1u64 == 1u64 <==> ((a >> k) & 1u64 == 1u64 && (b >> k) & 1u64 == 1u64))
        by (bit_vector)
        requires
            k < 64,
    ;
}

pub proof fn lemma_not(a: u64, k: u64)
    requires
        k < 64,
    ensures
        lane_bit(!a, k) == !lane_bit(a, k),
{
    assert(((!a) >> k) & 1u64 == 1u64 <==> !((a >> k) & 1u64 == 1u64)) by (bit_vector)
        requires
            k < 64,
    ;
}

pub proof fn lemma_zero(k: u64)
    requires
        k < 64,
    ensures
        !lane_bit(0u64, k),
{
    assert(!((0u64 >> k) & 1u64 == 1u64)) by (bit_vector);
}

/// Setting bit `b` of `a` leaves the other bits alone.
pub proof fn lemma_set_bit(a: u64, b: u64, k: u64)
    requires
        b < 64,
        k < 64,
    ensures
        lane_bit(a | (1u64 << b), k) == (lane_bit(a, k) || k == b),
{
    assert(((a | (1u64 << b)) >> k) & 1u64 == 1u64 <==> ((a >> k) & 1u64 == 1u64 || k == b))
        by (bit_vector)
        requires
            b < 64,
            k < 64,
    ;
}

/// Clearing bit `b` of `a` leaves the other bits alone.
pub proof fn lemma_clear_bit(a: u64, b: u64, k: u64)
    requires
        b < 64,
        k < 64,
    ensures
        lane_bit(a & !(1u64 << b), k) == (lane_bit(a, k) && k != b),
{
    assert(((a & !(1u64 << b)) >> k) & 1u64 == 1u64 <==> ((a >> k) & 1u64 == 1u64 && k != b))
        by (bit_vector)
        requires
            b < 64,
            k < 64,
    ;
}

/// The lane whose lowest `n` bits are ones and whose other bits are zeros.
pub proof fn lemma_low_mask(n: u64, k: u64)
    requires
        n < 64,
        k < 64,
    ensures
        lane_bit(((1u64 << n) - 1) as u64, k) == (k < n),
{
    assert((((((1u64 << n) - 1) as u64) >> k) & 1u64 == 1u64) == (k < n)) by (bit_vector)
        requires
            n < 64,
            k < 64,
    ;
}

pub proof fn lemma_all_ones(k: u64)
    requires
        k < 64,
    ensures
        lane_bit(u64::MAX, k),
{
    assert((0xffff_ffff_ffff_ffffu64 >> k) & 1u64 == 1u64) by (bit_vector)
        requires
            k < 64,
    ;
}

/// Testing bit `b` by shifting it down.
pub proof fn lemma_test_bit(a: u64, b: u64)
    requires
        b < 64,
    ensures
        ((a >> b) & 1u64 == 1u64) == lane_bit(a, b),
{
}

/// The ones of a lane are counted by `ones_below`.
pub proof fn lemma_offsets_len(w: u64, j: nat)
    requires
        j <= 64,
    ensures
        lane_offsets(w, j).finite(),
        lane_offsets(w, j).len() == ones_below(w, j),
    decreases j,
{
    if j == 0 {
        assert(lane_offsets(w, 0) =~= Set::<nat>::empty());
    } else {
        let p = (j - 1) as nat;
        lemma_offsets_len(w, p);
        if lane_bit(w, p as u64) {
            assert(lane_offsets(w, j) =~= lane_offsets(w, p).insert(p));
        } else {
            assert(lane_offsets(w, j) =~= lane_offsets(w, p));
        }
    }
}

/// Counts the ones of `w`, one bit at a time.
pub fn count_ones(w: u64) -> (r: u32)
    ensures
        r as nat == ones_below(w, 64),
        r <= 64,
{
    let mut c: u32 = 0;
    let mut j: u64 = 0;
    while j < 64
        invariant
            j <= 64,
            c as nat == ones_below(w, j as nat),
            c <= j,
        decreases 64 - j,
    {
        proof {
            lemma_test_bit(w, j);
        }
        if (w >> j) & 1u64 == 1u64 {
            c = c + 1;
        }
        j = j + 1;
    }
    c
}

} // verus!
