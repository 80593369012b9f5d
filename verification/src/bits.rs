//! Bit-level helpers shared by the board representation: single-bit tests
//! and a verified population count.

use vstd::prelude::*;

verus! {

/// True when bit `i` of `m` is set.
pub open spec fn bit(m: u64, i: u64) -> bool {
    (m >> i) & 1u64 == 1u64
}

/// The lowest set bit of a non-zero word is its trailing-zero count, and
/// `m & (m - 1)` clears exactly that bit.
/// The mask with only the lowest set bit of `m` cleared.
pub open spec fn clear_lowest(m: u64) -> u64 {
    m & ((m - 1) as u64)
}

pub proof fn lemma_lowest_bit(m: u64)
    requires
        m != 0,
    ensures
        vstd::std_specs::bits::u64_trailing_zeros(m) < 64,
        bit(m, vstd::std_specs::bits::u64_trailing_zeros(m) as u64),
        clear_lowest(m) < m,
        forall|i: u64|
            i < 64 ==> #[trigger] bit(clear_lowest(m), i) == (bit(m, i) && i
                != vstd::std_specs::bits::u64_trailing_zeros(m) as u64),
{
    vstd::std_specs::bits::axiom_u64_trailing_zeros(m);
    let t = vstd::std_specs::bits::u64_trailing_zeros(m) as u64;
    let m1 = (m - 1) as u64;
    assert(m & m1 < m) by (bit_vector)
        requires
            m != 0,
            m1 == (m - 1) as u64,
    ;
    assert(m << ((64 - t) as u64) == 0);
    assert forall|i: u64| i < 64 implies #[trigger] bit(m & m1, i) == (bit(m, i) && i != t) by {
        assert((((m & m1) >> i) & 1u64 == 1u64) == (((m >> i) & 1u64 == 1u64) && i != t))
            by (bit_vector)
            requires
                m != 0,
                m1 == (m - 1) as u64,
                t < 64,
                i < 64,
                (m >> t) & 1u64 == 1u64,
                m << ((64 - t) as u64) == 0,
        ;
    }
}

/// The number of set bits of `m`, defined by peeling the lowest bit.
pub open spec fn count_bits(m: u64) -> nat
    decreases m,
{
    if m == 0 {
        0
    } else {
        ((m % 2) + count_bits(m / 2)) as nat
    }
}

/// Each set bit of `m` contributes at least once, so a word bounded by
/// `2^w` holds at most `w` set bits.
pub proof fn lemma_count_bits_bounded(m: u64, w: nat)
    requires
        m < vstd::arithmetic::power2::pow2(w),
    ensures
        count_bits(m) <= w,
    decreases w,
{
    if m == 0 {
    } else if w == 0 {
        assert(vstd::arithmetic::power2::pow2(0) == 1) by {
            vstd::arithmetic::power2::lemma2_to64();
        }
    } else {
        vstd::arithmetic::power2::lemma_pow2_unfold(w);
        assert(m / 2 < vstd::arithmetic::power2::pow2((w - 1) as nat));
        lemma_count_bits_bounded(m / 2, (w - 1) as nat);
    }
}

/// Every 64-bit word has at most 64 set bits.
pub proof fn lemma_count_bits_le_64(m: u64)
    ensures
        count_bits(m) <= 64,
{
    vstd::arithmetic::power2::lemma2_to64();
    assert(m < vstd::arithmetic::power2::pow2(64)) by {
        vstd::arithmetic::power2::lemma2_to64_rest();
    }
    lemma_count_bits_bounded(m, 64);
}

/// A submask has no more set bits than the mask that contains it.
pub proof fn lemma_count_bits_subset(a: u64, b: u64)
    requires
        a & b == a,
    ensures
        count_bits(a) <= count_bits(b),
    decreases b,
{
    assert((a & 0 == 0) && ((a & b == a) ==> ((a / 2) & (b / 2) == (a / 2)) && (a % 2 <= b % 2))
        && (b != 0 ==> b / 2 < b) && (a != 0 ==> a / 2 < a)) by (bit_vector);
    if b != 0 && a != 0 {
        lemma_count_bits_subset(a / 2, b / 2);
    }
}

/// Disjoint masks share no set bit.
pub proof fn lemma_disjoint_bit(a: u64, b: u64, i: u64)
    requires
        a & b == 0,
        i < 64,
    ensures
        !(bit(a, i) && bit(b, i)),
{
    assert(a & b == 0 ==> !(((a >> i) & 1u64 == 1u64) && ((b >> i) & 1u64 == 1u64)))
        by (bit_vector)
        requires
            i < 64,
    ;
}

/// A set bit of a submask is a set bit of the containing mask.
pub proof fn lemma_subset_bit(a: u64, b: u64, i: u64)
    requires
        a & b == a,
        i < 64,
    ensures
        bit(a, i) ==> bit(b, i),
{
    assert(a & b == a ==> (((a >> i) & 1u64 == 1u64) ==> ((b >> i) & 1u64 == 1u64)))
        by (bit_vector)
        requires
            i < 64,
    ;
}

pub broadcast proof fn lemma_bit_or(a: u64, b: u64, i: u64)
    requires
        i < 64,
    ensures
        #[trigger] bit(a | b, i) == (bit(a, i) || bit(b, i)),
{
    assert((((a | b) >> i) & 1u64 == 1u64) == (((a >> i) & 1u64 == 1u64) || ((b >> i) & 1u64
        == 1u64))) by (bit_vector)
        requires
            i < 64,
    ;
}

pub broadcast proof fn lemma_bit_and(a: u64, b: u64, i: u64)
    requires
        i < 64,
    ensures
        #[trigger] bit(a & b, i) == (bit(a, i) && bit(b, i)),
{
    assert((((a & b) >> i) & 1u64 == 1u64) == (((a >> i) & 1u64 == 1u64) && ((b >> i) & 1u64
        == 1u64))) by (bit_vector)
        requires
            i < 64,
    ;
}

pub broadcast proof fn lemma_bit_not(a: u64, i: u64)
    requires
        i < 64,
    ensures
        #[trigger] bit(!a, i) == !bit(a, i),
{
    assert((((!a) >> i) & 1u64 == 1u64) == !((a >> i) & 1u64 == 1u64)) by (bit_vector)
        requires
            i < 64,
    ;
}

/// Clearing the lowest set bit removes exactly one from the population
/// count.
pub proof fn lemma_count_clear_lowest(m: u64)
    requires
        m != 0,
    ensures
        count_bits(clear_lowest(m)) == count_bits(m) - 1,
    decreases m,
{
    assert(((m % 2 == 1) ==> clear_lowest(m) == m - 1) && ((m % 2 == 1 && m != 1) ==> ((m
        - 1) as u64 % 2 == 0 && ((m - 1) as u64) / 2 == m / 2)) && ((m % 2 == 0) ==> (m / 2 != 0
        && m / 2 < m && clear_lowest(m) % 2 == 0 && clear_lowest(m) / 2 == clear_lowest(m / 2))))
        by (bit_vector)
        requires
            m != 0,
    ;
    if m % 2 == 0 {
        lemma_count_clear_lowest(m / 2);
    }
}

pub broadcast proof fn lemma_bitand_comm(a: u64, b: u64)
    ensures
        #[trigger] (a & b) == (b & a),
{
    assert(a & b == b & a) by (bit_vector);
}

pub broadcast proof fn lemma_bitor_comm(a: u64, b: u64)
    ensures
        #[trigger] (a | b) == (b | a),
{
    assert(a | b == b | a) by (bit_vector);
}

/// The playable-region mask has exactly 49 set bits.
#[verifier::rlimit(100)]
pub proof fn lemma_count_bits_all_cells()
    ensures
        count_bits(0x7f7f7f7f7f7f7fu64) == 49,
{
    reveal_with_fuel(count_bits, 60);
}

/// The number of set bits of `m`, computed by repeated halving.
pub fn popcount(m: u64) -> (r: u32)
    ensures
        r == count_bits(m),
{
    proof {
        lemma_count_bits_le_64(m);
    }
    let mut x: u64 = m;
    let mut c: u32 = 0;
    while x != 0
        invariant
            c + count_bits(x) == count_bits(m),
        decreases x,
    {
        proof {
            lemma_count_bits_le_64(m);
        }
        c = c + (x % 2) as u32;
        x = x / 2;
    }
    c
}

} // verus!
