//! Clearing runs of bits at either end of a machine word.
use vstd::prelude::*;

verus! {

/// All 64 bits set.
pub const ALL_ONES: u64 = 0xFFFF_FFFF_FFFF_FFFFu64;

/// `x` with its `n` lowest bits cleared (every bit when `n >= 64`).
pub open spec fn low_cleared(x: u64, n: u32) -> u64 {
    if n >= 64 {
        0
    } else {
        x & (ALL_ONES << n)
    }
}

/// `x` with its `n` highest bits cleared (every bit when `n >= 64`).
pub open spec fn high_cleared(x: u64, n: u32) -> u64 {
    if n >= 64 {
        0
    } else {
        x & (ALL_ONES >> n)
    }
}

/// Bit `bit` of `val`, false for positions past the word.
pub open spec fn bit_set(val: u64, bit: u8) -> bool {
    bit < 64 && (val >> bit) & 1 == 1
}

pub fn testbit(val: u64, bit: u8) -> (r: bool)
    ensures
        r == bit_set(val, bit),
{
    if bit >= 64 {
        return false;
    }
    proof {
        lemma_test_bit(val, bit as u64);
    }
    (val & (1u64 << bit)) != 0
}

proof fn lemma_test_bit(val: u64, bit: u64)
    by (bit_vector)
    requires
        bit < 64,
    ensures
        ((val & (1u64 << bit)) != 0) == ((val >> bit) & 1 == 1),
{
}

/// Clearing a run of bits at either end of a word, in place.
pub trait BitOps: Sized {
    /// The value with its `n` lowest bits cleared.
    spec fn spec_clear_low(self, n: u32) -> Self;

    /// The value with its `n` highest bits cleared.
    spec fn spec_clear_high(self, n: u32) -> Self;

    /// Clears the `n` lowest bits.
    fn clear_low_bits(&mut self, n: u32)
        ensures
            *final(self) == old(self).spec_clear_low(n),
    ;

    /// Clears the `n` highest bits.
    fn clear_high_bits(&mut self, n: u32)
        ensures
            *final(self) == old(self).spec_clear_high(n),
    ;
}

impl BitOps for u64 {
    open spec fn spec_clear_low(self, n: u32) -> u64 {
        low_cleared(self, n)
    }

    open spec fn spec_clear_high(self, n: u32) -> u64 {
        high_cleared(self, n)
    }

    fn clear_low_bits(&mut self, n: u32) {
        if n >= 64 {
            *self = 0;
        } else {
            *self = *self & ALL_ONES.wrapping_shl(n);
        }
    }

    fn clear_high_bits(&mut self, n: u32) {
        if n >= 64 {
            *self = 0;
        } else {
            *self = *self & (ALL_ONES >> n);
        }
    }
}

} // verus!

verus! {

/// The number of set bits of `x`.
pub open spec fn popcount(x: u64) -> nat
    decreases x,
{
    if x == 0 {
        0
    } else {
        (x % 2) as nat + popcount(x / 2)
    }
}

/// A word below `2^k` has at most `k` set bits.
proof fn lemma_popcount_bound(x: u64, k: nat)
    requires
        x < vstd::arithmetic::power2::pow2(k),
    ensures
        popcount(x) <= k,
    decreases k,
{
    if x != 0 {
        if k == 0 {
            vstd::arithmetic::power2::lemma2_to64();
        } else {
            vstd::arithmetic::power2::lemma_pow2_unfold(k);
            lemma_popcount_bound(x / 2, (k - 1) as nat);
        }
    }
}

/// The number of set bits of `x`.
pub fn count_ones(x: u64) -> (r: u32)
    ensures
        r == popcount(x),
        r <= 64,
{
    proof {
        vstd::arithmetic::power2::lemma2_to64();
        lemma_popcount_bound(x, 64);
    }
    let mut y = x;
    let mut c: u32 = 0;
    while y != 0
        invariant
            c + popcount(y) == popcount(x),
            popcount(x) <= 64,
        decreases y,
    {
        c = c + (y % 2) as u32;
        y = y / 2;
    }
    c
}

/// The `n` lowest bits set (`(1 << n) - 1`).
pub fn low_bits(n: u32) -> (r: u64)
    requires
        n <= 64,
    ensures
        r == crate::tnum::low_ones(n as u64),
{
    if n == 0 {
        0
    } else if n >= 64 {
        ALL_ONES
    } else {
        ALL_ONES >> (64 - n) as u64
    }
}

} // verus!

verus! {

/// Masking, clearing and setting runs of bits keep a value and a mask
/// disjoint.
pub proof fn lemma_disjoint_facts()
    by (bit_vector)
    ensures
        forall|v: u64, m: u64, k: u64| v & m == 0 ==> #[trigger] ((v & k) & (m & k)) == 0,
        forall|v: u64, m: u64, k: u64| v & m == 0 ==> #[trigger] ((k & v) & (k & m)) == 0,
        forall|sv: u64, mu: u64| #[trigger] ((sv & !mu) & mu) == 0,
        forall|v: u64, m: u64, k: u64| v & m == 0 ==> #[trigger] ((!k | v) & (k & m)) == 0,
        forall|h: u64| #[trigger] ((0u64 | h) & (0xFFFF_FFFF_FFFF_FFFFu64 & !h)) == 0,
        forall|k: u64| #[trigger] ((0u64 & k) & (0xFFFF_FFFF_FFFF_FFFFu64 & k)) == 0,
{
}

} // verus!
