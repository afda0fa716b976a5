//! The tristate number itself: representation, constructors and predicates.
use vstd::prelude::*;
use vstd::std_specs::bits::{axiom_u64_leading_zeros, u64_leading_zeros, u64_trailing_zeros};

use crate::bits::{high_cleared, ALL_ONES};

verus! {

/// The sign bit of a 64-bit word.
pub const SIGN_BIT: u64 = 0x8000_0000_0000_0000u64;

/// The `n` lowest bits set, the rest clear.
pub open spec fn low_ones(n: u64) -> u64 {
    if n == 0 {
        0
    } else if n >= 64 {
        ALL_ONES
    } else {
        ALL_ONES >> (64 - n) as u64
    }
}

/// A set of 64-bit words given by known bits: bit `i` of `mask` set means
/// bit `i` is unknown, clear means bit `i` equals bit `i` of `value`.
#[derive(Debug, Clone, Copy, PartialEq, Eq, Structural)]
pub struct Tnum {
    pub value: u64,
    pub mask: u64,
}

impl Tnum {
    /// No bit is claimed both known and unknown.
    pub open spec fn wf(self) -> bool {
        self.value & self.mask == 0
    }

    /// Well formed, or the canonical empty element.
    pub open spec fn valid(self) -> bool {
        self.wf() || self == Tnum::spec_bottom()
    }

    /// `w` is one of the words that the tnum stands for. A tnum that is not
    /// well formed stands for no word at all.
    pub open spec fn has(self, w: u64) -> bool {
        self.wf() && (w ^ self.value) & !self.mask == 0
    }

    pub open spec fn spec_bottom() -> Tnum {
        Tnum { value: ALL_ONES, mask: ALL_ONES }
    }

    pub open spec fn spec_top() -> Tnum {
        Tnum { value: 0, mask: ALL_ONES }
    }

    pub open spec fn spec_const(v: u64) -> Tnum {
        Tnum { value: v, mask: 0 }
    }

    pub open spec fn spec_is_bottom(self) -> bool {
        self.value & self.mask != 0
    }

    pub open spec fn spec_is_top(self) -> bool {
        self.value == 0 && self.mask == ALL_ONES
    }

    /// The smallest tnum that holds every word of `[min, max]`.
    pub open spec fn spec_from_range(min: u64, max: u64) -> Tnum {
        let bits = 64 - u64_leading_zeros(min ^ max);
        if bits > 63 {
            Tnum::spec_top()
        } else {
            let delta = low_ones(bits as u64);
            Tnum { value: min & !delta, mask: delta }
        }
    }

    pub fn new(value: u64, mask: u64) -> (r: Self)
        ensures
            r == (Tnum { value, mask }),
    {
        Self { value, mask }
    }

    /// The empty element.
    pub fn bottom() -> (r: Self)
        ensures
            r == Tnum::spec_bottom(),
            r.spec_is_bottom(),
            forall|w: u64| !r.has(w),
    {
        proof {
            lemma_word_constants();
        }
        Self::new(ALL_ONES, ALL_ONES)
    }

    /// The element that holds every word.
    pub fn top() -> (r: Self)
        ensures
            r == Tnum::spec_top(),
            r.wf(),
            forall|w: u64| #[trigger] r.has(w),
    {
        proof {
            lemma_word_constants();
        }
        Self::new(0, ALL_ONES)
    }

    /// The element that holds exactly `value`.
    pub fn const_val(value: u64) -> (r: Self)
        ensures
            r == Tnum::spec_const(value),
            r.wf(),
            forall|w: u64| #[trigger] r.has(w) <==> w == value,
    {
        proof {
            lemma_word_constants();
        }
        Self::new(value, 0)
    }

    /// The smallest tnum holding the interval `[min, max]`: every bit at or
    /// below the highest bit where `min` and `max` differ becomes unknown.
    pub fn from_range(min: u64, max: u64) -> (r: Self)
        ensures
            r == Tnum::spec_from_range(min, max),
            r.wf(),
            forall|w: u64| min <= w <= max ==> #[trigger] r.has(w),
    {
        let chi = min ^ max;
        proof {
            axiom_u64_leading_zeros(chi);
        }
        let bits = (64 - chi.leading_zeros()) as u64;
        if bits > 63 {
            return Self::top();
        }
        let delta: u64 = if bits == 0 {
            0
        } else {
            ALL_ONES >> (64 - bits)
        };
        proof {
            assert forall|w: u64| min <= w <= max implies #[trigger] (Tnum {
                value: min & !delta,
                mask: delta,
            }).has(w) by {
                lemma_range_has(min, max, w, bits);
            }
            lemma_range_has(min, max, 0, bits);
        }
        Self::new(min & !delta, delta)
    }

    pub fn value(&self) -> (r: u64)
        ensures
            r == self.value,
    {
        self.value
    }

    pub fn mask(&self) -> (r: u64)
        ensures
            r == self.mask,
    {
        self.mask
    }

    /// Exactly the word zero.
    pub fn is_zero(&self) -> (r: bool)
        ensures
            r == (*self == Tnum::spec_const(0)),
    {
        self.value == 0 && self.mask == 0
    }

    /// Some bit is claimed both known and unknown: the tnum holds no word.
    pub fn is_bottom(&self) -> (r: bool)
        ensures
            r == self.spec_is_bottom(),
            r == !self.wf(),
    {
        (self.value & self.mask) != 0
    }

    pub fn is_top(&self) -> (r: bool)
        ensures
            r == self.spec_is_top(),
    {
        self.value == 0 && self.mask == ALL_ONES
    }

    /// Every bit is known.
    pub fn is_singleton(&self) -> (r: bool)
        ensures
            r == (self.mask == 0),
    {
        self.mask == 0
    }

    /// The sign bit is known to be 0.
    pub fn is_nonnegative(&self) -> (r: bool)
        ensures
            r == (self.value & SIGN_BIT == 0 && self.mask & SIGN_BIT == 0),
    {
        (self.value & SIGN_BIT) == 0 && (self.mask & SIGN_BIT) == 0
    }

    /// The sign bit is known to be 1.
    pub fn is_negative(&self) -> (r: bool)
        ensures
            r == (self.value & SIGN_BIT != 0 && self.mask & SIGN_BIT == 0),
    {
        (self.value & SIGN_BIT) != 0 && (self.mask & SIGN_BIT) == 0
    }

    pub fn countl_zero(&self) -> (r: u32)
        ensures
            r as int == u64_leading_zeros(self.value),
    {
        self.value.leading_zeros()
    }

    pub fn countr_zero(&self) -> (r: u32)
        ensures
            r == u64_trailing_zeros(self.value),
    {
        self.value.trailing_zeros()
    }

    /// Leading zeros of the largest word held (`value + mask`).
    pub fn count_min_leading_zeros(&self) -> (r: u32)
        ensures
            r as int == u64_leading_zeros(self.value.wrapping_add(self.mask)),
    {
        let max = self.value.wrapping_add(self.mask);
        max.leading_zeros()
    }

    /// Trailing zeros of `value + mask`.
    pub fn count_min_trailing_zeros(&self) -> (r: u32)
        ensures
            r == u64_trailing_zeros(self.value.wrapping_add(self.mask)),
    {
        let max = self.value.wrapping_add(self.mask);
        max.trailing_zeros()
    }

    /// Leading zeros of the smallest word held (`value`).
    pub fn count_max_leading_zeros(&self) -> (r: u32)
        ensures
            r as int == u64_leading_zeros(self.value),
    {
        self.value.leading_zeros()
    }

    /// Trailing zeros of `value`.
    pub fn count_max_trailing_zeros(&self) -> (r: u32)
        ensures
            r == u64_trailing_zeros(self.value),
    {
        self.value.trailing_zeros()
    }

    /// Makes the `n` highest bits known zero.
    pub fn clear_high_bits(&mut self, n: u32)
        ensures
            final(self).value == high_cleared(old(self).value, n),
            final(self).mask == high_cleared(old(self).mask, n),
            old(self).wf() ==> final(self).wf(),
    {
        proof {
            crate::bits::lemma_disjoint_facts();
            lemma_word_constants();
        }
        if n >= 64 {
            self.value = 0;
            self.mask = 0;
        } else {
            let keep = ALL_ONES >> n;
            self.value = self.value & keep;
            self.mask = self.mask & keep;
        }
    }
}

/// Facts on the fixed words that the distinguished elements are made of.
pub proof fn lemma_word_constants()
    by (bit_vector)
    ensures
        0u64 & 0xFFFF_FFFF_FFFF_FFFFu64 == 0,
        0xFFFF_FFFF_FFFF_FFFFu64 & 0xFFFF_FFFF_FFFF_FFFFu64 != 0,
        forall|w: u64| #[trigger] (w ^ 0) & !0xFFFF_FFFF_FFFF_FFFFu64 == 0,
        forall|v: u64| #[trigger] (v & 0) == 0,
        forall|v: u64| #[trigger] (0u64 & v) == 0,
        forall|s: u32| #[trigger] (0u64 << (s % 64)) == 0,
        forall|s: u64| #[trigger] (0u64 >> s) == 0,
        0xFFFF_FFFF_FFFF_FFFFu64 >> 63u64 != 0,
        0u64 ^ 0u64 == 0 && 0u64 | 0u64 == 0 && 0u64 & !0u64 == 0,
        !0xFFFF_FFFF_FFFF_FFFFu64 == 0 && 0xFFFF_FFFF_FFFF_FFFFu64 | 0u64
            == 0xFFFF_FFFF_FFFF_FFFFu64,
        forall|s: u64| #[trigger] !((!0xFFFF_FFFF_FFFF_FFFFu64) >> s) == 0xFFFF_FFFF_FFFF_FFFFu64,
        forall|v: u64, w: u64| #[trigger] ((w ^ v) & !0u64) == 0 <==> w == v,
{
}

proof fn lemma_range_has(min: u64, max: u64, w: u64, b: u64)
    by (bit_vector)
    requires
        b <= 63,
        (min ^ max) >> b == 0,
    ensures
        ({
            let d = if b == 0 { 0 } else { 0xFFFF_FFFF_FFFF_FFFFu64 >> (64 - b) as u64 };
            (min & !d) & d == 0 && (min <= w <= max ==> (w ^ (min & !d)) & !d == 0)
        }),
{
}

} // verus!
