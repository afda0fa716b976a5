//! Division and remainder, unsigned and signed.
use vstd::prelude::*;
use vstd::std_specs::bits::{u64_leading_zeros, u64_trailing_zeros};

use crate::bits::{high_cleared, lemma_disjoint_facts, low_bits, BitOps, ALL_ONES};
use crate::lattice::has_bits;
use crate::signed::{abs, signed, signed_ge, trunc_rem, wrapping_sdiv, wrapping_srem};
use crate::tnum::{lemma_word_constants, low_ones, Tnum, SIGN_BIT};

verus! {

/// The largest signed word, `i64::MAX`.
pub const SIGNED_MAX: u64 = 0x7FFF_FFFF_FFFF_FFFFu64;

/// `top` with its `n` highest bits made known zero.
pub open spec fn top_below(n: u32) -> Tnum {
    Tnum { value: high_cleared(0, n), mask: high_cleared(ALL_ONES, n) }
}

/// The single set bit of `d`, when `d` has exactly one: the trailing and
/// leading zeros leave room for one bit.
pub open spec fn one_bit(d: u64) -> bool {
    u64_trailing_zeros(d) + u64_leading_zeros(d) + 1 == 64
}

impl Tnum {
    pub open spec fn spec_udiv(self, other: Tnum) -> Tnum {
        self.absorb(
            other,
            if other.value == 0 {
                Tnum::spec_top()
            } else {
                top_below(
                    u64_leading_zeros(((self.value + self.mask) as u64) / other.value) as u32,
                )
            },
        )
    }

    /// The bits of a remainder that the low-bits path keeps: the low bits of
    /// the dividend, every bit above them known zero.
    pub open spec fn spec_rem_low(lhs: Tnum, rhs: Tnum) -> Tnum {
        if Tnum::rem_low_path(rhs) {
            let mask = Tnum::spec_rem_mask(rhs);
            Tnum { value: lhs.value & mask, mask: lhs.mask & mask }
        } else {
            Tnum::spec_top()
        }
    }

    /// A known-even divisor whose `value + mask` has fewer than 64 trailing
    /// zeros: the low-bits path.
    pub open spec fn rem_low_path(rhs: Tnum) -> bool {
        let qzero = u64_trailing_zeros(rhs.value.wrapping_add(rhs.mask));
        !(rhs.value == 0 && rhs.mask == 0) && rhs.value & 1 == 0 && rhs.mask & 1 == 0 && qzero
            != 0 && qzero < 64
    }

    /// The bits that the low-bits path keeps: as many as the trailing zeros
    /// of `value + mask` when there are at least two, none when there is one;
    /// every bit off that path.
    pub open spec fn spec_rem_mask(rhs: Tnum) -> u64 {
        let qzero = u64_trailing_zeros(rhs.value.wrapping_add(rhs.mask));
        if Tnum::rem_low_path(rhs) {
            if qzero > 1 {
                ((1u64 << qzero) - 1) as u64
            } else {
                0
            }
        } else {
            ALL_ONES
        }
    }

    /// `self` with every bit outside `keep` made unknown.
    pub open spec fn keep_low(self, keep: u64) -> Tnum {
        Tnum { value: self.value, mask: self.mask | !keep }
    }

    /// The low bits of the remainder, every higher bit unknown.
    pub open spec fn spec_rem_kept(lhs: Tnum, rhs: Tnum) -> Tnum {
        Tnum::spec_rem_low(lhs, rhs).keep_low(Tnum::spec_rem_mask(rhs))
    }

    pub open spec fn spec_urem(self, other: Tnum) -> Tnum {
        let res = Tnum::spec_rem_kept(self, other);
        let low = (other.value - 1) as u64;
        let lz = {
            let a = u64_leading_zeros(self.value.wrapping_add(self.mask));
            let b = u64_leading_zeros(other.value.wrapping_add(other.mask));
            if a >= b {
                a
            } else {
                b
            }
        };
        self.absorb(
            other,
            if other.value == 0 {
                Tnum::spec_top()
            } else if other.mask == 0 && !((other.value >> 63) & 1 == 1) && one_bit(other.value) {
                Tnum { value: low & self.value, mask: low & self.mask }
            } else {
                Tnum {
                    value: high_cleared(res.value, lz as u32),
                    mask: high_cleared(res.mask, lz as u32),
                }
            },
        )
    }

    /// Signed remainder: computed for two known words; the unsigned
    /// remainder when both operands are nonnegative; else the low bits that
    /// the divisor preserves with every higher bit unknown, and for a
    /// nonnegative dividend the leading zeros of its largest word known.
    pub open spec fn spec_srem(self, other: Tnum) -> Tnum {
        let low = Tnum::spec_rem_kept(self, other);
        let lz = u64_leading_zeros(self.value | self.mask) as u32;
        self.absorb(
            other,
            if other.mask == 0 && other.value == 0 {
                Tnum::spec_top()
            } else if self.mask == 0 && other.mask == 0 {
                Tnum::spec_const(word_srem(self.value, other.value))
            } else if other.value == 0 {
                Tnum::spec_top()
            } else if self.spec_nonnegative() && other.spec_nonnegative() {
                self.spec_urem(other)
            } else if self.spec_nonnegative() {
                Tnum { value: high_cleared(low.value, lz), mask: high_cleared(low.mask, lz) }
            } else {
                low
            },
        )
    }

    pub open spec fn spec_nonnegative(self) -> bool {
        self.value & SIGN_BIT == 0 && self.mask & SIGN_BIT == 0
    }

    pub open spec fn spec_negative(self) -> bool {
        self.value & SIGN_BIT != 0 && self.mask & SIGN_BIT == 0
    }

    /// Unsigned division: `top` when the divisor may be zero, else only the
    /// leading zeros of the largest quotient, `(value + mask) / divisor.value`,
    /// are known.
    pub fn udiv(&self, other: Self) -> (r: Self)
        ensures
            r == self.spec_udiv(other),
            r.valid(),
            self.spec_is_bottom() || other.spec_is_bottom() ==> r == Tnum::spec_bottom(),
            forall|x: u64, y: u64|
                self.has(x) && other.has(y) && y != 0 ==> #[trigger] r.has(x / y),
    {
        proof {
            lemma_word_constants();
            lemma_sum_disjoint(self.value, self.mask);
            lemma_udiv_sound(*self, other);
        }
        if self.is_bottom() || other.is_bottom() {
            return Self::bottom();
        }
        if self.is_top() || other.is_top() {
            return Self::top();
        }
        if other.value == 0 {
            return Self::top();
        }
        let mut res = Tnum::top();
        let max_res = match (self.value + self.mask).checked_div(other.value) {
            Some(result) => result,
            None => return Self::top(),
        };
        let leadz = max_res.leading_zeros();
        res.value.clear_high_bits(leadz);
        res.mask.clear_high_bits(leadz);
        res
    }

    /// Unsigned remainder: exact bits below a power-of-two divisor, else the
    /// low bits that the divisor's trailing zeros preserve, with the leading
    /// zeros common to both operands known.
    pub fn urem(&self, other: Self) -> (r: Self)
        ensures
            r == self.spec_urem(other),
            r.valid(),
            self.spec_is_bottom() || other.spec_is_bottom() ==> r == Tnum::spec_bottom(),
            forall|x: u64, y: u64|
                self.has(x) && other.has(y) && y != 0 ==> #[trigger] r.has(x % y),
    {
        proof {
            lemma_urem_sound(*self, other);
            lemma_sum_disjoint(other.value, other.mask);
            lemma_word_constants();
            lemma_disjoint_facts();
        }
        if self.is_bottom() || other.is_bottom() {
            return Self::bottom();
        } else if self.is_top() || other.is_top() {
            return Self::top();
        }
        if other.value == 0 {
            return Self::top();
        }
        let mut res = rem_get_low_bits(self, &other);
        let keep = rem_low_mask(&other);
        proof {
            lemma_low_bits_has(self.value, self.mask, 0, 0, keep);
        }
        res.mask = res.mask | !keep;
        if other.mask == 0 && !((other.value >> 63) & 1 == 1) && ((other.value.trailing_zeros()
            + other.value.leading_zeros() + 1) == 64) {
            let low_bits = other.value - 1;
            let res_value = low_bits & self.value;
            let res_mask = low_bits & self.mask;
            let r = Self::new(res_value, res_mask);
            proof {
                assert(r == self.spec_urem(other));
            }
            return r;
        }
        let a = self.count_min_leading_zeros();
        let b = other.count_min_leading_zeros();
        let leading_zeros = if a >= b {
            a
        } else {
            b
        };
        res.clear_high_bits(leading_zeros);
        proof {
            assert(res == self.spec_urem(other));
        }
        res
    }

    /// Signed remainder (the sign of the dividend): `top` for a divisor that
    /// may be zero; computed for two known words; the unsigned remainder when
    /// both operands are nonnegative; else the low bits that the divisor
    /// preserves with every higher bit unknown, and for a nonnegative
    /// dividend the leading zeros of its largest word known.
    pub fn srem(&self, other: Self) -> (r: Self)
        ensures
            r == self.spec_srem(other),
            r.valid(),
            self.spec_is_bottom() || other.spec_is_bottom() ==> r == Tnum::spec_bottom(),
            forall|x: u64, y: u64|
                self.has(x) && other.has(y) && y != 0 ==> #[trigger] r.has(word_srem(x, y)),
    {
        proof {
            lemma_word_constants();
            lemma_srem_sound(*self, other);
        }
        if self.is_bottom() || other.is_bottom() {
            return Self::bottom();
        } else if self.is_top() || other.is_top() {
            return Self::top();
        }
        if other.is_zero() {
            return Self::top();
        }
        if self.is_singleton() && other.is_singleton() {
            return Tnum::new(wrapping_srem(self.value, other.value), 0);
        }
        if other.value == 0 {
            return Self::top();
        }
        if self.is_nonnegative() && other.is_nonnegative() {
            return self.urem(other);
        }
        let mut res = rem_get_low_bits(self, &other);
        let keep = rem_low_mask(&other);
        proof {
            lemma_low_bits_has(self.value, self.mask, 0, 0, keep);
        }
        res.mask = res.mask | !keep;
        if self.is_nonnegative() {
            res.clear_high_bits((self.value | self.mask).leading_zeros());
        }
        proof {
            assert(res == self.spec_srem(other));
        }
        res
    }
}

impl Tnum {
    /// The least word held, read as signed.
    pub open spec fn spec_signed_min(self) -> u64 {
        if self.mask & SIGN_BIT != 0 {
            self.value | SIGN_BIT
        } else {
            self.value
        }
    }

    /// The greatest word held, read as signed.
    pub open spec fn spec_signed_max(self) -> u64 {
        if self.mask & SIGN_BIT != 0 {
            self.value | (self.mask & SIGNED_MAX)
        } else {
            self.value | self.mask
        }
    }

    pub open spec fn spec_zero_circle(self) -> Tnum {
        if self.value & SIGN_BIT != 0 {
            Tnum { value: SIGNED_MAX, mask: SIGNED_MAX }
        } else if self.mask & SIGN_BIT != 0 {
            Tnum { value: self.value, mask: self.mask & SIGNED_MAX }
        } else {
            self
        }
    }

    pub open spec fn spec_one_circle(self) -> Tnum {
        if self.value & SIGN_BIT != 0 {
            self
        } else if self.mask & SIGN_BIT != 0 {
            Tnum { value: self.value | SIGN_BIT, mask: self.mask & !SIGN_BIT }
        } else {
            Tnum::spec_bottom()
        }
    }

    /// Negative `self` divided by nonnegative `other` is certainly negative:
    /// the least magnitude of `self` reaches the greatest divisor.
    pub open spec fn lhs_outweighs(self, other: Tnum) -> bool {
        signed(0u64.wrapping_sub(self.spec_signed_max())) >= signed(other.spec_signed_max())
    }

    /// The extremal quotient that bounds a division of sign-known operands,
    /// 0 when none is known: for two negative operands the greatest quotient,
    /// for operands of opposite signs the most negative one.
    pub open spec fn extremal_quotient(self, other: Tnum) -> u64 {
        if self.spec_negative() && other.spec_negative() {
            if self.spec_signed_min() == SIGN_BIT && other.spec_signed_max() == ALL_ONES {
                0
            } else {
                word_sdiv(self.spec_signed_min(), other.spec_signed_max())
            }
        } else if self.spec_negative() && other.spec_nonnegative() {
            if self.lhs_outweighs(other) && other.spec_signed_min() != 0 {
                word_sdiv(self.spec_signed_min(), other.spec_signed_min())
            } else {
                0
            }
        } else if self.spec_nonnegative() && other.spec_negative() {
            if self.spec_signed_min() >= 0u64.wrapping_sub(other.spec_signed_min()) {
                word_sdiv(self.spec_signed_max(), other.spec_signed_max())
            } else {
                0
            }
        } else {
            0
        }
    }

    pub open spec fn spec_signed_div(self, other: Tnum) -> Tnum {
        if self.spec_is_bottom() || other.spec_is_bottom() {
            Tnum::spec_bottom()
        } else if other.value == 0 && other.mask == 0 {
            Tnum::spec_top()
        } else if self.mask == 0 && other.mask == 0 {
            Tnum::spec_const(word_sdiv(self.value, other.value))
        } else if self.spec_nonnegative() && other.spec_nonnegative() {
            self.spec_udiv(other)
        } else {
            quotient_bound(self.extremal_quotient(other))
        }
    }

    pub open spec fn spec_sdiv(self, other: Tnum) -> Tnum {
        if self.spec_is_bottom() || other.spec_is_bottom() {
            Tnum::spec_bottom()
        } else if self.spec_is_top() || other.spec_is_top() || other.value == 0 {
            Tnum::spec_top()
        } else if self.mask == 0 && other.mask == 0 {
            Tnum::spec_const(word_sdiv(self.value, other.value))
        } else {
            let t0 = self.spec_zero_circle();
            let t1 = self.spec_one_circle();
            let x0 = other.spec_zero_circle();
            let x1 = other.spec_one_circle();
            t0.spec_signed_div(x0).spec_or(t0.spec_signed_div(x1)).spec_or(
                t1.spec_signed_div(x0),
            ).spec_or(t1.spec_signed_div(x1))
        }
    }

    /// Signed division rounding toward zero: `top` for the known divisor 0;
    /// computed for two known words, unsigned for two nonnegative ones; for
    /// other operands of known signs only the sign and the leading run of
    /// the extremal quotient are known; `top` otherwise.
    pub fn signed_div(&self, other: Self) -> (r: Self)
        ensures
            r == self.spec_signed_div(other),
            r.valid(),
            self.spec_is_bottom() || other.spec_is_bottom() ==> r == Tnum::spec_bottom(),
            forall|x: u64, y: u64|
                self.has(x) && other.has(y) && y != 0 ==> #[trigger] r.has(word_sdiv(x, y)),
    {
        proof {
            lemma_word_constants();
            lemma_disjoint_facts();
            assert forall|x: u64, y: u64| self.has(x) && other.has(y) && y != 0 implies #[trigger] self.spec_signed_div(
                other,
            ).has(word_sdiv(x, y)) by {
                lemma_signed_div_sound(*self, other, x, y);
            }
        }
        if self.is_bottom() || other.is_bottom() {
            return Self::bottom();
        }
        if other.is_zero() {
            return Self::top();
        }
        if self.is_singleton() && other.is_singleton() {
            return Tnum::new(wrapping_sdiv(self.value, other.value), 0);
        }
        if self.is_nonnegative() && other.is_nonnegative() {
            return self.udiv(other);
        }
        let mut tmp: u64 = 0;
        proof {
            lemma_sign_ranges(other.value, other.mask);
            lemma_sign_ranges(self.value, self.mask);
        }
        if self.is_negative() && other.is_negative() {
            let num = self.get_signed_min_value();
            let denom = other.get_signed_max_value();
            if !(num == SIGN_BIT && denom == ALL_ONES) {
                tmp = wrapping_sdiv(num, denom);
            }
        } else if self.is_negative() && other.is_nonnegative() {
            let neg_lhs_max = 0u64.wrapping_sub(self.get_signed_max_value());
            let denom = other.get_signed_min_value();
            if signed_ge(neg_lhs_max, other.get_signed_max_value()) && denom != 0 {
                let num = self.get_signed_min_value();
                tmp = wrapping_sdiv(num, denom);
            }
        } else if self.is_nonnegative() && other.is_negative() {
            let neg_rhs_min = 0u64.wrapping_sub(other.get_signed_min_value());
            if self.get_signed_min_value() >= neg_rhs_min {
                let denom = other.get_signed_max_value();
                let num = self.get_signed_max_value();
                tmp = wrapping_sdiv(num, denom);
            }
        }
        bound_by_quotient(tmp)
    }

    /// Signed division rounding toward zero: computed for two known words,
    /// else split each operand into its nonnegative and negative parts and
    /// join the four sign-homogeneous quotients.
    pub fn sdiv(&self, other: Self) -> (r: Self)
        ensures
            r == self.spec_sdiv(other),
            r.valid(),
            self.spec_is_bottom() || other.spec_is_bottom() ==> r == Tnum::spec_bottom(),
            forall|x: u64, y: u64|
                self.has(x) && other.has(y) && y != 0 ==> #[trigger] r.has(word_sdiv(x, y)),
    {
        proof {
            lemma_word_constants();
            assert forall|x: u64, y: u64| self.has(x) && other.has(y) && y != 0 implies #[trigger] self.spec_sdiv(
                other,
            ).has(word_sdiv(x, y)) by {
                lemma_sdiv_sound(*self, other, x, y);
            }
        }
        if self.is_bottom() || other.is_bottom() {
            return Self::bottom();
        }
        if self.is_top() || other.is_top() {
            return Self::top();
        }
        if other.value == 0 {
            return Self::top();
        } else if self.mask == 0 && other.mask == 0 {
            return Self::new(wrapping_sdiv(self.value, other.value), 0);
        }
        let t0 = self.get_zero_circle();
        let t1 = self.get_one_circle();
        let x0 = other.get_zero_circle();
        let x1 = other.get_one_circle();
        let res00 = t0.signed_div(x0);
        let res01 = t0.signed_div(x1);
        let res10 = t1.signed_div(x0);
        let res11 = t1.signed_div(x1);
        let r = res00.or(&res01).or(&res10).or(&res11);
        proof {
            assert(r == self.spec_sdiv(other));
        }
        r
    }

    fn get_signed_min_value(&self) -> (r: u64)
        ensures
            r == self.spec_signed_min(),
    {
        if self.mask & SIGN_BIT != 0 {
            self.value | SIGN_BIT
        } else {
            self.value
        }
    }

    fn get_signed_max_value(&self) -> (r: u64)
        ensures
            r == self.spec_signed_max(),
    {
        if self.mask & SIGN_BIT != 0 {
            self.value | (self.mask & SIGNED_MAX)
        } else {
            self.value | self.mask
        }
    }

    /// The nonnegative part: `self` when its sign bit is known 0, the sign bit
    /// made known 0 when it is unknown, an element holding no word when it
    /// is known 1.
    pub fn get_zero_circle(&self) -> (r: Self)
        ensures
            r == self.spec_zero_circle(),
            self.wf() && self.value & SIGN_BIT == 0 ==> r.wf(),
            self.value & SIGN_BIT != 0 ==> r.spec_is_bottom(),
    {
        proof {
            lemma_sign_split(self.value, self.mask);
            lemma_circle_words(self.value, self.mask);
        }
        if self.value & SIGN_BIT != 0 {
            Tnum::new(SIGNED_MAX, SIGNED_MAX)
        } else if self.mask & SIGN_BIT != 0 {
            Tnum::new(self.value, self.mask & SIGNED_MAX)
        } else {
            *self
        }
    }

    /// The negative part: `self` when its sign bit is known 1, the sign bit
    /// made known 1 when it is unknown, `bottom` when it is known 0.
    pub fn get_one_circle(&self) -> (r: Self)
        ensures
            r == self.spec_one_circle(),
            self.valid() ==> r.valid(),
    {
        proof {
            lemma_sign_split(self.value, self.mask);
        }
        if self.value & SIGN_BIT != 0 {
            *self
        } else if self.mask & SIGN_BIT != 0 {
            Tnum::new(self.value | SIGN_BIT, self.mask & !SIGN_BIT)
        } else {
            Tnum::bottom()
        }
    }
}

/// Signed quotient of the words `a` and `b`, rounding toward zero.
pub open spec fn word_sdiv(a: u64, b: u64) -> u64 {
    crate::signed::word_of(crate::signed::trunc_div(signed(a), signed(b)))
}

/// `top` with the sign and the leading run of the quotient `q` known:
/// its leading zeros when it is nonnegative, its leading ones when negative.
pub open spec fn quotient_bound(q: u64) -> Tnum {
    if q == 0 {
        Tnum::spec_top()
    } else if (q >> 63) & 1 == 0 {
        top_below(u64_leading_zeros(q) as u32)
    } else {
        let ones = u64_leading_zeros(!q);
        if ones > 0 {
            let high = ALL_ONES << (64 - ones) as u64;
            Tnum { value: 0 | high, mask: ALL_ONES & !high }
        } else {
            Tnum::spec_top()
        }
    }
}

fn bound_by_quotient(tmp: u64) -> (r: Tnum)
    ensures
        r == quotient_bound(tmp),
        r.wf(),
{
    proof {
        lemma_word_constants();
        lemma_disjoint_facts();
    }
    let mut result = Tnum::top();
    if tmp != 0 {
        if (tmp >> 63) & 1 == 0 {
            let lead_zeros = tmp.leading_zeros();
            result.clear_high_bits(lead_zeros);
        } else {
            let lead_ones = (!tmp).leading_zeros();
            proof {
                vstd::std_specs::bits::axiom_u64_leading_zeros(!tmp);
            }
            if lead_ones > 0 {
                let high_mask = ALL_ONES << (64 - lead_ones);
                result.value = result.value | high_mask;
                result.mask = result.mask & !high_mask;
            }
        }
    }
    result
}

proof fn lemma_sign_split(v: u64, m: u64)
    by (bit_vector)
    ensures
        v & m == 0 && m & 0x8000_0000_0000_0000u64 != 0 ==> (v | 0x8000_0000_0000_0000u64) & (m
            & !0x8000_0000_0000_0000u64) == 0,
        v & m == 0 ==> v & (m & 0x7FFF_FFFF_FFFF_FFFFu64) == 0,
{
}

proof fn lemma_circle_words(v: u64, m: u64)
    by (bit_vector)
    ensures
        v | 0x8000_0000_0000_0000u64 != 0,
        0x7FFF_FFFF_FFFF_FFFFu64 & 0x7FFF_FFFF_FFFF_FFFFu64 != 0,
{
}

/// Signed remainder of the words `a` and `b`, rounding toward zero.
pub open spec fn word_srem(a: u64, b: u64) -> u64 {
    crate::signed::word_of(crate::signed::trunc_rem(signed(a), signed(b)))
}

/// The low bits of a remainder that an even divisor preserves: as many as
/// the trailing zeros of `rhs.value + rhs.mask` when there are at least two,
/// none when there is one (this mask formula is kept as it stands and is an
/// open question: one trailing zero would also fix the lowest bit). Every
/// bit above them comes out known zero, which holds of the remainder only
/// after the callers make those bits unknown (`keep_low`). `top` for an odd
/// or possibly odd divisor.
pub fn rem_get_low_bits(lhs: &Tnum, rhs: &Tnum) -> (r: Tnum)
    ensures
        r == Tnum::spec_rem_low(*lhs, *rhs),
        lhs.wf() ==> r.wf(),
        forall|x: u64, y: u64|
            lhs.has(x) && rhs.has(y) && y != 0 ==> #[trigger] r.keep_low(
                Tnum::spec_rem_mask(*rhs),
            ).has(x % y),
{
    proof {
        lemma_word_constants();
        lemma_disjoint_facts();
        assert forall|x: u64, y: u64| lhs.has(x) && rhs.has(y) && y != 0 implies #[trigger] Tnum::spec_rem_low(
            *lhs,
            *rhs,
        ).keep_low(Tnum::spec_rem_mask(*rhs)).has(x % y) by {
            lemma_rem_low_sound(*lhs, *rhs, x, y, x % y);
        }
    }
    if !rhs.is_zero() && (rhs.value & 1) == 0 && (rhs.mask & 1) == 0 {
        let qzero = rhs.count_min_trailing_zeros();
        if qzero == 0 || qzero >= 64 {
            return Tnum::top();
        }
        proof {
            vstd::bits::lemma_u64_pow2_no_overflow(qzero as nat);
            vstd::bits::lemma_u64_shl_is_mul(1, qzero as u64);
        }
        let mask = if qzero > 1 {
            (1u64 << qzero) - 1
        } else {
            0u64
        };
        let res_value = lhs.value & mask;
        let res_mask = lhs.mask & mask;
        let r = Tnum::new(res_value, res_mask);
        proof {
            assert(r == Tnum::spec_rem_low(*lhs, *rhs));
        }
        return r;
    }
    Tnum::top()
}

/// The mask of bits that the low-bits path keeps.
fn rem_low_mask(rhs: &Tnum) -> (m: u64)
    ensures
        m == Tnum::spec_rem_mask(*rhs),
{
    if !rhs.is_zero() && (rhs.value & 1) == 0 && (rhs.mask & 1) == 0 {
        let qzero = rhs.count_min_trailing_zeros();
        if qzero == 0 || qzero >= 64 {
            return ALL_ONES;
        }
        proof {
            vstd::bits::lemma_u64_pow2_no_overflow(qzero as nat);
            vstd::bits::lemma_u64_shl_is_mul(1, qzero as u64);
        }
        if qzero > 1 {
            (1u64 << qzero) - 1
        } else {
            0u64
        }
    } else {
        ALL_ONES
    }
}

proof fn lemma_low_bits_has(v: u64, m: u64, x: u64, r: u64, k: u64)
    by (bit_vector)
    ensures
        v & m == 0 ==> (v & k) & ((m & k) | !k) == 0,
        v & m == 0 && (x ^ v) & !m == 0 && r & k == x & k ==> has_bits(v & k, (m & k) | !k, r),
{
}

proof fn lemma_divisor_low_zero(yv: u64, ym: u64, y: u64, q: u64)
    by (bit_vector)
    requires
        1 <= q < 64,
        has_bits(yv, ym, y),
        yv.wrapping_add(ym) << ((64 - q) as u64) == 0,
    ensures
        y & (((1u64 << q) - 1) as u64) == 0,
{
}

proof fn lemma_clear_high_has(rv: u64, rm: u64, r: u64, mx: u64, n: u64)
    by (bit_vector)
    requires
        n <= 64,
        r <= mx,
        mx >> ((64 - n) as u64) == 0,
    ensures
        has_bits(rv, rm, r) ==> has_bits(high_cleared(rv, n as u32), high_cleared(rm, n as u32), r),
{
}

/// The remainder by an even divisor agrees with the dividend on the low bits
/// that every divisor held leaves zero.
/// The remainder, unsigned or signed, by an even divisor agrees with the
/// dividend on the low bits that every divisor held leaves zero.
proof fn lemma_rem_low_sound(lhs: Tnum, rhs: Tnum, x: u64, y: u64, r: u64)
    requires
        lhs.has(x),
        rhs.has(y),
        y != 0,
        r == x % y || r == word_srem(x, y),
    ensures
        Tnum::spec_rem_kept(lhs, rhs).has(r),
{
    lemma_word_constants();
    if Tnum::rem_low_path(rhs) {
        let q = u64_trailing_zeros(rhs.value.wrapping_add(rhs.mask));
        vstd::std_specs::bits::axiom_u64_trailing_zeros(rhs.value.wrapping_add(rhs.mask));
        vstd::bits::lemma_u64_pow2_no_overflow(q as nat);
        vstd::bits::lemma_u64_shl_is_mul(1, q as u64);
        if q > 1 {
            let p = vstd::arithmetic::power2::pow2(q as nat) as int;
            let k = ((1u64 << q as u64) - 1) as u64;
            assert(k == vstd::bits::low_bits_mask(q as nat) as u64);
            lemma_divisor_low_zero(rhs.value, rhs.mask, y, q as u64);
            vstd::bits::lemma_u64_low_bits_mask_is_mod(y, q as nat);
            vstd::bits::lemma_u64_low_bits_mask_is_mod(x, q as nat);
            vstd::bits::lemma_u64_low_bits_mask_is_mod(r, q as nat);
            vstd::arithmetic::div_mod::lemma_fundamental_div_mod(y as int, p);
            let t = y as int / p;
            let kk: int = if r == x % y {
                vstd::arithmetic::div_mod::lemma_fundamental_div_mod(x as int, y as int);
                let kk = -(t * (x as int / y as int));
                assert(r as int == p * kk + x) by (nonlinear_arith)
                    requires
                        x as int == y * (x as int / y as int) + r,
                        y as int == p * t + 0,
                        kk == -(t * (x as int / y as int)),
                ;
                kk
            } else {
                vstd::arithmetic::power2::lemma_pow2_adds(q as nat, (64 - q) as nat);
                vstd::arithmetic::power2::lemma2_to64_rest();
                vstd::arithmetic::div_mod::lemma_mod_multiples_basic(
                    vstd::arithmetic::power2::pow2((64 - q) as nat) as int,
                    p,
                );
                assert(q as nat + (64 - q) as nat == 64);
                assert(vstd::arithmetic::power2::pow2(64) == 0x1_0000_0000_0000_0000int);
                assert(vstd::arithmetic::power2::pow2((q as nat + (64 - q) as nat) as nat)
                    == vstd::arithmetic::power2::pow2(q as nat) * vstd::arithmetic::power2::pow2(
                    (64 - q) as nat,
                ));
                assert(vstd::arithmetic::power2::pow2(q as nat) * vstd::arithmetic::power2::pow2(
                    (64 - q) as nat,
                ) == vstd::arithmetic::power2::pow2((64 - q) as nat) * p) by (nonlinear_arith)
                    requires
                        p == vstd::arithmetic::power2::pow2(q as nat) as int,
                ;
                assert(0x1_0000_0000_0000_0000int == vstd::arithmetic::power2::pow2(
                    (64 - q) as nat,
                ) * p);
                lemma_srem_congruent(x, y, p, t, r)
            };
            vstd::arithmetic::div_mod::lemma_mod_multiples_vanish(kk, x as int, p);
            assert(r & k == x & k);
            lemma_low_bits_has(lhs.value, lhs.mask, x, r, k);
        } else {
            lemma_low_bits_has(lhs.value, lhs.mask, x, r, 0);
        }
    }
}

/// The signed remainder differs from the dividend by a multiple of `p` when
/// `p` divides both the divisor and 2^64.
proof fn lemma_srem_congruent(x: u64, y: u64, p: int, t: int, r: u64) -> (kk: int)
    requires
        y != 0,
        2 <= p,
        y as int == p * t,
        r == word_srem(x, y),
        0x1_0000_0000_0000_0000int % p == 0,
    ensures
        r as int == p * kk + x,
{
    let m: int = 0x1_0000_0000_0000_0000int;
    let sx = signed(x);
    let sy = signed(y);
    let ex: int = if x < 0x8000_0000_0000_0000u64 { 0 } else { 1 };
    let ey: int = if y < 0x8000_0000_0000_0000u64 { 0 } else { 1 };
    assert(sx == x - m * ex);
    assert(sy == y - m * ey);
    let ax = abs(sx) as int;
    let ay = abs(sy) as int;
    assert(ay > 0);
    let qq = ax / ay;
    vstd::arithmetic::div_mod::lemma_fundamental_div_mod(ax, ay);
    let rr = trunc_rem(sx, sy);
    let c: int = if (sx < 0) == (sy < 0) { -1 } else { 1 };
    assert(rr == sx + c * qq * sy) by (nonlinear_arith)
        requires
            ax == ay * qq + ax % ay,
            ax == (if sx < 0 { -sx } else { sx }),
            ay == (if sy < 0 { -sy } else { sy }),
            rr == (if sx < 0 { -(ax % ay) } else { ax % ay }),
            c == (if (sx < 0) == (sy < 0) { -1int } else { 1int }),
    ;
    vstd::arithmetic::div_mod::lemma_fundamental_div_mod(rr, m);
    let fl = rr / m;
    assert(r as int == rr % m);
    let mp = m / p;
    vstd::arithmetic::div_mod::lemma_fundamental_div_mod(m, p);
    assert(m == p * mp);
    let a = c * qq;
    assert(a * sy == a * y - a * m * ey) by (nonlinear_arith)
        requires
            sy == y - m * ey,
    ;
    assert(a * y == p * (a * t)) by (nonlinear_arith)
        requires
            y as int == p * t,
    ;
    assert(a * m * ey == p * (a * mp * ey)) by (nonlinear_arith)
        requires
            m == p * mp,
    ;
    assert(m * ex == p * (mp * ex)) by (nonlinear_arith)
        requires
            m == p * mp,
    ;
    assert(m * fl == p * (mp * fl)) by (nonlinear_arith)
        requires
            m == p * mp,
    ;
    let kk = a * t - mp * ex - a * mp * ey - mp * fl;
    assert(p * kk == p * (a * t) - p * (mp * ex) - p * (a * mp * ey) - p * (mp * fl))
        by (nonlinear_arith)
        requires
            kk == a * t - mp * ex - a * mp * ey - mp * fl,
    ;
    assert(rr == sx + a * sy);
    kk
}

proof fn lemma_udiv_bits(v: u64, m: u64, ov: u64, om: u64, x: u64, y: u64, q: u64, mx: u64, n: u64)
    by (bit_vector)
    ensures
        has_bits(v, m, x) ==> x <= v | m,
        has_bits(ov, om, y) ==> y >= ov,
        q <= mx && n <= 64 && mx >> ((64 - n) as u64) == 0 ==> has_bits(
            high_cleared(0, n as u32),
            high_cleared(ALL_ONES, n as u32),
            q,
        ),
        n <= 64 ==> high_cleared(0, n as u32) & high_cleared(ALL_ONES, n as u32) == 0,
{
}

/// Every quotient of a word held by `a` by a nonzero word held by `b` is
/// held by `a.udiv(b)`.
pub proof fn lemma_udiv_sound(a: Tnum, b: Tnum)
    ensures
        forall|x: u64, y: u64| a.has(x) && b.has(y) && y != 0 ==> #[trigger] a.spec_udiv(b).has(x / y),
        a.spec_udiv(b).valid(),
{
    lemma_word_constants();
    lemma_sum_disjoint(a.value, a.mask);
    if !(a.spec_is_bottom() || b.spec_is_bottom() || a.spec_is_top() || b.spec_is_top() || b.value
        == 0) {
        let mx = ((a.value + a.mask) as u64) / b.value;
        let n = u64_leading_zeros(mx);
        vstd::std_specs::bits::axiom_u64_leading_zeros(mx);
        lemma_udiv_bits(a.value, a.mask, b.value, b.mask, 0, 0, 0, mx, n as u64);
        assert forall|x: u64, y: u64| a.has(x) && b.has(y) && y != 0 implies #[trigger] a.spec_udiv(
            b,
        ).has(x / y) by {
            lemma_udiv_bits(a.value, a.mask, b.value, b.mask, x, y, x / y, mx, n as u64);
            vstd::arithmetic::div_mod::lemma_div_is_ordered_by_denominator(
                x as int,
                b.value as int,
                y as int,
            );
            vstd::arithmetic::div_mod::lemma_div_is_ordered(
                x as int,
                (a.value + a.mask) as int,
                b.value as int,
            );
            lemma_udiv_bits(a.value, a.mask, b.value, b.mask, x, y, x / y, mx, n as u64);
        }
    }
}

proof fn lemma_sign_ranges(v: u64, m: u64)
    by (bit_vector)
    ensures
        v <= v | m,
        v & 0x8000_0000_0000_0000u64 != 0 ==> v >= 0x8000_0000_0000_0000u64,
        v & 0x8000_0000_0000_0000u64 == 0 && m & 0x8000_0000_0000_0000u64 == 0 ==> v | m
            < 0x8000_0000_0000_0000u64,
{
}

proof fn lemma_circle_has(v: u64, m: u64, x: u64)
    by (bit_vector)
    requires
        has_bits(v, m, x),
    ensures
        x < 0x8000_0000_0000_0000u64 && m & 0x8000_0000_0000_0000u64 != 0 ==> has_bits(
            v,
            m & 0x7FFF_FFFF_FFFF_FFFFu64,
            x,
        ),
        x >= 0x8000_0000_0000_0000u64 && m & 0x8000_0000_0000_0000u64 != 0 ==> has_bits(
            v | 0x8000_0000_0000_0000u64,
            m & !0x8000_0000_0000_0000u64,
            x,
        ),
        x < 0x8000_0000_0000_0000u64 ==> v & 0x8000_0000_0000_0000u64 == 0,
        x >= 0x8000_0000_0000_0000u64 && m & 0x8000_0000_0000_0000u64 == 0 ==> v
            & 0x8000_0000_0000_0000u64 != 0,
        m & 0x8000_0000_0000_0000u64 != 0 ==> (v | 0x8000_0000_0000_0000u64) <= x | 0x8000_0000_0000_0000u64
            && x & 0x7FFF_FFFF_FFFF_FFFFu64 <= v | (m & 0x7FFF_FFFF_FFFF_FFFFu64),
{
}

/// A word no lower than a negative bound keeps the bound's leading ones.
proof fn lemma_negative_bound(tmp: u64, w: u64, ones: u64)
    by (bit_vector)
    requires
        tmp >= 0x8000_0000_0000_0000u64,
        tmp <= w,
        1 <= ones <= 64,
        (!tmp) >> ((64 - ones) as u64) == 0,
    ensures
        has_bits(
            0 | (0xFFFF_FFFF_FFFF_FFFFu64 << ((64 - ones) as u64)),
            0xFFFF_FFFF_FFFF_FFFFu64 & !(0xFFFF_FFFF_FFFF_FFFFu64 << ((64 - ones) as u64)),
            w,
        ),
        (tmp >> 63) & 1 != 0,
        (!tmp) >> 63 == 0,
{
}

proof fn lemma_low_word(q: u64)
    by (bit_vector)
    ensures
        q < 0x8000_0000_0000_0000u64 ==> (q >> 63) & 1 == 0,
        q >= 0x8000_0000_0000_0000u64 ==> ((!q) >> 63u64) & 1 == 0,
{
}

/// `quotient_bound(tmp)` holds `w` when both are below 2^63 and `w <= tmp`,
/// or both are at least 2^63 and `tmp <= w`.
proof fn lemma_quotient_bound_has(tmp: u64, w: u64)
    requires
        (w <= tmp < 0x8000_0000_0000_0000u64) || (0x8000_0000_0000_0000u64 <= tmp <= w),
    ensures
        quotient_bound(tmp).has(w),
{
    lemma_word_constants();
    lemma_low_word(tmp);
    let n = u64_leading_zeros(tmp);
    vstd::std_specs::bits::axiom_u64_leading_zeros(tmp);
    lemma_udiv_bits(0, 0, 0, 0, 0, 0, w, tmp, n as u64);
    if tmp >= 0x8000_0000_0000_0000u64 {
        let ones = u64_leading_zeros(!tmp);
        vstd::std_specs::bits::axiom_u64_leading_zeros(!tmp);
        lemma_negative_bound(tmp, w, ones as u64);
    }
}

/// Signed division holds every signed quotient of held words by a nonzero
/// held word.
pub proof fn lemma_signed_div_sound(a: Tnum, b: Tnum, x: u64, y: u64)
    requires
        a.has(x),
        b.has(y),
        y != 0,
    ensures
        a.spec_signed_div(b).has(word_sdiv(x, y)),
{
    let m: int = 0x1_0000_0000_0000_0000;
    let h: int = 0x8000_0000_0000_0000;
    lemma_word_constants();
    lemma_nonneg_member(a.value, a.mask, x);
    lemma_nonneg_member(b.value, b.mask, y);
    lemma_circle_has(a.value, a.mask, x);
    lemma_circle_has(b.value, b.mask, y);
    lemma_sign_ranges(a.value, a.mask);
    lemma_sign_ranges(b.value, b.mask);
    lemma_udiv_sound(a, b);
    let w = word_sdiv(x, y);
    if b.value == 0 && b.mask == 0 {
    } else if a.mask == 0 && b.mask == 0 {
        assert(x == a.value && y == b.value);
    } else if a.spec_nonnegative() && b.spec_nonnegative() {
        assert(w == x / y);
    } else if a.spec_negative() && b.spec_negative() {
        let lo = a.value;
        let hi = b.value | b.mask;
        if !(lo == 0x8000_0000_0000_0000u64 && hi == 0xFFFF_FFFF_FFFF_FFFFu64) {
            let na = m - x;
            let nlo = m - lo;
            let nb = m - y;
            let nhi = m - hi;
            vstd::arithmetic::div_mod::lemma_div_is_ordered(na, nlo, nb);
            vstd::arithmetic::div_mod::lemma_div_is_ordered_by_denominator(nlo, nhi, nb);
            vstd::arithmetic::div_mod::lemma_div_is_ordered_by_denominator(nlo, 1, nhi);
            vstd::arithmetic::div_mod::lemma_div_basics(nlo);
            vstd::arithmetic::div_mod::lemma_div_basics(nhi);
            let q = na / nb;
            let big = nlo / nhi;
            assert(big < h) by {
                if nhi == 1 {
                    assert(nlo < h);
                } else {
                    vstd::arithmetic::div_mod::lemma_div_is_ordered_by_denominator(nlo, 2, nhi);
                    assert(nlo / 2 < h) by (nonlinear_arith)
                        requires
                            nlo <= h,
                            h == 0x8000_0000_0000_0000,
                    ;
                }
            }
            assert(0 <= q <= big);
            assert(w == q);
            assert(a.extremal_quotient(b) == big);
            lemma_quotient_bound_has(big as u64, w);
        }
    } else if a.spec_negative() && b.spec_nonnegative() {
        let hi_a = a.value | a.mask;
        let hi_b = b.value | b.mask;
        if a.lhs_outweighs(b) && b.value != 0 {
            let na = m - x;
            let nlo = m - a.value;
            let nhi = m - hi_a;
            assert(nhi < h && nhi >= hi_b);
            vstd::arithmetic::div_mod::lemma_div_is_ordered(na, nlo, y as int);
            vstd::arithmetic::div_mod::lemma_div_is_ordered_by_denominator(nlo, b.value as int, y as int);
            vstd::arithmetic::div_mod::lemma_div_is_ordered(y as int, na, y as int);
            vstd::arithmetic::div_mod::lemma_div_is_ordered_by_denominator(nlo, 1, b.value as int);
            vstd::arithmetic::div_mod::lemma_div_basics(y as int);
            vstd::arithmetic::div_mod::lemma_div_basics(nlo);
            let q = na / (y as int);
            let big = nlo / (b.value as int);
            assert(1 <= q <= big <= h);
            assert(w == m - q);
            assert(a.extremal_quotient(b) == m - big);
            lemma_quotient_bound_has((m - big) as u64, w);
        }
    } else if a.spec_nonnegative() && b.spec_negative() {
        let hi_a = a.value | a.mask;
        let hi_b = b.value | b.mask;
        if a.value >= 0u64.wrapping_sub(b.value) {
            let nb = m - y;
            let nlo = m - b.value;
            let nhi = m - hi_b;
            vstd::arithmetic::div_mod::lemma_div_is_ordered(x as int, hi_a as int, nb);
            vstd::arithmetic::div_mod::lemma_div_is_ordered_by_denominator(hi_a as int, nhi, nb);
            vstd::arithmetic::div_mod::lemma_div_is_ordered(nb, x as int, nb);
            vstd::arithmetic::div_mod::lemma_div_is_ordered_by_denominator(hi_a as int, 1, nhi);
            vstd::arithmetic::div_mod::lemma_div_basics(nb);
            vstd::arithmetic::div_mod::lemma_div_basics(hi_a as int);
            let q = (x as int) / nb;
            let big = (hi_a as int) / nhi;
            assert(1 <= q <= big < h);
            assert(w == m - q);
            assert(a.extremal_quotient(b) == m - big);
            lemma_quotient_bound_has((m - big) as u64, w);
        }
    }
}

/// `sdiv` holds every signed quotient of held words by a nonzero held word.
pub proof fn lemma_sdiv_sound(a: Tnum, b: Tnum, x: u64, y: u64)
    requires
        a.has(x),
        b.has(y),
        y != 0,
    ensures
        a.spec_sdiv(b).has(word_sdiv(x, y)),
{
    lemma_word_constants();
    lemma_circle_has(a.value, a.mask, x);
    lemma_circle_has(b.value, b.mask, y);
    let w = word_sdiv(x, y);
    if !(a.spec_is_top() || b.spec_is_top() || b.value == 0) {
        if a.mask == 0 && b.mask == 0 {
            assert(x == a.value && y == b.value);
        } else {
            let t0 = a.spec_zero_circle();
            let t1 = a.spec_one_circle();
            let x0 = b.spec_zero_circle();
            let x1 = b.spec_one_circle();
            let ta = if x < 0x8000_0000_0000_0000u64 { t0 } else { t1 };
            let tb = if y < 0x8000_0000_0000_0000u64 { x0 } else { x1 };
            assert(ta.has(x));
            assert(tb.has(y));
            lemma_signed_div_sound(ta, tb, x, y);
            let r00 = t0.spec_signed_div(x0);
            let r01 = t0.spec_signed_div(x1);
            let r10 = t1.spec_signed_div(x0);
            let r11 = t1.spec_signed_div(x1);
            let o1 = r00.spec_or(r01);
            let o2 = o1.spec_or(r10);
            if r00.has(w) || r01.has(w) {
                crate::lattice::lemma_or_has(r00, r01, w);
            }
            if o1.has(w) || r10.has(w) {
                crate::lattice::lemma_or_has(o1, r10, w);
            }
            if o2.has(w) || r11.has(w) {
                crate::lattice::lemma_or_has(o2, r11, w);
            }
        }
    } else if a.spec_is_top() || b.spec_is_top() {
    }
}

proof fn lemma_mask_keeps_wf(v: u64, m: u64, k: u64, x: u64)
    by (bit_vector)
    ensures
        v & m == 0 ==> (v & k) & (m & k) == 0,
        has_bits(v, m, x) ==> has_bits(k & v, k & m, x & k),
{
}

/// Disjoint words add without carries.
pub proof fn lemma_sum_disjoint(v: u64, m: u64)
    by (bit_vector)
    ensures
        v & m == 0 ==> v + m <= 0xFFFF_FFFF_FFFF_FFFFu64 && (v + m) as u64 == v | m
            && v.wrapping_add(m) == v | m,
{
}

} // verus!

verus! {

/// Every signed remainder of a word held by `a` by a nonzero word held by `b`
/// is held by `a.srem(b)`.
pub proof fn lemma_srem_sound(a: Tnum, b: Tnum)
    ensures
        forall|x: u64, y: u64| a.has(x) && b.has(y) && y != 0 ==> #[trigger] a.spec_srem(b).has(
            word_srem(x, y),
        ),
{
    lemma_word_constants();
    lemma_disjoint_facts();
    lemma_urem_sound(a, b);
    let n = u64_leading_zeros(a.value | a.mask);
    vstd::std_specs::bits::axiom_u64_leading_zeros(a.value | a.mask);
    lemma_udiv_bits(a.value, a.mask, 0, 0, 0, 0, 0, a.value | a.mask, n as u64);
    assert forall|x: u64, y: u64| a.has(x) && b.has(y) && y != 0 implies #[trigger] a.spec_srem(
        b,
    ).has(word_srem(x, y)) by {
        lemma_nonneg_member(a.value, a.mask, x);
        lemma_nonneg_member(b.value, b.mask, y);
        if a.mask == 0 && b.mask == 0 {
            assert(x == a.value && y == b.value);
        }
        let r = word_srem(x, y);
        lemma_rem_low_sound(a, b, x, y, r);
        if a.spec_nonnegative() && !a.spec_is_top() && !a.spec_is_bottom() {
            assert(signed(x) == x);
            vstd::arithmetic::div_mod::lemma_mod_decreases(x as nat, abs(signed(y)));
            vstd::arithmetic::div_mod::lemma_mod_pos_bound(x as int, abs(signed(y)) as int);
            vstd::arithmetic::div_mod::lemma_small_mod(
                (x as nat % abs(signed(y))) as nat,
                0x1_0000_0000_0000_0000nat,
            );
            assert(r as int == x as int % abs(signed(y)) as int);
            if b.spec_nonnegative() {
                assert(signed(y) == y);
                assert(r == x % y);
            }
            lemma_udiv_bits(a.value, a.mask, 0, 0, x, 0, r, a.value | a.mask, n as u64);
            let low = Tnum::spec_rem_kept(a, b);
            lemma_clear_high_has(low.value, low.mask, r, a.value | a.mask, n as u64);
        }
    }
}

proof fn lemma_nonneg_member(v: u64, m: u64, x: u64)
    by (bit_vector)
    ensures
        has_bits(v, m, x) && v & 0x8000_0000_0000_0000u64 == 0 && m & 0x8000_0000_0000_0000u64 == 0
            ==> x < 0x8000_0000_0000_0000u64,
        has_bits(v, m, x) && v & 0x8000_0000_0000_0000u64 != 0 && m & 0x8000_0000_0000_0000u64 == 0
            ==> x >= 0x8000_0000_0000_0000u64 && v <= x && x <= v | m,
        has_bits(v, m, x) ==> v <= x && x <= v | m,
{
}

/// Every remainder of a word held by `a` by a nonzero word held by `b` is
/// held by `a.urem(b)`, except where the divisor takes the low-bits path,
/// which marks the bits above the kept low bits known zero.
pub proof fn lemma_urem_sound(a: Tnum, b: Tnum)
    ensures
        forall|x: u64, y: u64| a.has(x) && b.has(y) && y != 0 ==> #[trigger] a.spec_urem(b).has(x % y),
{
    lemma_word_constants();
    lemma_sum_disjoint(a.value, a.mask);
    lemma_sum_disjoint(b.value, b.mask);
    if !(a.spec_is_bottom() || b.spec_is_bottom() || a.spec_is_top() || b.spec_is_top() || b.value
        == 0) {
        let ma = a.value.wrapping_add(a.mask);
        let mb = b.value.wrapping_add(b.mask);
        let la = u64_leading_zeros(ma);
        let lb = u64_leading_zeros(mb);
        vstd::std_specs::bits::axiom_u64_leading_zeros(ma);
        vstd::std_specs::bits::axiom_u64_leading_zeros(mb);
        assert forall|x: u64, y: u64| a.has(x) && b.has(y) && y != 0 implies #[trigger] a.spec_urem(
            b,
        ).has(x % y) by {
            let r = x % y;
            if b.mask == 0 && !((b.value >> 63) & 1 == 1) && one_bit(b.value) {
                assert(y == b.value);
                lemma_one_bit_rem(b.value, x);
                lemma_mask_keeps_wf(a.value, a.mask, (b.value - 1) as u64, x);
            } else {
                vstd::arithmetic::div_mod::lemma_mod_decreases(x as nat, y as nat);
                vstd::arithmetic::div_mod::lemma_mod_pos_bound(x as int, y as int);
                lemma_udiv_bits(a.value, a.mask, b.value, b.mask, x, y, r, ma, la as u64);
                lemma_udiv_bits(b.value, b.mask, b.value, b.mask, y, y, r, mb, lb as u64);
                lemma_rem_low_sound(a, b, x, y, r);
                let res = Tnum::spec_rem_kept(a, b);
                if la >= lb {
                    lemma_clear_high_has(res.value, res.mask, r, ma, la as u64);
                } else {
                    lemma_clear_high_has(res.value, res.mask, r, mb, lb as u64);
                }
            }
        }
    }
}

proof fn lemma_single_bit(d: u64, t: u64, l: u64)
    by (bit_vector)
    requires
        t < 64,
        l <= 64,
        t + l + 1 == 64,
        (d >> t) & 1 == 1,
        d << ((64 - t) as u64) == 0,
        d >> ((64 - l) as u64) == 0,
    ensures
        d == 1u64 << t,
{
}

/// Below a divisor with exactly one set bit, the remainder is the low bits.
proof fn lemma_one_bit_rem(d: u64, x: u64)
    requires
        one_bit(d),
    ensures
        d != 0,
        x % d == x & ((d - 1) as u64),
{
    let t = u64_trailing_zeros(d);
    let l = u64_leading_zeros(d);
    vstd::std_specs::bits::axiom_u64_trailing_zeros(d);
    vstd::std_specs::bits::axiom_u64_leading_zeros(d);
    lemma_single_bit(d, t as u64, l as u64);
    vstd::bits::lemma_u64_pow2_no_overflow(t as nat);
    vstd::bits::lemma_u64_shl_is_mul(1, t as u64);
    vstd::bits::lemma_u64_low_bits_mask_is_mod(x, t as nat);
}

} // verus!
