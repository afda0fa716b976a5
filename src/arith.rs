//! Addition, subtraction, exclusive or and complement on tnums.
use vstd::prelude::*;

use crate::lattice::has_bits;
use crate::tnum::{lemma_word_constants, Tnum};

verus! {

/// Bits that are unknown in a sum: those of either operand, and every bit
/// that a carry may reach differently between the smallest and largest sums.
pub open spec fn add_mask(av: u64, am: u64, bv: u64, bm: u64) -> u64 {
    let sv = av.wrapping_add(bv);
    ((am.wrapping_add(bm)).wrapping_add(sv) ^ sv) | am | bm
}

pub open spec fn add_value(av: u64, am: u64, bv: u64, bm: u64) -> u64 {
    av.wrapping_add(bv) & !add_mask(av, am, bv, bm)
}

/// Bits that are unknown in a difference: those of either operand, and every
/// bit where the largest and smallest differences may differ by a borrow.
pub open spec fn sub_mask(av: u64, am: u64, bv: u64, bm: u64) -> u64 {
    let dv = av.wrapping_sub(bv);
    (dv.wrapping_add(am) ^ dv.wrapping_sub(bm)) | am | bm
}

pub open spec fn sub_value(av: u64, am: u64, bv: u64, bm: u64) -> u64 {
    av.wrapping_sub(bv) & !sub_mask(av, am, bv, bm)
}

impl Tnum {
    /// `bottom` if either operand holds no word, else the carry-propagation
    /// sum.
    pub open spec fn spec_add(self, other: Tnum) -> Tnum {
        if self.spec_is_bottom() || other.spec_is_bottom() {
            Tnum::spec_bottom()
        } else {
            self.spec_sum(other)
        }
    }

    /// The carry-propagation sum formula.
    pub open spec fn spec_sum(self, other: Tnum) -> Tnum {
        Tnum {
            value: add_value(self.value, self.mask, other.value, other.mask),
            mask: add_mask(self.value, self.mask, other.value, other.mask),
        }
    }

    /// `bottom` if either operand holds no word, else `top` if either is
    /// `top`, else the result of `formula`.
    pub open spec fn absorb(self, other: Tnum, formula: Tnum) -> Tnum {
        if self.spec_is_bottom() || other.spec_is_bottom() {
            Tnum::spec_bottom()
        } else if self.spec_is_top() || other.spec_is_top() {
            Tnum::spec_top()
        } else {
            formula
        }
    }

    pub open spec fn spec_sub(self, other: Tnum) -> Tnum {
        self.absorb(
            other,
            Tnum {
                value: sub_value(self.value, self.mask, other.value, other.mask),
                mask: sub_mask(self.value, self.mask, other.value, other.mask),
            },
        )
    }

    pub open spec fn spec_xor(self, other: Tnum) -> Tnum {
        let mu = self.mask | other.mask;
        self.absorb(other, Tnum { value: (self.value ^ other.value) & !mu, mask: mu })
    }

    pub open spec fn spec_not(self) -> Tnum {
        if self.spec_is_bottom() {
            Tnum::spec_bottom()
        } else if self.spec_is_top() {
            Tnum::spec_top()
        } else {
            Tnum { value: !(self.value ^ self.mask), mask: self.mask }
        }
    }

    /// Sum by carry propagation: the sum of the values, with every bit
    /// unknown that an unknown operand bit or a carry may change.
    pub fn add(&self, other: Self) -> (r: Self)
        ensures
            r == self.spec_add(other),
            r.valid(),
            self.wf() && other.wf() ==> r.wf(),
            self.spec_is_bottom() || other.spec_is_bottom() ==> r == Tnum::spec_bottom(),
            forall|x: u64, y: u64|
                self.has(x) && other.has(y) ==> #[trigger] r.has(x.wrapping_add(y)),
    {
        proof {
            assert forall|x: u64, y: u64| self.has(x) && other.has(y) implies #[trigger] self.spec_add(
                other,
            ).has(x.wrapping_add(y)) by {
                lemma_add_bits(self.value, self.mask, other.value, other.mask, x, y);
            }
            lemma_add_bits(self.value, self.mask, other.value, other.mask, 0, 0);
        }
        if self.is_bottom() || other.is_bottom() {
            return Self::bottom();
        }
        let sm = self.mask.wrapping_add(other.mask);
        let sv = self.value.wrapping_add(other.value);
        let sigma = sm.wrapping_add(sv);
        let chi = sigma ^ sv;
        let mu = chi | self.mask | other.mask;
        Self::new(sv & !mu, mu)
    }

    /// Difference by borrow propagation.
    pub fn sub(&self, other: Self) -> (r: Self)
        ensures
            r == self.spec_sub(other),
            r.valid(),
            self.wf() && other.wf() ==> r.wf(),
            self.spec_is_bottom() || other.spec_is_bottom() ==> r == Tnum::spec_bottom(),
            forall|x: u64, y: u64|
                self.has(x) && other.has(y) ==> #[trigger] r.has(x.wrapping_sub(y)),
    {
        proof {
            lemma_word_constants();
            assert forall|x: u64, y: u64| self.has(x) && other.has(y) implies #[trigger] self.spec_sub(
                other,
            ).has(x.wrapping_sub(y)) by {
                lemma_sub_bits(self.value, self.mask, other.value, other.mask, x, y);
            }
            lemma_sub_bits(self.value, self.mask, other.value, other.mask, 0, 0);
        }
        if self.is_bottom() || other.is_bottom() {
            return Self::bottom();
        } else if self.is_top() || other.is_top() {
            return Self::top();
        }
        let dv = self.value.wrapping_sub(other.value);
        let alpha = dv.wrapping_add(self.mask);
        let beta = dv.wrapping_sub(other.mask);
        let chi = alpha ^ beta;
        let mu = chi | self.mask | other.mask;
        Self::new(dv & !mu, mu)
    }

    /// Exclusive or: known where both operands are known.
    pub fn xor(&self, other: Self) -> (r: Self)
        ensures
            r == self.spec_xor(other),
            r.valid(),
            self.spec_is_bottom() || other.spec_is_bottom() ==> r == Tnum::spec_bottom(),
            forall|x: u64, y: u64| self.has(x) && other.has(y) ==> #[trigger] r.has(x ^ y),
    {
        proof {
            lemma_word_constants();
            assert forall|x: u64, y: u64| self.has(x) && other.has(y) implies #[trigger] self.spec_xor(
                other,
            ).has(x ^ y) by {
                lemma_xor_not_bits(self.value, self.mask, other.value, other.mask, x, y);
            }
            lemma_xor_not_bits(self.value, self.mask, other.value, other.mask, 0, 0);
        }
        if self.is_bottom() || other.is_bottom() {
            return Self::bottom();
        } else if self.is_top() || other.is_top() {
            return Self::top();
        }
        let v = self.value ^ other.value;
        let mu = self.mask | other.mask;
        Self::new(v & !mu, mu)
    }

    /// Complement: flips the known bits.
    pub fn not(&self) -> (r: Self)
        ensures
            r == self.spec_not(),
            r.valid(),
            self.spec_is_bottom() ==> r == Tnum::spec_bottom(),
            forall|x: u64| self.has(x) ==> #[trigger] r.has(!x),
    {
        proof {
            lemma_word_constants();
            assert forall|x: u64| self.has(x) implies #[trigger] self.spec_not().has(!x) by {
                lemma_xor_not_bits(self.value, self.mask, 0, 0, x, 0);
            }
            lemma_xor_not_bits(self.value, self.mask, 0, 0, 0, 0);
        }
        if self.is_bottom() {
            return Self::bottom();
        } else if self.is_top() {
            return Self::top();
        }
        Self::new(!(self.value ^ self.mask), self.mask)
    }
}

/// The carry-propagation sum holds the wrapping sum of any two held words.
pub proof fn lemma_add_sound(a: Tnum, b: Tnum, x: u64, y: u64)
    requires
        a.has(x),
        b.has(y),
    ensures
        a.spec_add(b).has(x.wrapping_add(y)),
{
    lemma_add_bits(a.value, a.mask, b.value, b.mask, x, y);
}

proof fn lemma_add_bits(av: u64, am: u64, bv: u64, bm: u64, x: u64, y: u64)
    by (bit_vector)
    ensures
        add_value(av, am, bv, bm) & add_mask(av, am, bv, bm) == 0,
        has_bits(av, am, x) && has_bits(bv, bm, y) ==> has_bits(
            add_value(av, am, bv, bm),
            add_mask(av, am, bv, bm),
            x.wrapping_add(y),
        ),
{
}

proof fn lemma_sub_bits(av: u64, am: u64, bv: u64, bm: u64, x: u64, y: u64)
    by (bit_vector)
    ensures
        sub_value(av, am, bv, bm) & sub_mask(av, am, bv, bm) == 0,
        has_bits(av, am, x) && has_bits(bv, bm, y) ==> has_bits(
            sub_value(av, am, bv, bm),
            sub_mask(av, am, bv, bm),
            x.wrapping_sub(y),
        ),
{
}

proof fn lemma_xor_not_bits(av: u64, am: u64, bv: u64, bm: u64, x: u64, y: u64)
    by (bit_vector)
    ensures
        ((av ^ bv) & !(am | bm)) & (am | bm) == 0,
        has_bits(av, am, x) && has_bits(bv, bm, y) ==> has_bits(
            (av ^ bv) & !(am | bm),
            am | bm,
            x ^ y,
        ),
        av & am == 0 ==> !(av ^ am) & am == 0,
        has_bits(av, am, x) ==> has_bits(!(av ^ am), am, !x),
{
}

} // verus!
