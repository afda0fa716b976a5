//! Shifts by a known amount, and the 32-bit subregister views built on them.
use vstd::prelude::*;

use crate::lattice::has_bits;
use crate::tnum::{lemma_word_constants, low_ones, Tnum};

verus! {

/// Arithmetic right shift of a 64-bit word: copies of the sign bit come in.
pub open spec fn ashr64(x: u64, s: u64) -> u64 {
    if x >> 63 == 0 {
        x >> s
    } else {
        !((!x) >> s)
    }
}

/// Arithmetic right shift of a 32-bit word.
pub open spec fn ashr32(x: u32, s: u32) -> u32 {
    if x >> 31 == 0 {
        x >> s
    } else {
        !((!x) >> s)
    }
}

fn ashr_u64(x: u64, s: u32) -> (r: u64)
    requires
        s < 64,
    ensures
        r == ashr64(x, s as u64),
{
    if x >> 63 == 0 {
        x >> s
    } else {
        !((!x) >> s)
    }
}

fn ashr_u32(x: u32, s: u32) -> (r: u32)
    requires
        s < 32,
    ensures
        r == ashr32(x, s),
{
    if x >> 31 == 0 {
        x >> s
    } else {
        !((!x) >> s)
    }
}

impl Tnum {
    /// `bottom` and `top` as they are, else `formula`.
    pub open spec fn keep_extremes(self, formula: Tnum) -> Tnum {
        if self.spec_is_bottom() || self.spec_is_top() {
            self
        } else {
            formula
        }
    }

    pub open spec fn spec_shl_const(self, k: u64) -> Tnum {
        let s = (k % 64) as u32;
        self.keep_extremes(
            Tnum { value: self.value.wrapping_shl(s), mask: self.mask.wrapping_shl(s) },
        )
    }

    pub open spec fn spec_lshr_const(self, k: u64) -> Tnum {
        self.keep_extremes(
            Tnum {
                value: self.value.wrapping_shr(k as u32),
                mask: self.mask.wrapping_shr(k as u32),
            },
        )
    }

    pub open spec fn spec_ashr_const(self, k: u64) -> Tnum {
        let s = k % 64;
        let vsig = (self.value >> 63) & 1 == 1;
        let msig = (self.mask >> 63) & 1 == 1;
        self.keep_extremes(
            if !vsig && !msig {
                Tnum { value: self.value >> s, mask: self.mask >> s }
            } else if vsig && !msig {
                Tnum { value: ashr64(self.value, s), mask: self.mask >> s }
            } else {
                Tnum { value: self.value >> s, mask: ashr64(self.mask, s) }
            },
        )
    }

    pub open spec fn spec_rshift(self, shift: u8) -> Tnum {
        Tnum {
            value: self.value.wrapping_shr(shift as u32),
            mask: self.mask.wrapping_shr(shift as u32),
        }
    }

    pub open spec fn spec_cast(self, size: u8) -> Tnum {
        let keep = low_ones((8 * size) as u64);
        Tnum { value: self.value & keep, mask: self.mask & keep }
    }

    pub open spec fn spec_clear_subreg(self) -> Tnum {
        self.spec_lshr_const(32).spec_shl_const(32)
    }

    pub open spec fn spec_with_subreg(self, subreg: Tnum) -> Tnum {
        self.spec_clear_subreg().spec_or(subreg.spec_cast(4))
    }

    /// Both fields shifted left by `shift` (taken modulo 64).
    pub fn tnum_lshift(self, shift: u8) -> (r: Tnum)
        ensures
            r == (Tnum {
                value: self.value.wrapping_shl(shift as u32),
                mask: self.mask.wrapping_shl(shift as u32),
            }),
            self.wf() ==> r.wf(),
            forall|x: u64| self.has(x) ==> #[trigger] r.has(x.wrapping_shl(shift as u32)),
    {
        proof {
            assert forall|x: u64| self.has(x) implies #[trigger] (Tnum {
                value: self.value.wrapping_shl(shift as u32),
                mask: self.mask.wrapping_shl(shift as u32),
            }).has(x.wrapping_shl(shift as u32)) by {
                lemma_shift_bits(self.value, self.mask, x, (shift % 64) as u64);
            }
            lemma_shift_bits(self.value, self.mask, 0, (shift % 64) as u64);
        }
        Tnum::new(self.value.wrapping_shl(shift as u32), self.mask.wrapping_shl(shift as u32))
    }

    /// Both fields shifted right by `shift` (taken modulo 64).
    pub fn tnum_rshift(self, shift: u8) -> (r: Tnum)
        ensures
            r == self.spec_rshift(shift),
            self.wf() ==> r.wf(),
            forall|x: u64| self.has(x) ==> #[trigger] r.has(x.wrapping_shr(shift as u32)),
    {
        proof {
            assert forall|x: u64| self.has(x) implies #[trigger] (Tnum {
                value: self.value.wrapping_shr(shift as u32),
                mask: self.mask.wrapping_shr(shift as u32),
            }).has(x.wrapping_shr(shift as u32)) by {
                lemma_shift_bits(self.value, self.mask, x, (shift % 64) as u64);
            }
            lemma_shift_bits(self.value, self.mask, 0, (shift % 64) as u64);
        }
        Tnum::new(self.value.wrapping_shr(shift as u32), self.mask.wrapping_shr(shift as u32))
    }

    /// Both fields shifted right arithmetically by `min_shift`: on the low 32
    /// bits (the result zero-extended) when `insn_bitness` is 32, on the
    /// whole word otherwise.
    pub fn tnum_arshift(self, min_shift: u8, insn_bitness: u8) -> (r: Tnum)
        requires
            insn_bitness == 32 ==> min_shift < 32,
            min_shift < 64,
        ensures
            insn_bitness == 32 ==> r == (Tnum {
                value: ashr32(self.value as u32, min_shift as u32) as u64,
                mask: ashr32(self.mask as u32, min_shift as u32) as u64,
            }),
            insn_bitness != 32 ==> r == (Tnum {
                value: ashr64(self.value, min_shift as u64),
                mask: ashr64(self.mask, min_shift as u64),
            }),
            self.wf() ==> r.wf(),
            insn_bitness == 32 ==> forall|x: u64|
                self.has(x) ==> #[trigger] r.has(ashr32(x as u32, min_shift as u32) as u64),
            insn_bitness != 32 ==> forall|x: u64|
                self.has(x) ==> #[trigger] r.has(ashr64(x, min_shift as u64)),
    {
        proof {
            let s = min_shift as u64;
            if insn_bitness == 32 {
                lemma_ashr32_bits(self.value, self.mask, 0, s);
                assert forall|x: u64| self.has(x) implies #[trigger] (Tnum {
                    value: ashr32(self.value as u32, min_shift as u32) as u64,
                    mask: ashr32(self.mask as u32, min_shift as u32) as u64,
                }).has(ashr32(x as u32, min_shift as u32) as u64) by {
                    lemma_ashr32_bits(self.value, self.mask, x, s);
                }
            } else if self.wf() {
                lemma_ashr_has(self, 0, s);
                lemma_sign_bits(self.value, self.mask, 0);
                lemma_word_constants();
                let full = Tnum { value: ashr64(self.value, s), mask: ashr64(self.mask, s) };
                if self.spec_is_top() {
                    assert(full == Tnum::spec_top());
                } else {
                    assert(full == self.spec_ashr_const(s));
                }
                assert forall|x: u64| self.has(x) implies #[trigger] full.has(ashr64(x, s)) by {
                    lemma_ashr_has(self, x, s);
                }
            }
        }
        if insn_bitness == 32 {
            let value = ashr_u32(self.value as u32, min_shift as u32);
            let mask = ashr_u32(self.mask as u32, min_shift as u32);
            Tnum::new(value as u64, mask as u64)
        } else {
            let value = ashr_u64(self.value, min_shift as u32);
            let mask = ashr_u64(self.mask, min_shift as u32);
            Tnum::new(value, mask)
        }
    }

    /// Left shift by the constant `k` (taken modulo 64).
    pub fn shl_const(&self, k: u64) -> (r: Self)
        ensures
            r == self.spec_shl_const(k),
            self.valid() ==> r.valid(),
            self.wf() ==> r.wf(),
            forall|x: u64| self.has(x) ==> #[trigger] r.has(x << (k % 64)),
    {
        proof {
            lemma_word_constants();
            assert forall|x: u64| self.has(x) implies #[trigger] self.spec_shl_const(k).has(
                x << (k % 64),
            ) by {
                lemma_shift_bits(self.value, self.mask, x, k % 64);
                if self.spec_is_top() {
                    assert(Tnum::spec_top().has(x << (k % 64)));
                }
            }
            lemma_shift_bits(self.value, self.mask, 0, k % 64);
        }
        if self.is_bottom() {
            return *self;
        }
        if self.is_top() {
            return *self;
        }
        let shift = k % 64;
        Self::new(self.value.wrapping_shl(shift as u32), self.mask.wrapping_shl(shift as u32))
    }

    /// Logical right shift by the constant `k` (its low 32 bits, modulo 64).
    pub fn lshr_const(&self, k: u64) -> (r: Self)
        ensures
            r == self.spec_lshr_const(k),
            self.valid() ==> r.valid(),
            self.wf() ==> r.wf(),
            forall|x: u64| self.has(x) ==> #[trigger] r.has(x.wrapping_shr(k as u32)),
    {
        proof {
            lemma_word_constants();
            let s = ((k as u32) % 64) as u64;
            assert forall|x: u64| self.has(x) implies #[trigger] self.spec_lshr_const(k).has(
                x.wrapping_shr(k as u32),
            ) by {
                lemma_shift_bits(self.value, self.mask, x, s);
                if self.spec_is_top() {
                    assert(Tnum::spec_top().has(x.wrapping_shr(k as u32)));
                }
            }
            lemma_shift_bits(self.value, self.mask, 0, s);
        }
        if self.is_bottom() {
            return *self;
        }
        if self.is_top() {
            return *self;
        }
        Self::new(self.value.wrapping_shr(k as u32), self.mask.wrapping_shr(k as u32))
    }

    /// Arithmetic right shift by the constant `k` (taken modulo 64), split on
    /// what is known of the sign bit.
    pub fn ashr_const(&self, k: u64) -> (r: Self)
        ensures
            r == self.spec_ashr_const(k),
            self.valid() ==> r.valid(),
            forall|x: u64| self.has(x) ==> #[trigger] r.has(ashr64(x, k % 64)),
    {
        proof {
            lemma_word_constants();
            assert forall|x: u64| self.has(x) implies #[trigger] self.spec_ashr_const(k).has(
                ashr64(x, k % 64),
            ) by {
                lemma_ashr_has(*self, x, k % 64);
            }
            if self.wf() {
                lemma_ashr_has(*self, 0, k % 64);
            }
        }
        if self.is_bottom() {
            return *self;
        }
        if self.is_top() {
            return *self;
        }
        let shift = k % 64;
        let vsig = (self.value >> 63) & 1 == 1;
        let msig = (self.mask >> 63) & 1 == 1;
        let r = if !vsig && !msig {
            Self::new(self.value >> shift, self.mask >> shift)
        } else if vsig && !msig {
            Self::new(ashr_u64(self.value, shift as u32), self.mask >> shift)
        } else {
            Self::new(self.value >> shift, ashr_u64(self.mask, shift as u32))
        };
        proof {
            assert(r == self.spec_ashr_const(k));
        }
        r
    }

    /// Truncation to the low `size` bytes.
    pub fn cast(&self, size: u8) -> (r: Self)
        requires
            size < 8,
        ensures
            r == self.spec_cast(size),
            self.wf() ==> r.wf(),
    {
        proof {
            crate::bits::lemma_disjoint_facts();
        }
        let bits = size * 8;
        let keep: u64 = if bits == 0 {
            0
        } else {
            0xFFFF_FFFF_FFFF_FFFFu64 >> (64 - bits)
        };
        let mut result = *self;
        result.value = result.value & keep;
        result.mask = result.mask & keep;
        result
    }

    /// The bits of `size - 1` are all set in `value | mask`.
    pub fn is_aligned(&self, size: u64) -> (r: bool)
        requires
            size > 0,
        ensures
            r == ((self.value | self.mask) & (size - 1) as u64 == (size - 1) as u64),
    {
        (self.value | self.mask) & (size - 1) == (size - 1)
    }

    /// The low 32 bits.
    pub fn subreg(&self) -> (r: Self)
        ensures
            r == self.spec_cast(4),
            self.wf() ==> r.wf(),
    {
        self.cast(4)
    }

    /// The low 32 bits made known zero.
    pub fn clear_subreg(&self) -> (r: Self)
        ensures
            r == self.spec_clear_subreg(),
            self.valid() ==> r.valid(),
    {
        self.lshr_const(32).shl_const(32)
    }

    /// The high 32 bits of `self` merged with the low 32 bits of `subreg`.
    pub fn with_subreg(&self, subreg: Self) -> (r: Self)
        ensures
            r == self.spec_with_subreg(subreg),
            self.valid() && subreg.wf() ==> r.valid(),
    {
        self.clear_subreg().or(&subreg.subreg())
    }

    /// The high 32 bits of `self` merged with the known word `value`.
    pub fn with_const_subreg(&self, value: u32) -> (r: Self)
        ensures
            r == self.spec_with_subreg(Tnum::spec_const(value as u64)),
            self.valid() ==> r.valid(),
    {
        self.with_subreg(Self::const_val(value as u64))
    }
}

/// The constant left shift holds the shift of every held word.
pub proof fn lemma_shl_const_has(t: Tnum, x: u64, k: u64)
    requires
        t.has(x),
    ensures
        t.spec_shl_const(k).has(x << (k % 64)),
{
    lemma_word_constants();
    lemma_shift_bits(t.value, t.mask, x, k % 64);
}

pub proof fn lemma_shift_bits(v: u64, m: u64, x: u64, s: u64)
    by (bit_vector)
    requires
        s < 64,
    ensures
        v & m == 0 ==> (v << s) & (m << s) == 0 && (v >> s) & (m >> s) == 0,
        has_bits(v, m, x) ==> has_bits(v << s, m << s, x << s),
        has_bits(v, m, x) ==> has_bits(v >> s, m >> s, x >> s),
{
}

proof fn lemma_ashr32_bits(v: u64, m: u64, x: u64, s: u64)
    by (bit_vector)
    requires
        s < 32,
    ensures
        v & m == 0 ==> (ashr32(v as u32, s as u32) as u64) & (ashr32(m as u32, s as u32) as u64)
            == 0,
        has_bits(v, m, x) ==> has_bits(
            ashr32(v as u32, s as u32) as u64,
            ashr32(m as u32, s as u32) as u64,
            ashr32(x as u32, s as u32) as u64,
        ),
{
}

proof fn lemma_sign_bits(v: u64, m: u64, x: u64)
    by (bit_vector)
    ensures
        ((v >> 63) & 1 == 1) == (v >> 63 != 0),
        ((m >> 63) & 1 == 1) == (m >> 63 != 0),
        has_bits(v, m, x) && (v >> 63) & 1 != 1 && (m >> 63) & 1 != 1 ==> x >> 63 == 0,
        has_bits(v, m, x) && (v >> 63) & 1 == 1 && (m >> 63) & 1 != 1 ==> x >> 63 != 0,
        v & m == 0 && (m >> 63) & 1 == 1 ==> v >> 63 == 0,
{
}

proof fn lemma_ashr_known_negative(v: u64, m: u64, x: u64, s: u64)
    by (bit_vector)
    requires
        s < 64,
        v & m == 0,
    ensures
        !((!v) >> s) & (m >> s) == 0,
        (x ^ v) & !m == 0 ==> (!((!x) >> s) ^ !((!v) >> s)) & !(m >> s) == 0,
{
}

proof fn lemma_ashr_unknown_sign(v: u64, m: u64, x: u64, s: u64)
    by (bit_vector)
    requires
        s < 64,
        v & m == 0,
    ensures
        (v >> s) & !((!m) >> s) == 0,
        (x ^ v) & !m == 0 ==> ((x >> s) ^ (v >> s)) & !(!((!m) >> s)) == 0,
        (x ^ v) & !m == 0 ==> (!((!x) >> s) ^ (v >> s)) & !(!((!m) >> s)) == 0,
{
}

/// What the arithmetic shift of a tnum holds, case by case on its sign bit.
proof fn lemma_ashr_has(t: Tnum, x: u64, s: u64)
    requires
        s < 64,
        t.wf(),
    ensures
        t.has(x) ==> t.spec_ashr_const(s).has(ashr64(x, s)),
        t.spec_ashr_const(s).wf(),
{
    lemma_word_constants();
    lemma_shift_bits(t.value, t.mask, x, s);
    lemma_ashr_known_negative(t.value, t.mask, t.value, s);
    lemma_ashr_unknown_sign(t.value, t.mask, t.value, s);
    lemma_sign_bits(t.value, t.mask, x);
    if t.has(x) {
        lemma_ashr_known_negative(t.value, t.mask, x, s);
        lemma_ashr_unknown_sign(t.value, t.mask, x, s);
        // by what is known of the sign bit
        let vsig = (t.value >> 63) & 1 == 1;
        let msig = (t.mask >> 63) & 1 == 1;
        if t.spec_is_bottom() || t.spec_is_top() {
        } else if !vsig && !msig {
            assert(x >> 63 == 0);
            assert(t.spec_ashr_const(s) == Tnum { value: t.value >> s, mask: t.mask >> s });
            assert(ashr64(x, s) == x >> s);
        } else if vsig && !msig {
            assert(x >> 63 != 0);
            assert(ashr64(x, s) == !((!x) >> s));
        } else {
            assert(t.value >> 63 == 0);
            assert(t.mask >> 63 != 0);
            assert(ashr64(t.mask, s) == !((!t.mask) >> s));
        }
    }
}

} // verus!
