//! Multiplication: bit-serial accumulation, a constant fast path, and the
//! recursive algorithms that split an operand at an unknown bit.
use vstd::prelude::*;
use vstd::std_specs::bits::{
    axiom_u64_leading_zeros, u64_leading_ones, u64_leading_zeros, u64_trailing_zeros,
};

use crate::bits::{bit_set, count_ones, low_bits, popcount, testbit, ALL_ONES};
use crate::lattice::has_bits;
use crate::signed::word_of;
use crate::tnum::{lemma_word_constants, low_ones, Tnum};

verus! {

/// The unknown part of a product: for each bit of `a` from the lowest, the
/// correspondingly shifted mask of `b` added when the bit is known 1, all of
/// `b` when it is unknown.
pub open spec fn mul_acc(a: Tnum, b: Tnum, acc: Tnum) -> Tnum
    decreases a.value + a.mask,
    via mul_acc_decreases
{
    if a.value == 0 && a.mask == 0 {
        acc
    } else if a.spec_is_bottom() || a.spec_is_top() {
        acc
    } else {
        let next = if a.value & 1 != 0 {
            acc.spec_add(Tnum { value: 0, mask: b.mask })
        } else if a.mask & 1 != 0 {
            acc.spec_add(Tnum { value: 0, mask: b.value | b.mask })
        } else {
            acc
        };
        mul_acc(a.spec_lshr_const(1), b.spec_shl_const(1), next)
    }
}

#[via_fn]
proof fn mul_acc_decreases(a: Tnum, b: Tnum, acc: Tnum) {
    lemma_halve(a.value, a.mask);
}

proof fn lemma_halve(v: u64, m: u64)
    by (bit_vector)
    ensures
        v.wrapping_shr(1) + m.wrapping_shr(1) <= v + m,
        !(v == 0 && m == 0) ==> v.wrapping_shr(1) + m.wrapping_shr(1) < v + m,
        v.wrapping_shr(1) == v >> 1,
        m.wrapping_shr(1) == m >> 1,
        m >> 1 != 0xFFFF_FFFF_FFFF_FFFFu64,
        v & m == 0 ==> (v >> 1) & (m >> 1) == 0,
{
}

proof fn lemma_split_bits(m: u64, k: u64)
    by (bit_vector)
    ensures
        ((!m) >> 63) & 1 == 0 && ((!m) >> 62) & 1 == 0 ==> m >> 62 == 3,
        1 <= k < 64 ==> (m >> k) >> 62 != 3,
{
}

impl Tnum {
    /// The highest mask bits are not both set, so that the run of leading
    /// unknown bits leaves a split point inside the word.
    pub open spec fn splittable(self) -> bool {
        self.mask >> 62 != 3
    }

    /// The part above the run of leading unknown bits and the bit after it,
    /// the length of that run, and the part below it.
    pub open spec fn spec_split(self) -> (Tnum, u32, Tnum) {
        let i = u64_leading_ones(self.mask);
        let low = low_ones(i as u64);
        (
            Tnum { value: self.value >> (i + 1) as u32, mask: self.mask >> (i + 1) as u32 },
            i,
            Tnum { value: self.value & low, mask: self.mask & low },
        )
    }

    pub open spec fn spec_mul(self, other: Tnum) -> Tnum {
        self.absorb(
            other,
            Tnum { value: self.value.wrapping_mul(other.value), mask: 0 }.spec_add(
                mul_acc(self, other, Tnum { value: 0, mask: 0 }),
            ),
        )
    }

    pub open spec fn spec_mul_opt(self, other: Tnum) -> Tnum {
        if self.mask == 0 && popcount(self.value) == 1 {
            other.spec_shl_const(
                u64_trailing_zeros(self.value) as u64,
            )
        } else if other.mask == 0 && popcount(other.value) == 1 {
            self.spec_shl_const(
                u64_trailing_zeros(other.value) as u64,
            )
        } else if popcount(self.value | self.mask) <= popcount(other.value | other.mask) {
            self.spec_mul(other)
        } else {
            other.spec_mul(self)
        }
    }

    /// The product by the constant `c` over `n` splits of `self`.
    pub open spec fn spec_mul_const(self, c: u64, n: u64) -> Tnum
        decreases n,
    {
        if n == 0 {
            Tnum { value: c.wrapping_mul(self.value), mask: 0 }
        } else {
            let (y1, i1, y2) = self.spec_split();
            let p = y1.spec_mul_const(c, (n - 1) as u64);
            let mc = Tnum { value: c.wrapping_mul(y2.mask), mask: 0 };
            let mu0 = p.spec_shl_const((i1 + 1) as u64).spec_add(mc);
            let mu1 = mu0.spec_add(Tnum { value: c.wrapping_shl(i1), mask: 0 });
            mu0.spec_join(mu1)
        }
    }

    pub open spec fn spec_size(self) -> u8 {
        let a = 64 - u64_leading_zeros(self.value);
        let b = 64 - u64_leading_zeros(self.mask);
        if a < b {
            b as u8
        } else {
            a as u8
        }
    }

    /// The split product, with the wider operand split first; `bottom` if
    /// either operand holds no word. The split peels the bit after the run of
    /// leading unknown bits, which is bit 0 exactly when the top mask bit is
    /// clear; with the top mask bit set the bit-serial product is used.
    pub open spec fn spec_mul_split(self, other: Tnum) -> Tnum {
        let i = (64 - u64_leading_zeros(self.mask)) as u64;
        let j = (64 - u64_leading_zeros(other.mask)) as u64;
        if self.spec_is_bottom() || other.spec_is_bottom() {
            Tnum::spec_bottom()
        } else if self.mask >> 63 != 0 || other.mask >> 63 != 0 {
            self.spec_mul(other)
        } else if i <= j {
            spec_xtnum_mul(self, i, other, j)
        } else {
            spec_xtnum_mul(other, j, self, i)
        }
    }

    /// The highest-bit-first product with one step of fuel per possibly-set
    /// bit; `bottom` if either operand holds no word.
    pub open spec fn spec_mul_high_top(self, other: Tnum) -> Tnum {
        if self.spec_is_bottom() || other.spec_is_bottom() {
            Tnum::spec_bottom()
        } else {
            self.spec_mul_high(
                other,
                (popcount(self.value | self.mask) + popcount(other.value | other.mask)) as u8,
            )
        }
    }

    pub open spec fn spec_clear_bit(self, pos: u8) -> Tnum {
        Tnum { value: self.value & !(1u64 << pos), mask: self.mask & !(1u64 << pos) }
    }

    /// The product of `self` by `y`, clearing the highest bit of `y` at each
    /// of at most `n` steps. Fuel of one step per possibly-set bit of the two
    /// operands never runs out (`xtnum_mul_high` requires that much), so the
    /// `n == 0` case below is never reached.
    pub open spec fn spec_mul_high(self, y: Tnum, n: u8) -> Tnum
        decreases n,
    {
        if self.mask == 0 && y.mask == 0 {
            Tnum { value: self.value.wrapping_mul(y.value), mask: 0 }
        } else if n == 0 {
            Tnum { value: 0, mask: 0 }
        } else {
            let b = y.spec_size();
            if b == 0 {
                Tnum { value: 0, mask: 0 }
            } else {
                let ym = bit_set(y.mask, (b - 1) as u8);
                let yp = y.spec_clear_bit((b - 1) as u8);
                let p = if yp.value | yp.mask <= self.value | self.mask {
                    yp.spec_mul_high(self, (n - 1) as u8)
                } else {
                    self.spec_mul_high(yp, (n - 1) as u8)
                };
                let s = p.spec_add(self.spec_shl_const((b - 1) as u64));
                if ym {
                    s.spec_join(p)
                } else {
                    s
                }
            }
        }
    }
}

/// The recursive product that keeps only the high parts of both operands.
pub open spec fn spec_mul_rec(a: Tnum, b: Tnum) -> Tnum
    decreases a.value + a.mask + b.value + b.mask,
    via mul_rec_decreases
{
    if a.mask == 0 && b.mask == 0 {
        Tnum { value: a.value.wrapping_mul(b.value), mask: 0 }
    } else if a.mask == ALL_ONES && b.mask == ALL_ONES {
        Tnum { value: 0, mask: ALL_ONES }
    } else if (a.value == 0 && a.mask == 0) || (b.value == 0 && b.mask == 0) {
        Tnum { value: 0, mask: 0 }
    } else if a.value == 1 && a.mask == 0 {
        b
    } else if b.value == 1 && b.mask == 0 {
        a
    } else {
        spec_mul_rec(
            Tnum { value: a.value >> 1, mask: a.mask >> 1 },
            Tnum { value: b.value >> 1, mask: b.mask >> 1 },
        )
    }
}

#[via_fn]
proof fn mul_rec_decreases(a: Tnum, b: Tnum) {
    lemma_halve(a.value, a.mask);
    lemma_halve(b.value, b.mask);
}

/// The product of `x` (`i` unknown bits) by `y` (`j` unknown bits, `i <= j`),
/// splitting `y` at its first unknown bit.
pub open spec fn spec_xtnum_mul(x: Tnum, i: u64, y: Tnum, j: u64) -> Tnum
    decreases i + j,
{
    if i == 0 && j == 0 {
        Tnum { value: x.value.wrapping_mul(y.value), mask: 0 }
    } else if j == 0 || i > j {
        Tnum::spec_top()
    } else {
        let (y1, i1, y2) = y.spec_split();
        let p = if i == j {
            spec_xtnum_mul(y1, (j - 1) as u64, x, i)
        } else {
            spec_xtnum_mul(x, i, y1, (j - 1) as u64)
        };
        let mc = x.spec_mul_const(y2.value, i);
        let mu0 = p.spec_shl_const((i1 + 1) as u64).spec_add(mc);
        let mu1 = mu0.spec_add(x.spec_shl_const(i1 as u64));
        mu0.spec_join(mu1)
    }
}

proof fn lemma_serial_bits(av: u64, am: u64, bv: u64, bm: u64, xs: u64, ys: u64)
    by (bit_vector)
    ensures
        xs == 2 * (xs >> 1) + (xs & 1),
        av == 2 * (av >> 1) + (av & 1),
        (ys << 1) + (ys >> 63) * 0x1_0000_0000_0000_0000 == 2 * ys,
        (bv << 1) + (bv >> 63) * 0x1_0000_0000_0000_0000 == 2 * bv,
        xs & 1 == 0 || xs & 1 == 1,
        av & 1 == 0 || av & 1 == 1,
        bm << 1 != 0xFFFF_FFFF_FFFF_FFFFu64,
        has_bits(av, am, xs) && av & 1 != 0 ==> xs & 1 == 1 && av & 1 == 1,
        has_bits(av, am, xs) && av & 1 == 0 && am & 1 == 0 ==> xs & 1 == 0,
        av & am == 0 && am & 1 != 0 ==> av & 1 == 0,
        has_bits(bv, bm, ys) ==> ys ^ bv == ys - bv && has_bits(0, bm, ys ^ bv) && has_bits(
            0,
            bv | bm,
            ys,
        ) && has_bits(0, bv | bm, 0),
{
}

/// The accumulated unknown part holds `c + xs * ys - a.value * b.value`
/// (wrapping) for every `xs` held by `a` and `ys` held by `b`, when `acc`
/// holds `c`.
proof fn lemma_mul_acc_sound(a: Tnum, b: Tnum, acc: Tnum, xs: u64, ys: u64, c: u64)
    requires
        a.wf(),
        b.wf(),
        !a.spec_is_top(),
        !b.spec_is_top(),
        a.has(xs),
        b.has(ys),
        acc.has(c),
    ensures
        mul_acc(a, b, acc).has(word_of(c + xs * ys - a.value * b.value)),
    decreases a.value + a.mask,
{
    let m: int = 0x1_0000_0000_0000_0000;
    lemma_word_constants();
    if a.value == 0 && a.mask == 0 {
        assert(xs == 0);
        assert(c + xs * ys - a.value * b.value == c) by (nonlinear_arith)
            requires
                xs == 0,
                a.value == 0,
        ;
        vstd::arithmetic::div_mod::lemma_small_mod(c as nat, m as nat);
    } else {
        lemma_halve(a.value, a.mask);
        lemma_serial_bits(a.value, a.mask, b.value, b.mask, xs, ys);
        crate::shift::lemma_shift_bits(a.value, a.mask, xs, 1);
        crate::shift::lemma_shift_bits(b.value, b.mask, ys, 1);
        crate::shift::lemma_shift_bits(b.value, b.mask, 0, 1);
        let a1 = a.spec_lshr_const(1);
        let b1 = b.spec_shl_const(1);
        assert(a1 == Tnum { value: a.value >> 1, mask: a.mask >> 1 });
        assert(b1 == Tnum { value: b.value << 1, mask: b.mask << 1 });
        let xs1 = xs >> 1;
        let ys1 = ys << 1;
        let t: u64 = if a.value & 1 != 0 {
            ys ^ b.value
        } else if a.mask & 1 != 0 {
            if xs & 1 == 1 {
                ys
            } else {
                0
            }
        } else {
            0
        };
        let next = if a.value & 1 != 0 {
            acc.spec_add(Tnum { value: 0, mask: b.mask })
        } else if a.mask & 1 != 0 {
            acc.spec_add(Tnum { value: 0, mask: b.value | b.mask })
        } else {
            acc
        };
        let c1: u64 = if a.value & 1 != 0 || a.mask & 1 != 0 {
            c.wrapping_add(t)
        } else {
            c
        };
        if a.value & 1 != 0 {
            crate::arith::lemma_add_sound(acc, Tnum { value: 0, mask: b.mask }, c, t);
        } else if a.mask & 1 != 0 {
            crate::arith::lemma_add_sound(acc, Tnum { value: 0, mask: b.value | b.mask }, c, t);
        }
        assert(next.has(c1));
        // t is the low bit of xs times ys, less the low bit of a.value times b.value
        assert(t == (xs & 1) * ys - (a.value & 1) * b.value) by (nonlinear_arith)
            requires
                a.value & 1 != 0 ==> xs & 1 == 1 && a.value & 1 == 1 && t == ys - b.value,
                a.value & 1 == 0 || a.value & 1 == 1,
                a.value & 1 == 0 && a.mask & 1 != 0 ==> t == (if xs & 1 == 1 { ys } else { 0 }),
                a.value & 1 == 0 && a.mask & 1 == 0 ==> xs & 1 == 0 && t == 0,
                xs & 1 == 0 || xs & 1 == 1,
        ;
        lemma_mul_acc_sound(a1, b1, next, xs1, ys1, c1);
        let k1: int = if a.value & 1 != 0 || a.mask & 1 != 0 {
            (c + t - c1) / m
        } else {
            0
        };
        let p = c + xs * ys - a.value * b.value;
        let q = c1 + xs1 * ys1 - a1.value * b1.value;
        let av1: int = (a.value >> 1) as int;
        let h1: int = (ys >> 63) as int;
        let h2: int = (b.value >> 63) as int;
        let xb: int = (xs & 1) as int;
        let ab: int = (a.value & 1) as int;
        assert(xs1 * ys1 == 2 * xs1 * ys - xs1 * h1 * m) by (nonlinear_arith)
            requires
                ys1 + h1 * m == 2 * ys,
        ;
        assert(av1 * b1.value == 2 * av1 * b.value - av1 * h2 * m) by (nonlinear_arith)
            requires
                b1.value + h2 * m == 2 * b.value,
        ;
        assert(xs * ys == 2 * xs1 * ys + xb * ys) by (nonlinear_arith)
            requires
                xs == 2 * xs1 + xb,
        ;
        assert(a.value * b.value == 2 * av1 * b.value + ab * b.value) by (nonlinear_arith)
            requires
                a.value == 2 * av1 + ab,
        ;
        let kk = av1 * h2 - xs1 * h1 - k1;
        assert(m * kk == av1 * h2 * m - xs1 * h1 * m - k1 * m) by (nonlinear_arith)
            requires
                kk == av1 * h2 - xs1 * h1 - k1,
        ;
        assert(q == m * kk + p);
        vstd::arithmetic::div_mod::lemma_mod_multiples_vanish(kk, p, m);
    }
}

/// The bit-serial product holds the wrapping product of any two held words.
pub proof fn lemma_mul_sound(a: Tnum, b: Tnum, x: u64, y: u64)
    requires
        a.has(x),
        b.has(y),
    ensures
        a.spec_mul(b).has(x.wrapping_mul(y)),
{
    let m: int = 0x1_0000_0000_0000_0000;
    lemma_word_constants();
    if !(a.spec_is_top() || b.spec_is_top()) {
        let zero = Tnum { value: 0, mask: 0 };
        assert(zero.has(0));
        lemma_mul_acc_sound(a, b, zero, x, y, 0);
        let acc = mul_acc(a, b, zero);
        let u = word_of(0 + x * y - a.value * b.value);
        let w = a.value.wrapping_mul(b.value);
        let known = Tnum { value: w, mask: 0 };
        assert(known.has(w));
        crate::arith::lemma_add_sound(known, acc, w, u);
        vstd::arithmetic::div_mod::lemma_add_mod_noop(
            a.value * b.value,
            x * y - a.value * b.value,
            m,
        );
        vstd::arithmetic::div_mod::lemma_mod_pos_bound(a.value * b.value, m);
        vstd::arithmetic::div_mod::lemma_mod_pos_bound(x * y, m);
        assert(w.wrapping_add(u) == x.wrapping_mul(y));
    }
}

proof fn lemma_low_split_bits(m: u64, j: u64, yc: u64, p: u64)
    by (bit_vector)
    ensures
        m >> 63 == 0 ==> ((!m) >> 63) & 1 == 1 && m >> 62 != 3,
        1 <= j < 64 ==> (m >> 1) >> ((j - 1) as u64) == m >> j,
        (m >> 1) >> 63 == 0,
        m >> 0 == m,
        yc == 2 * (yc >> 1) + (yc & 1),
        yc & 1 == 0 || yc & 1 == 1,
        (p << 1) + (p >> 63) * 0x1_0000_0000_0000_0000 == 2 * p,
        p << 0 == p,
{
}

/// The split product holds every product of held words when neither mask
/// has its top bit set.
pub proof fn lemma_xtnum_top_sound(a: Tnum, b: Tnum)
    requires
        a.mask >> 63 == 0,
        b.mask >> 63 == 0,
    ensures
        forall|x: u64, y: u64| a.has(x) && b.has(y) ==> #[trigger] a.spec_mul_split(b).has(
            x.wrapping_mul(y),
        ),
{
    axiom_u64_leading_zeros(a.mask);
    axiom_u64_leading_zeros(b.mask);
    lemma_word_constants();
    lemma_or_zero(0, 0);
    let i = (64 - u64_leading_zeros(a.mask)) as u64;
    let j = (64 - u64_leading_zeros(b.mask)) as u64;
    assert forall|x: u64, y: u64| a.has(x) && b.has(y) implies #[trigger] a.spec_mul_split(
        b,
    ).has(x.wrapping_mul(y)) by {
        assert(x.wrapping_mul(y) == y.wrapping_mul(x)) by (nonlinear_arith);
        if i <= j {
            lemma_xtnum_sound(a, i, b, j, x, y);
        } else {
            lemma_xtnum_sound(b, j, a, i, y, x);
        }
    }
}

proof fn lemma_clear_top_bits(v: u64, m: u64, yc: u64, k: u8)
    by (bit_vector)
    requires
        k < 64,
    ensures
        has_bits(v, m, yc) ==> has_bits(v & !(1u64 << k), m & !(1u64 << k), yc & !(1u64 << k)),
        yc == (yc & !(1u64 << k)) + ((yc >> k) & 1) * (1u64 << (k as u64)),
        (yc >> k) & 1 == 0 ==> yc & !(1u64 << k) == yc,
        (yc >> k) & 1 == 0 || (yc >> k) & 1 == 1,
        has_bits(v, m, yc) && !((m >> k) & 1 == 1) && ((v >> k) & 1 == 1 || (m >> k) & 1 == 1)
            ==> (yc >> k) & 1 == 1,
{
}

/// The highest-bit-first product holds every product of held words.
proof fn lemma_mul_high_sound(x: Tnum, y: Tnum, n: u8, xc: u64, yc: u64)
    requires
        x.wf(),
        y.wf(),
        n >= popcount(x.value | x.mask) + popcount(y.value | y.mask),
        x.has(xc),
        y.has(yc),
    ensures
        x.spec_mul_high(y, n).has(xc.wrapping_mul(yc)),
    decreases n,
{
    let m: int = 0x1_0000_0000_0000_0000;
    lemma_word_constants();
    lemma_popcount_zero(x.value | x.mask);
    lemma_popcount_zero(y.value | y.mask);
    lemma_or_zero(x.value, x.mask);
    lemma_or_zero(y.value, y.mask);
    if x.mask == 0 && y.mask == 0 {
        assert(xc == x.value && yc == y.value);
    } else {
        let b = y.spec_size();
        axiom_u64_leading_zeros(y.value);
        axiom_u64_leading_zeros(y.mask);
        if b == 0 {
            assert(yc == 0);
            assert(xc.wrapping_mul(0) == 0) by (nonlinear_arith);
        } else {
            let k = (b - 1) as u8;
            crate::bits::lemma_disjoint_facts();
            lemma_top_bit_of_size(y);
            lemma_clear_bit_or(y.value, y.mask, k as u64);
            lemma_popcount_clear(y.value | y.mask, k as nat);
            lemma_clear_top_bits(y.value, y.mask, yc, k);
            let yp = y.spec_clear_bit(k);
            let ycp = yc & !(1u64 << k);
            assert(yp.has(ycp));
            assert(xc.wrapping_mul(ycp) == ycp.wrapping_mul(xc)) by (nonlinear_arith);
            if yp.value | yp.mask <= x.value | x.mask {
                lemma_mul_high_sound(yp, x, (n - 1) as u8, ycp, xc);
            } else {
                lemma_mul_high_sound(x, yp, (n - 1) as u8, xc, ycp);
            }
            let p = if yp.value | yp.mask <= x.value | x.mask {
                yp.spec_mul_high(x, (n - 1) as u8)
            } else {
                x.spec_mul_high(yp, (n - 1) as u8)
            };
            let pc = xc.wrapping_mul(ycp);
            assert(p.has(pc));
            crate::shift::lemma_shl_const_has(x, xc, k as u64);
            let q = xc << (k as u64);
            crate::arith::lemma_add_sound(p, x.spec_shl_const(k as u64), pc, q);
            let s = p.spec_add(x.spec_shl_const(k as u64));
            let e = (yc >> k) & 1;
            if e == 1 {
                lemma_pow2_product(k as u64, xc, 0);
                vstd::bits::lemma_u64_pow2_no_overflow(k as nat);
                vstd::bits::lemma_u64_shl_is_mul(1, k as u64);
                let t = vstd::arithmetic::power2::pow2(k as nat) as int;
                assert(yc == ycp + t);
                assert(xc * yc == xc * ycp + t * xc) by (nonlinear_arith)
                    requires
                        yc == ycp + t,
                ;
                vstd::arithmetic::div_mod::lemma_add_mod_noop(xc * ycp, t * xc, m);
                vstd::arithmetic::div_mod::lemma_mod_multiples_vanish(-1, pc + q, m);
                if pc + q < m {
                    vstd::arithmetic::div_mod::lemma_small_mod((pc + q) as nat, m as nat);
                } else {
                    vstd::arithmetic::div_mod::lemma_small_mod((pc + q - m) as nat, m as nat);
                }
                assert(pc.wrapping_add(q) == xc.wrapping_mul(yc));
                assert(s.has(xc.wrapping_mul(yc)));
            } else {
                assert(ycp == yc);
                assert(p.has(xc.wrapping_mul(yc)));
            }
            if bit_set(y.mask, k) {
                crate::lattice::lemma_join_has(s, p, xc.wrapping_mul(yc));
            } else {
                assert(e == 1);
            }
        }
    }
}

/// Multiplying by the constant 0 gives the known word 0.
proof fn lemma_mul_const_zero(t: Tnum, n: u64)
    ensures
        t.spec_mul_const(0, n) == (Tnum { value: 0, mask: 0 }),
    decreases n,
{
    lemma_word_constants();
    if n > 0 {
        let (y1, i1, y2) = t.spec_split();
        lemma_mul_const_zero(y1, (n - 1) as u64);
        assert(0u64.wrapping_mul(y2.mask) == 0);
        assert(0u64.wrapping_shl(i1) == 0);
    } else {
        assert(0u64.wrapping_mul(t.value) == 0);
    }
}

/// The split product holds every product of held words when no mask has its
/// top bit set: each step then splits off bit 0 of `y`, and joins the
/// products for that bit clear and set.
proof fn lemma_xtnum_sound(x: Tnum, i: u64, y: Tnum, j: u64, xc: u64, yc: u64)
    requires
        i <= j < 64,
        x.mask >> 63 == 0,
        y.mask >> 63 == 0,
        x.mask >> i == 0,
        y.mask >> j == 0,
        x.has(xc),
        y.has(yc),
    ensures
        spec_xtnum_mul(x, i, y, j).has(xc.wrapping_mul(yc)),
    decreases i + j,
{
    let m: int = 0x1_0000_0000_0000_0000;
    lemma_word_constants();
    lemma_low_split_bits(x.mask, j, yc, 0);
    lemma_low_split_bits(y.mask, j, yc, 0);
    if i == 0 && j == 0 {
        assert(xc == x.value);
        assert(yc == y.value);
    } else {
        axiom_u64_leading_zeros(!y.mask);
        let (y1, i1, y2) = y.spec_split();
        assert(i1 == 0);
        let y1c = yc >> 1;
        crate::shift::lemma_shift_bits(y.value, y.mask, yc, 1);
        assert(y1.has(y1c));
        let pc = xc.wrapping_mul(y1c);
        assert(xc.wrapping_mul(y1c) == y1c.wrapping_mul(xc)) by (nonlinear_arith);
        if i == j {
            lemma_xtnum_sound(y1, (j - 1) as u64, x, i, y1c, xc);
        } else {
            lemma_xtnum_sound(x, i, y1, (j - 1) as u64, xc, y1c);
        }
        let p = if i == j {
            spec_xtnum_mul(y1, (j - 1) as u64, x, i)
        } else {
            spec_xtnum_mul(x, i, y1, (j - 1) as u64)
        };
        assert(p.has(pc));
        lemma_mul_const_zero(x, i);
        let mc = x.spec_mul_const(y2.value, i);
        assert(mc == Tnum { value: 0, mask: 0 });
        crate::shift::lemma_shl_const_has(p, pc, 1);
        let q0 = pc << 1;
        crate::arith::lemma_add_sound(p.spec_shl_const(1), mc, q0, 0);
        let mu0 = p.spec_shl_const(1).spec_add(mc);
        let w0 = q0.wrapping_add(0);
        crate::shift::lemma_shl_const_has(x, xc, 0);
        lemma_low_split_bits(x.mask, j, yc, xc);
        crate::arith::lemma_add_sound(mu0, x.spec_shl_const(0), w0, xc);
        let w1 = w0.wrapping_add(xc);
        let mu1 = mu0.spec_add(x.spec_shl_const(i1 as u64));
        lemma_low_split_bits(x.mask, j, yc, pc);
        let b = yc & 1;
        let k1 = (xc * y1c) / m;
        let h = pc >> 63;
        let w: u64 = if b == 0 {
            w0
        } else {
            w1
        };
        let k2: int = if b == 0 || w0 + xc < m {
            0
        } else {
            1
        };
        vstd::arithmetic::div_mod::lemma_fundamental_div_mod(xc * y1c, m);
        assert(w == xc * yc - m * (2 * k1 + h + k2)) by (nonlinear_arith)
            requires
                yc == 2 * y1c + b,
                pc == xc * y1c - m * k1,
                q0 + h * m == 2 * pc,
                w0 == q0,
                b == 0 ==> w == w0 && k2 == 0,
                b == 1 ==> w == w0 + xc - m * k2,
                b == 0 || b == 1,
        ;
        vstd::arithmetic::div_mod::lemma_mod_multiples_vanish(-(2 * k1 + h + k2), xc * yc, m);
        vstd::arithmetic::div_mod::lemma_small_mod(w as nat, m as nat);
        assert(w == xc.wrapping_mul(yc));
        if b == 0 {
            crate::lattice::lemma_join_has(mu0, mu1, w);
        } else {
            crate::lattice::lemma_join_has(mu0, mu1, w);
        }
    }
}

/// A word with no set bit is zero.
proof fn lemma_popcount_zero(z: u64)
    ensures
        popcount(z) == 0 <==> z == 0,
    decreases z,
{
    if z != 0 {
        lemma_popcount_zero(z / 2);
    }
}

/// Clearing a set bit removes one from the count of set bits.
proof fn lemma_popcount_clear(z: u64, k: nat)
    requires
        k < 64,
        (z >> k as u64) & 1 == 1,
    ensures
        popcount(z & !(1u64 << k as u64)) + 1 == popcount(z),
    decreases k,
{
    lemma_halve_bits(z, k as u64);
    if k > 0 {
        lemma_popcount_clear(z / 2, (k - 1) as nat);
    }
    let zc = z & !(1u64 << k as u64);
    if zc != 0 {
        assert(popcount(zc) == (zc % 2) as nat + popcount(zc / 2));
    }
}

proof fn lemma_halve_bits(z: u64, k: u64)
    by (bit_vector)
    requires
        k < 64,
        (z >> k) & 1 == 1,
    ensures
        z != 0,
        k == 0 ==> z % 2 == 1 && (z & !(1u64 << k)) % 2 == 0 && (z & !(1u64 << k)) / 2 == z / 2,
        k > 0 ==> (z & !(1u64 << k)) % 2 == z % 2 && (z & !(1u64 << k)) / 2 == (z / 2) & !(1u64
            << ((k - 1) as u64)) && ((z / 2) >> ((k - 1) as u64)) & 1 == 1,
{
}

proof fn lemma_or_zero(v: u64, m: u64)
    by (bit_vector)
    ensures
        (v | m == 0) == (v == 0 && m == 0),
        forall|x: u64| #[trigger] (x & 1) != 0 ==> x & 1 == 1,
{
}

proof fn lemma_clear_bit_or(v: u64, m: u64, k: u64)
    by (bit_vector)
    requires
        k < 64,
    ensures
        (v & !(1u64 << k)) | (m & !(1u64 << k)) == (v | m) & !(1u64 << k),
        ((v >> k) & 1 == 1 || (m >> k) & 1 == 1) ==> ((v | m) >> k) & 1 == 1,
{
}

/// The highest bit inside the size of a tnum is set in its value or mask.
proof fn lemma_top_bit_of_size(y: Tnum)
    requires
        y.spec_size() > 0,
    ensures
        (y.value >> (y.spec_size() - 1) as u64) & 1 == 1 || (y.mask >> (y.spec_size() - 1) as u64)
            & 1 == 1,
{
    axiom_u64_leading_zeros(y.value);
    axiom_u64_leading_zeros(y.mask);
    lemma_or_zero(0, 0);
    let lv = u64_leading_zeros(y.value);
    let lm = u64_leading_zeros(y.mask);
    if 64 - lv < 64 - lm {
        assert(y.spec_size() - 1 == 63 - lm);
        assert((y.mask >> (63 - lm) as u64) & 1 != 0);
    } else {
        assert(y.spec_size() - 1 == 63 - lv);
        assert((y.value >> (63 - lv) as u64) & 1 != 0);
    }
}

impl Tnum {
    /// Product by bit-serial accumulation over the bits of `self`.
    pub fn mul(&self, other: Self) -> (r: Self)
        ensures
            r == self.spec_mul(other),
            r.valid(),
            self.spec_is_bottom() || other.spec_is_bottom() ==> r == Tnum::spec_bottom(),
            forall|x: u64, y: u64|
                self.has(x) && other.has(y) ==> #[trigger] r.has(x.wrapping_mul(y)),
    {
        proof {
            lemma_word_constants();
            assert forall|x: u64, y: u64| self.has(x) && other.has(y) implies #[trigger] self.spec_mul(
                other,
            ).has(x.wrapping_mul(y)) by {
                lemma_mul_sound(*self, other, x, y);
            }
        }
        if self.is_bottom() || other.is_bottom() {
            return Self::bottom();
        } else if self.is_top() || other.is_top() {
            return Self::top();
        }
        let mut a = *self;
        let mut b = other;
        let acc_v = a.value.wrapping_mul(b.value);
        let mut acc_m: Self = Self::new(0, 0);
        while (a.value != 0) || (a.mask != 0)
            invariant
                !a.spec_is_bottom(),
                !a.spec_is_top(),
                mul_acc(a, b, acc_m) == mul_acc(*self, other, Tnum { value: 0, mask: 0 }),
            decreases a.value + a.mask,
        {
            proof {
                lemma_halve(a.value, a.mask);
            }
            if (a.value & 1) != 0 {
                acc_m = acc_m.add(Tnum::new(0, b.mask));
            } else if (a.mask & 1) != 0 {
                acc_m = acc_m.add(Tnum::new(0, b.value | b.mask));
            }
            a = a.lshr_const(1);
            b = b.shl_const(1);
        }
        Tnum::new(acc_v, 0).add(acc_m)
    }

    /// A shift where either operand is a known power of two, else `mul` with
    /// the operand of fewer possibly-set bits first.
    pub fn mul_opt(&self, other: Self) -> (r: Self)
        ensures
            r == self.spec_mul_opt(other),
            self.valid() && other.valid() ==> r.valid(),
            self.spec_is_bottom() || other.spec_is_bottom() ==> r.spec_is_bottom(),
            forall|x: u64, y: u64|
                self.has(x) && other.has(y) ==> #[trigger] r.has(x.wrapping_mul(y)),
    {
        proof {
            lemma_word_constants();
        }
        if self.mask == 0 && count_ones(self.value) == 1 {
            let r = other.shl_const(self.value.trailing_zeros() as u64);
            proof {
                assert forall|x: u64, y: u64| self.has(x) && other.has(y) implies #[trigger] r.has(
                    x.wrapping_mul(y),
                ) by {
                    assert(x == self.value);
                    lemma_single_bit_product(self.value, y);
                }
            }
            r
        } else if other.mask == 0 && count_ones(other.value) == 1 {
            let r = self.shl_const(other.value.trailing_zeros() as u64);
            proof {
                assert forall|x: u64, y: u64| self.has(x) && other.has(y) implies #[trigger] r.has(
                    x.wrapping_mul(y),
                ) by {
                    assert(y == other.value);
                    lemma_single_bit_product(other.value, x);
                }
            }
            r
        } else if count_ones(self.value | self.mask) <= count_ones(other.value | other.mask) {
            self.mul(other)
        } else {
            let r = other.mul(*self);
            proof {
                assert forall|x: u64, y: u64| self.has(x) && other.has(y) implies #[trigger] r.has(
                    x.wrapping_mul(y),
                ) by {
                    assert(r.has(y.wrapping_mul(x)));
                    assert(x.wrapping_mul(y) == y.wrapping_mul(x)) by (nonlinear_arith);
                }
            }
            r
        }
    }

    /// Splits at the end of the run of leading unknown bits.
    fn split_at_mu(&self) -> (r: (Self, u32, Self))
        requires
            self.splittable(),
        ensures
            r == self.spec_split(),
            r.1 <= 62,
    {
        proof {
            axiom_u64_leading_zeros(!self.mask);
            lemma_split_bits(self.mask, 1);
            if u64_leading_ones(self.mask) >= 63 {
                assert(((!self.mask) >> 63u64) & 1 == 0);
                assert(((!self.mask) >> 62u64) & 1 == 0);
            }
        }
        let i = self.mask.leading_ones();
        let low = low_bits(i);
        let x1 = Self::new(self.value >> (i + 1), self.mask >> (i + 1));
        let x2 = Self::new(self.value & low, self.mask & low);
        (x1, i, x2)
    }

    /// Multiplies the constant `c` by `self`, over `n` splits.
    fn mul_const(&self, c: u64, n: u64) -> (r: Self)
        requires
            self.splittable(),
        ensures
            r == self.spec_mul_const(c, n),
            r.wf(),
        decreases n,
    {
        proof {
            lemma_word_constants();
        }
        if n == 0 {
            Self::new(c.wrapping_mul(self.value), 0)
        } else {
            let (y1, i1, y2) = self.split_at_mu();
            proof {
                lemma_split_bits(self.mask, (i1 + 1) as u64);
            }
            let p = y1.mul_const(c, n - 1);
            let mc = Self::new(c.wrapping_mul(y2.mask), 0);
            let mu0 = p.shl_const((i1 + 1) as u64).add(mc);
            let mu1 = mu0.add(Self::new(c.wrapping_shl(i1), 0));
            mu0.join(mu1)
        }
    }

    /// Multiplies `x` (`i` unknown bits) by `y` (`j` unknown bits).
    fn xtnum_mul(x: Self, i: u64, y: Self, j: u64) -> (r: Self)
        requires
            i <= j,
            x.splittable(),
            y.splittable(),
        ensures
            r == spec_xtnum_mul(x, i, y, j),
            r.wf(),
        decreases i + j,
    {
        proof {
            lemma_word_constants();
        }
        if i == 0 && j == 0 {
            Self::new(x.value.wrapping_mul(y.value), 0)
        } else {
            let (y1, i1, y2) = y.split_at_mu();
            proof {
                lemma_split_bits(y.mask, (i1 + 1) as u64);
            }
            let p = if i == j {
                Self::xtnum_mul(y1, j - 1, x, i)
            } else {
                Self::xtnum_mul(x, i, y1, j - 1)
            };
            let mc = x.mul_const(y2.value, i);
            let mu0 = p.shl_const((i1 + 1) as u64).add(mc);
            let mu1 = mu0.add(x.shl_const(i1 as u64));
            mu0.join(mu1)
        }
    }

    /// Product by splitting the operand with more unknown bits at its first
    /// unknown bit and joining the two completions (the bit-serial product
    /// when a mask has its top bit set).
    pub fn xtnum_mul_top(&self, other: Self) -> (r: Self)
        ensures
            r == self.spec_mul_split(other),
            r.valid(),
            self.spec_is_bottom() || other.spec_is_bottom() ==> r == Tnum::spec_bottom(),
            forall|x: u64, y: u64|
                self.has(x) && other.has(y) ==> #[trigger] r.has(x.wrapping_mul(y)),
    {
        proof {
            axiom_u64_leading_zeros(self.mask);
            axiom_u64_leading_zeros(other.mask);
            lemma_low_split_bits(self.mask, 0, 0, 0);
            lemma_low_split_bits(other.mask, 0, 0, 0);
            if self.mask >> 63 == 0 && other.mask >> 63 == 0 {
                lemma_xtnum_top_sound(*self, other);
            }
        }
        if self.is_bottom() || other.is_bottom() {
            return Self::bottom();
        }
        if self.mask >> 63 != 0 || other.mask >> 63 != 0 {
            return self.mul(other);
        }
        let i = 64 - self.mask.leading_zeros() as u64;
        let j = 64 - other.mask.leading_zeros() as u64;
        let r = if i <= j {
            Self::xtnum_mul(*self, i, other, j)
        } else {
            Self::xtnum_mul(other, j, *self, i)
        };
        proof {
            assert(r == self.spec_mul_split(other));
        }
        r
    }

    fn clear_bit(&self, pos: u8) -> (r: Self)
        requires
            pos < 64,
        ensures
            r == self.spec_clear_bit(pos),
    {
        Self::new(self.value & !(1u64 << pos), self.mask & !(1u64 << pos))
    }

    /// The bit length of the wider of `value` and `mask`.
    fn size(&self) -> (r: u8)
        ensures
            r == self.spec_size(),
            r <= 64,
    {
        proof {
            axiom_u64_leading_zeros(self.value);
            axiom_u64_leading_zeros(self.mask);
        }
        let a = 64 - self.value.leading_zeros();
        let b = 64 - self.mask.leading_zeros();
        if a < b {
            b as u8
        } else {
            a as u8
        }
    }

    fn max_val(&self) -> (r: u64)
        ensures
            r == self.value | self.mask,
    {
        self.value | self.mask
    }

    /// Multiplies `self` by `y`, highest bit of `y` first, with `n` steps of fuel.
    /// The fuel covers every possibly-set bit of both operands, so it never
    /// runs out before both operands are known.
    fn xtnum_mul_high(&self, y: Self, n: u8) -> (r: Self)
        requires
            self.wf(),
            y.wf(),
            n >= popcount(self.value | self.mask) + popcount(y.value | y.mask),
        ensures
            r == self.spec_mul_high(y, n),
            r.wf(),
        decreases n,
    {
        proof {
            lemma_word_constants();
            lemma_popcount_zero(self.value | self.mask);
            lemma_popcount_zero(y.value | y.mask);
            lemma_or_zero(self.value, self.mask);
            lemma_or_zero(y.value, y.mask);
        }
        if self.mask == 0 && y.mask == 0 {
            Self::new(self.value.wrapping_mul(y.value), 0)
        } else {
            let b = y.size();
            if b == 0 {
                return Self::new(0, 0);
            }
            let ym = testbit(y.mask, b - 1);
            let y_prime = y.clear_bit(b - 1);
            proof {
                crate::bits::lemma_disjoint_facts();
                lemma_top_bit_of_size(y);
                lemma_clear_bit_or(y.value, y.mask, (b - 1) as u64);
                lemma_popcount_clear(y.value | y.mask, (b - 1) as nat);
            }
            let p = if y_prime.max_val() <= self.max_val() {
                y_prime.xtnum_mul_high(*self, n - 1)
            } else {
                self.xtnum_mul_high(y_prime, n - 1)
            };
            if ym {
                p.add(self.shl_const((b - 1) as u64)).join(p)
            } else {
                p.add(self.shl_const((b - 1) as u64))
            }
        }
    }

    /// Product highest bit first, with as many steps of fuel as the two
    /// operands have possibly-set bits.
    pub fn xtnum_mul_high_top(&self, other: Self) -> (r: Self)
        ensures
            r == self.spec_mul_high_top(other),
            r.valid(),
            self.spec_is_bottom() || other.spec_is_bottom() ==> r == Tnum::spec_bottom(),
            forall|x: u64, y: u64|
                self.has(x) && other.has(y) ==> #[trigger] r.has(x.wrapping_mul(y)),
    {
        if self.is_bottom() || other.is_bottom() {
            return Self::bottom();
        }
        let n = (count_ones(self.value | self.mask) + count_ones(other.value | other.mask)) as u8;
        proof {
            assert forall|x: u64, y: u64| self.has(x) && other.has(y) implies #[trigger] self.spec_mul_high(
                other,
                n,
            ).has(x.wrapping_mul(y)) by {
                lemma_mul_high_sound(*self, other, n, x, y);
            }
        }
        self.xtnum_mul_high(other, n)
    }

    fn decompose(&self) -> (r: (Self, Self))
        ensures
            r == (Tnum { value: self.value >> 1, mask: self.mask >> 1 }, Tnum {
                value: self.value & 1,
                mask: self.mask & 1,
            }),
    {
        (Self::new(self.value >> 1, self.mask >> 1), Self::new(self.value & 1, self.mask & 1))
    }

    /// A recursive product that folds only the high parts of both operands.
    /// It drops the low-bit cross terms and is not a sound product; it stands
    /// as a reference for comparisons.
    pub fn mul_rec(&self, other: Self) -> (r: Self)
        ensures
            r == spec_mul_rec(*self, other),
            self.wf() && other.wf() ==> r.wf(),
        decreases self.value + self.mask + other.value + other.mask,
    {
        proof {
            lemma_word_constants();
            lemma_halve(self.value, self.mask);
            lemma_halve(other.value, other.mask);
        }
        if self.mask == 0 && other.mask == 0 {
            Self::new(self.value.wrapping_mul(other.value), 0)
        } else if self.mask == ALL_ONES && other.mask == ALL_ONES {
            Self::new(0, ALL_ONES)
        } else if (self.value == 0 && self.mask == 0) || (other.value == 0 && other.mask == 0) {
            Self::new(0, 0)
        } else if self.value == 1 && self.mask == 0 {
            other
        } else if other.value == 1 && other.mask == 0 {
            *self
        } else {
            let (a_up, _a_low) = self.decompose();
            let (b_up, _b_low) = other.decompose();
            a_up.mul_rec(b_up)
        }
    }
}

} // verus!

verus! {

proof fn lemma_pow2_product(t: u64, y: u64, d: u64)
    by (bit_vector)
    requires
        t < 64,
    ensures
        (1u64 << t).wrapping_mul(y) == y << t,
        d & !(1u64 << t) == 0 && (d >> t) & 1 == 1 ==> d == 1u64 << t,
{
}

/// Multiplying by a word with one set bit is shifting by its position.
proof fn lemma_single_bit_product(d: u64, y: u64)
    requires
        popcount(d) == 1,
    ensures
        u64_trailing_zeros(d) < 64,
        d.wrapping_mul(y) == y << (u64_trailing_zeros(d) as u64 % 64),
        y.wrapping_mul(d) == y << (u64_trailing_zeros(d) as u64 % 64),
{
    lemma_popcount_zero(d);
    vstd::std_specs::bits::axiom_u64_trailing_zeros(d);
    let t = u64_trailing_zeros(d) as u64;
    lemma_popcount_clear(d, t as nat);
    lemma_popcount_zero(d & !(1u64 << t));
    lemma_pow2_product(t, y, d);
    assert(d.wrapping_mul(y) == y.wrapping_mul(d)) by (nonlinear_arith);
}

} // verus!
