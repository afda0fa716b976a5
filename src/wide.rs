//! A double-width (128-bit) tnum, scratch space for multiplications whose
//! carries must not be lost.
use vstd::prelude::*;

verus! {

/// A tnum over 128-bit words: bit `i` of `mask` set means bit `i` is unknown.
#[derive(Debug, Clone, Copy, PartialEq, Eq, Structural)]
pub struct TnumU128 {
    pub value: u128,
    pub mask: u128,
}

/// The sum of the two tnums `(av, am)` and `(bv, bm)` by carry propagation.
pub open spec fn wide_sum(a: TnumU128, b: TnumU128) -> TnumU128 {
    let sv = a.value.wrapping_add(b.value);
    let mu = ((a.mask.wrapping_add(b.mask)).wrapping_add(sv) ^ sv) | a.mask | b.mask;
    TnumU128 { value: sv & !mu, mask: mu }
}

/// The unknown part of a product: for each bit of `a` from the lowest, the
/// correspondingly shifted mask of `b` added when the bit is known 1, all of
/// `b` when it is unknown.
pub open spec fn wide_mul_acc(a: TnumU128, b: TnumU128, acc: TnumU128) -> TnumU128
    decreases a.value + a.mask,
    via wide_mul_acc_decreases
{
    if a.value == 0 && a.mask == 0 {
        acc
    } else {
        let next = if a.value & 1 != 0 {
            wide_sum(acc, TnumU128 { value: 0, mask: b.mask })
        } else if a.mask & 1 != 0 {
            wide_sum(acc, TnumU128 { value: 0, mask: b.value | b.mask })
        } else {
            acc
        };
        wide_mul_acc(
            TnumU128 { value: a.value.wrapping_shr(1), mask: a.mask.wrapping_shr(1) },
            TnumU128 { value: b.value.wrapping_shl(1), mask: b.mask.wrapping_shl(1) },
            next,
        )
    }
}

/// The product of two wide tnums by bit-serial accumulation.
pub open spec fn wide_product(a: TnumU128, b: TnumU128) -> TnumU128 {
    wide_sum(
        TnumU128 { value: a.value.wrapping_mul(b.value), mask: 0 },
        wide_mul_acc(a, b, TnumU128 { value: 0, mask: 0 }),
    )
}

#[via_fn]
proof fn wide_mul_acc_decreases(a: TnumU128, b: TnumU128, acc: TnumU128) {
    lemma_wide_halve(a.value, a.mask);
}

proof fn lemma_wide_halve(v: u128, m: u128)
    by (bit_vector)
    ensures
        !(v == 0 && m == 0) ==> v.wrapping_shr(1) + m.wrapping_shr(1) < v + m,
        (v & !m) & m == 0,
        v & m == 0 ==> ((v >> 64) as u64) & ((m >> 64) as u64) == 0,
{
}

/// The sum of two wide tnums is well formed.
pub proof fn lemma_wide_sum_wf(a: TnumU128, b: TnumU128)
    ensures
        wide_sum(a, b).value & wide_sum(a, b).mask == 0,
{
    let sv = a.value.wrapping_add(b.value);
    let mu = ((a.mask.wrapping_add(b.mask)).wrapping_add(sv) ^ sv) | a.mask | b.mask;
    lemma_wide_halve(sv, mu);
}

/// The high halves of a well-formed wide tnum are disjoint.
pub proof fn lemma_wide_high_half(t: TnumU128)
    ensures
        t.value & t.mask == 0 ==> ((t.value >> 64) as u64) & ((t.mask >> 64) as u64) == 0,
{
    lemma_wide_halve(t.value, t.mask);
}

impl TnumU128 {
    pub fn new(value: u128, mask: u128) -> (r: Self)
        ensures
            r == (TnumU128 { value, mask }),
    {
        Self { value, mask }
    }

    /// Sum by carry propagation, as for 64-bit tnums.
    pub fn add(&self, other: Self) -> (r: Self)
        ensures
            r == wide_sum(*self, other),
            r.value & r.mask == 0,
    {
        proof {
            lemma_wide_sum_wf(*self, other);
        }
        let sm = self.mask.wrapping_add(other.mask);
        let sv = self.value.wrapping_add(other.value);
        let sigma = sm.wrapping_add(sv);
        let chi = sigma ^ sv;
        let mu = chi | self.mask | other.mask;
        Self::new(sv & !mu, mu)
    }

    /// Product by bit-serial accumulation: the product of the values, plus
    /// the accumulated unknown part.
    pub fn mul(&self, other: Self) -> (r: Self)
        ensures
            r == wide_product(*self, other),
            r.value & r.mask == 0,
            forall|x: u128, y: u128|
                self.has(x) && other.has(y) ==> #[trigger] r.has(x.wrapping_mul(y)),
    {
        proof {
            assert forall|x: u128, y: u128| self.has(x) && other.has(y) implies #[trigger] wide_product(
                *self,
                other,
            ).has(x.wrapping_mul(y)) by {
                lemma_wide_product_sound(*self, other, x, y);
            }
        }
        let mut a = Self::new(self.value, self.mask);
        let mut b = Self::new(other.value, other.mask);
        let acc_v = a.value.wrapping_mul(b.value);
        let mut acc_m: Self = Self::new(0, 0);
        while (a.value != 0) || (a.mask != 0)
            invariant
                wide_mul_acc(a, b, acc_m) == wide_mul_acc(*self, other, TnumU128 {
                    value: 0,
                    mask: 0,
                }),
            decreases a.value + a.mask,
        {
            proof {
                lemma_wide_halve(a.value, a.mask);
            }
            if (a.value & 1) != 0 {
                acc_m = acc_m.add(Self::new(0, b.mask));
            } else if (a.mask & 1) != 0 {
                acc_m = acc_m.add(Self::new(0, b.value | b.mask));
            }
            a.value = a.value.wrapping_shr(1);
            a.mask = a.mask.wrapping_shr(1);
            b.value = b.value.wrapping_shl(1);
            b.mask = b.mask.wrapping_shl(1);
        }
        Self::new(acc_v, 0).add(acc_m)
    }
}

} // verus!

verus! {

impl TnumU128 {
    /// `w` is one of the words that the wide tnum stands for.
    pub open spec fn has(self, w: u128) -> bool {
        self.value & self.mask == 0 && (w ^ self.value) & !self.mask == 0
    }
}

/// The word of `i` modulo 2^128.
pub open spec fn word128(i: int) -> u128 {
    (i % 0x1_0000_0000_0000_0000_0000_0000_0000_0000int) as u128
}

proof fn lemma_wide_add_bits(av: u128, am: u128, bv: u128, bm: u128, x: u128, y: u128)
    by (bit_vector)
    ensures
        ({
            let sv = av.wrapping_add(bv);
            let mu = ((am.wrapping_add(bm)).wrapping_add(sv) ^ sv) | am | bm;
            av & am == 0 && (x ^ av) & !am == 0 && bv & bm == 0 && (y ^ bv) & !bm == 0 ==> (sv
                & !mu) & mu == 0 && (x.wrapping_add(y) ^ (sv & !mu)) & !mu == 0
        }),
{
}

/// The wide carry-propagation sum holds the wrapping sum of held words.
pub proof fn lemma_wide_sum_sound(a: TnumU128, b: TnumU128, x: u128, y: u128)
    requires
        a.has(x),
        b.has(y),
    ensures
        wide_sum(a, b).has(x.wrapping_add(y)),
{
    lemma_wide_add_bits(a.value, a.mask, b.value, b.mask, x, y);
}

proof fn lemma_wide_serial_bits(av: u128, am: u128, bv: u128, bm: u128, xs: u128, ys: u128)
    by (bit_vector)
    ensures
        xs == 2 * (xs >> 1) + (xs & 1),
        av == 2 * (av >> 1) + (av & 1),
        (ys << 1) as int + (ys >> 127) as int * 0x1_0000_0000_0000_0000_0000_0000_0000_0000int
            == 2 * ys as int,
        (bv << 1) as int + (bv >> 127) as int * 0x1_0000_0000_0000_0000_0000_0000_0000_0000int
            == 2 * bv as int,
        xs & 1 == 0 || xs & 1 == 1,
        av & 1 == 0 || av & 1 == 1,
        av.wrapping_shr(1) == av >> 1 && am.wrapping_shr(1) == am >> 1,
        bv.wrapping_shl(1) == bv << 1 && bm.wrapping_shl(1) == bm << 1,
        av & am == 0 && (xs ^ av) & !am == 0 ==> (av >> 1) & (am >> 1) == 0 && ((xs >> 1) ^ (av
            >> 1)) & !(am >> 1) == 0,
        bv & bm == 0 && (ys ^ bv) & !bm == 0 ==> (bv << 1) & (bm << 1) == 0 && ((ys << 1) ^ (bv
            << 1)) & !(bm << 1) == 0,
        av & am == 0 && (xs ^ av) & !am == 0 && av & 1 != 0 ==> xs & 1 == 1 && av & 1 == 1,
        (xs ^ av) & !am == 0 && av & 1 == 0 && am & 1 == 0 ==> xs & 1 == 0,
        av & am == 0 && am & 1 != 0 ==> av & 1 == 0,
        bv & bm == 0 && (ys ^ bv) & !bm == 0 ==> ys ^ bv == ys - bv && ((ys ^ bv) ^ 0) & !bm == 0
            && (ys ^ 0) & !(bv | bm) == 0,
        0u128 & bm == 0 && 0u128 & (bv | bm) == 0 && (0u128 ^ 0) & !(bv | bm) == 0,
{
}

/// The accumulated unknown part holds `c + xs * ys - a.value * b.value`
/// (modulo 2^128) for held `xs`, `ys`, when `acc` holds `c`.
proof fn lemma_wide_acc_sound(
    a: TnumU128,
    b: TnumU128,
    acc: TnumU128,
    xs: u128,
    ys: u128,
    c: u128,
)
    requires
        a.has(xs),
        b.has(ys),
        acc.has(c),
    ensures
        wide_mul_acc(a, b, acc).has(word128(c + xs * ys - a.value * b.value)),
    decreases a.value + a.mask,
{
    let m: int = 0x1_0000_0000_0000_0000_0000_0000_0000_0000int;
    lemma_wide_serial_bits(a.value, a.mask, b.value, b.mask, xs, ys);
    lemma_wide_halve(a.value, a.mask);
    if a.value == 0 && a.mask == 0 {
        lemma_wide_halve(xs, 0);
        assert(xs == 0) by {
            lemma_wide_serial_bits(0, 0, 0, 0, xs, 0);
            lemma_wide_zero(xs);
        }
        assert(c + xs * ys - a.value * b.value == c) by (nonlinear_arith)
            requires
                xs == 0,
                a.value == 0,
        ;
        vstd::arithmetic::div_mod::lemma_small_mod(c as nat, m as nat);
    } else {
        let a1 = TnumU128 { value: a.value.wrapping_shr(1), mask: a.mask.wrapping_shr(1) };
        let b1 = TnumU128 { value: b.value.wrapping_shl(1), mask: b.mask.wrapping_shl(1) };
        let xs1 = xs >> 1;
        let ys1 = ys << 1;
        let t: u128 = if a.value & 1 != 0 {
            ys ^ b.value
        } else if a.mask & 1 != 0 {
            if xs & 1 == 1 {
                ys
            } else {
                0
            }
        } else {
            0
        };
        let next = if a.value & 1 != 0 {
            wide_sum(acc, TnumU128 { value: 0, mask: b.mask })
        } else if a.mask & 1 != 0 {
            wide_sum(acc, TnumU128 { value: 0, mask: b.value | b.mask })
        } else {
            acc
        };
        let c1: u128 = if a.value & 1 != 0 || a.mask & 1 != 0 {
            c.wrapping_add(t)
        } else {
            c
        };
        if a.value & 1 != 0 {
            lemma_wide_sum_sound(acc, TnumU128 { value: 0, mask: b.mask }, c, t);
        } else if a.mask & 1 != 0 {
            lemma_wide_sum_sound(acc, TnumU128 { value: 0, mask: b.value | b.mask }, c, t);
        }
        assert(next.has(c1));
        assert(t == (xs & 1) * ys - (a.value & 1) * b.value) by (nonlinear_arith)
            requires
                a.value & 1 != 0 ==> xs & 1 == 1 && a.value & 1 == 1 && t == ys - b.value,
                a.value & 1 == 0 || a.value & 1 == 1,
                a.value & 1 == 0 && a.mask & 1 != 0 ==> t == (if xs & 1 == 1 { ys } else { 0 }),
                a.value & 1 == 0 && a.mask & 1 == 0 ==> xs & 1 == 0 && t == 0,
                xs & 1 == 0 || xs & 1 == 1,
        ;
        lemma_wide_acc_sound(a1, b1, next, xs1, ys1, c1);
        let k1: int = if a.value & 1 != 0 || a.mask & 1 != 0 {
            (c + t - c1) / m
        } else {
            0
        };
        let p = c + xs * ys - a.value * b.value;
        let q = c1 + xs1 * ys1 - a1.value * b1.value;
        let av1: int = (a.value >> 1) as int;
        let h1: int = (ys >> 127) as int;
        let h2: int = (b.value >> 127) as int;
        let xb: int = (xs & 1) as int;
        let ab: int = (a.value & 1) as int;
        assert(xs1 * ys1 == 2 * xs1 * ys - xs1 * h1 * m) by (nonlinear_arith)
            requires
                ys1 + h1 * m == 2 * ys,
        ;
        assert(av1 * b1.value == 2 * av1 * b.value - av1 * h2 * m) by (nonlinear_arith)
            requires
                b1.value + h2 * m == 2 * b.value,
        ;
        assert(xs * ys == 2 * xs1 * ys + xb * ys) by (nonlinear_arith)
            requires
                xs == 2 * xs1 + xb,
        ;
        assert(a.value * b.value == 2 * av1 * b.value + ab * b.value) by (nonlinear_arith)
            requires
                a.value == 2 * av1 + ab,
        ;
        let kk = av1 * h2 - xs1 * h1 - k1;
        assert(m * kk == av1 * h2 * m - xs1 * h1 * m - k1 * m) by (nonlinear_arith)
            requires
                kk == av1 * h2 - xs1 * h1 - k1,
        ;
        assert(q == m * kk + p);
        vstd::arithmetic::div_mod::lemma_mod_multiples_vanish(kk, p, m);
    }
}

proof fn lemma_wide_zero(x: u128)
    by (bit_vector)
    ensures
        (x ^ 0) & !0u128 == 0 ==> x == 0,
        0u128 & 0u128 == 0,
{
}

/// The wide bit-serial product holds the wrapping product of held words.
pub proof fn lemma_wide_product_sound(a: TnumU128, b: TnumU128, x: u128, y: u128)
    requires
        a.has(x),
        b.has(y),
    ensures
        wide_product(a, b).has(x.wrapping_mul(y)),
{
    let m: int = 0x1_0000_0000_0000_0000_0000_0000_0000_0000int;
    lemma_wide_zero(0);
    let zero = TnumU128 { value: 0, mask: 0 };
    lemma_wide_known(0);
    assert(zero.has(0));
    lemma_wide_acc_sound(a, b, zero, x, y, 0);
    let acc = wide_mul_acc(a, b, zero);
    let u = word128(0 + x * y - a.value * b.value);
    let w = a.value.wrapping_mul(b.value);
    let known = TnumU128 { value: w, mask: 0 };
    lemma_wide_known(w);
    assert(known.has(w));
    lemma_wide_sum_sound(known, acc, w, u);
    vstd::arithmetic::div_mod::lemma_add_mod_noop(a.value * b.value, x * y - a.value * b.value, m);
    vstd::arithmetic::div_mod::lemma_mod_pos_bound(a.value * b.value, m);
    vstd::arithmetic::div_mod::lemma_mod_pos_bound(x * y, m);
    assert(w.wrapping_add(u) == x.wrapping_mul(y));
}

pub proof fn lemma_wide_known(w: u128)
    by (bit_vector)
    ensures
        w & 0u128 == 0 && (w ^ w) & !0u128 == 0,
{
}

} // verus!
