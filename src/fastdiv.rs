//! Division by a known word through a reciprocal multiplication, lifted to
//! tnums.
use vstd::prelude::*;

use crate::shift::lemma_shift_bits;
use crate::tnum::{lemma_word_constants, Tnum};
use crate::wide::{lemma_wide_high_half, wide_product, TnumU128};

verus! {

/// How a division by a fixed nonzero word is carried out.
#[derive(Debug, Clone, Copy, PartialEq, Eq, Structural)]
pub enum DivStrategy {
    /// `n / d` computed as `((n * magic) >> 64) >> shift`, the high half of
    /// the full 64-by-64-bit product (the form the generator's own division
    /// uses, and the one taken here).
    Fast { magic: u64, shift: u8 },
    /// `d == 1 << shift`: `n / d` computed as `n >> shift`.
    BitShift(u8),
    /// `n / d` computed as `(((n - q) >> 1) + q) >> shift` with
    /// `q = (n * magic_low) >> 64`.
    General { magic_low: u64, shift: u8 },
}

impl DivStrategy {
    /// Every shift amount stays inside the word.
    pub open spec fn in_range(self) -> bool {
        match self {
            DivStrategy::Fast { shift, .. } => shift < 64,
            DivStrategy::BitShift(shift) => shift < 64,
            DivStrategy::General { shift, .. } => shift < 64,
        }
    }
}

/// The high 64 bits of the 128-bit product of two words.
pub open spec fn mul_high(x: u64, y: u64) -> u64 {
    ((((x as u128) * (y as u128)) as u128) >> 64u128) as u64
}

/// The quotient that `strategy` computes for the dividend `n`, as the
/// reciprocal-constant generator's own division does it. The Fast path takes
/// the high half of the 64-bit-by-64-bit product; that is the form used here.
pub open spec fn strategy_quotient(strategy: DivStrategy, n: u64) -> u64 {
    match strategy {
        DivStrategy::Fast { magic, shift } => mul_high(magic, n) >> shift,
        DivStrategy::BitShift(shift) => n >> shift,
        DivStrategy::General { magic_low, shift } => {
            let q = mul_high(magic_low, n);
            (n.wrapping_sub(q) >> 1u8).wrapping_add(q) >> shift
        },
    }
}

/// The strategy that the reciprocal-constant generator picks for `divisor`.
pub uninterp spec fn divider_of(divisor: u64) -> DivStrategy;

/// Relies on `fastdivide::DividerU64::divide_by` (which panics on zero) for
/// the strategy: it depends on the divisor alone, it is
/// `BitShift(floor_log2(d))` exactly for powers of two, every shift it picks
/// is `floor_log2(d)`, below 64, and its formula (`DividerU64::divide`)
/// gives the exact quotient for every dividend.
#[verifier::external_body]
fn divider_for(divisor: u64) -> (r: DivStrategy)
    requires
        divisor > 0,
    ensures
        r == divider_of(divisor),
        r.in_range(),
        (r is BitShift) == (divisor & (divisor - 1) as u64 == 0),
        r is BitShift ==> divisor == 1u64 << r->BitShift_0,
        forall|n: u64| #[trigger] strategy_quotient(r, n) == n / divisor,
{
    match fastdivide::DividerU64::divide_by(divisor) {
        fastdivide::DividerU64::Fast { magic, shift } => DivStrategy::Fast { magic, shift },
        fastdivide::DividerU64::BitShift(shift) => DivStrategy::BitShift(shift),
        fastdivide::DividerU64::General { magic_low, shift } => DivStrategy::General {
            magic_low,
            shift,
        },
    }
}

impl Tnum {
    /// The high 64 bits of the wide product of `self` by the known word `c`.
    pub open spec fn spec_mul_high_word(self, c: u64) -> Tnum {
        let t = wide_product(
            TnumU128 { value: self.value as u128, mask: self.mask as u128 },
            TnumU128 { value: c as u128, mask: 0 },
        );
        Tnum { value: (t.value >> 64) as u64, mask: (t.mask >> 64) as u64 }
    }

    pub open spec fn spec_divide_with(self, strategy: DivStrategy) -> Tnum {
        match strategy {
            DivStrategy::Fast { magic, shift } => {
                let q = self.spec_mul_high_word(magic);
                Tnum { value: q.value >> shift, mask: q.mask >> shift }
            },
            DivStrategy::BitShift(shift) => self.spec_rshift(shift),
            DivStrategy::General { magic_low, shift } => {
                let q = self.spec_mul_high_word(magic_low);
                self.spec_sub(q).spec_rshift(1).spec_add(q).spec_rshift(shift)
            },
        }
    }

    pub open spec fn spec_fast_divide(self, other: Tnum) -> Tnum {
        if self.spec_is_bottom() || other.spec_is_bottom() {
            Tnum::spec_bottom()
        } else if other.mask == 0 && other.value == 0 {
            Tnum::spec_top()
        } else if other.mask == 0 && other.value == 1 {
            self
        } else if other.mask == 0 {
            self.spec_divide_with(divider_of(other.value))
        } else {
            self.spec_sdiv(other)
        }
    }

    fn mul_high_word(&self, c: u64) -> (r: Tnum)
        ensures
            r == self.spec_mul_high_word(c),
            r.wf(),
            forall|n: u64| self.has(n) ==> #[trigger] r.has(mul_high(c, n)),
    {
        let wide = TnumU128::new(self.value as u128, self.mask as u128);
        let known = TnumU128::new(c as u128, 0);
        let temp = wide.mul(known);
        proof {
            lemma_wide_high_half(temp);
            crate::wide::lemma_wide_known(c as u128);
            assert forall|n: u64| self.has(n) implies #[trigger] (Tnum {
                value: (temp.value >> 64) as u64,
                mask: (temp.mask >> 64) as u64,
            }).has(mul_high(c, n)) by {
                lemma_fast_bits(self.value, self.mask, n, 0, 0, 0, 0, 0);
                assert(wide.has(n as u128));
                assert(known.has(c as u128));
                let p = (n as u128).wrapping_mul(c as u128);
                assert((n as int) * (c as int) < 0x1_0000_0000_0000_0000_0000_0000_0000_0000int)
                    by (nonlinear_arith)
                    requires
                        n < 0x1_0000_0000_0000_0000int,
                        c < 0x1_0000_0000_0000_0000int,
                        0 <= n,
                        0 <= c,
                ;
                vstd::arithmetic::div_mod::lemma_small_mod(
                    (n as nat) * (c as nat),
                    0x1_0000_0000_0000_0000_0000_0000_0000_0000nat,
                );
                assert(p as int == (c as int) * (n as int)) by (nonlinear_arith)
                    requires
                        p as int == (n as int) * (c as int),
                ;
                assert(p == ((c as u128) * (n as u128)) as u128);
                assert(temp.has(p));
                lemma_fast_bits(0, 0, 0, temp.value, temp.mask, p, 0, 0);
            }
        }
        Tnum::new((temp.value >> 64) as u64, (temp.mask >> 64) as u64)
    }

    /// Runs the scalar division formula of `strategy` with the tnum
    /// operations, the multiplication at double width.
    pub fn divide_with(&self, strategy: DivStrategy) -> (r: Tnum)
        requires
            strategy.in_range(),
        ensures
            r == self.spec_divide_with(strategy),
            self.wf() ==> r.wf(),
            forall|n: u64| self.has(n) ==> #[trigger] r.has(strategy_quotient(strategy, n)),
    {
        match strategy {
            DivStrategy::Fast { magic, shift } => {
                let q = self.mul_high_word(magic);
                proof {
                    lemma_fast_bits(q.value, q.mask, 0, 0, 0, 0, 0, shift);
                    assert forall|n: u64| self.has(n) implies #[trigger] (Tnum {
                        value: q.value >> shift,
                        mask: q.mask >> shift,
                    }).has(strategy_quotient(strategy, n)) by {
                        assert(q.has(mul_high(magic, n)));
                        lemma_fast_bits(q.value, q.mask, 0, 0, 0, 0, mul_high(magic, n), shift);
                    }
                }
                Tnum::new(q.value >> shift, q.mask >> shift)
            },
            DivStrategy::BitShift(shift) => {
                let r = self.tnum_rshift(shift);
                proof {
                    assert forall|n: u64| self.has(n) implies #[trigger] r.has(
                        strategy_quotient(strategy, n),
                    ) by {
                        lemma_fast_bits(0, 0, 0, 0, 0, 0, n, shift);
                    }
                }
                r
            },
            DivStrategy::General { magic_low, shift } => {
                let q = self.mul_high_word(magic_low);
                let d = self.sub(q);
                let h = d.tnum_rshift(1);
                let res = h.add(q);
                let r = res.tnum_rshift(shift);
                proof {
                    assert forall|n: u64| self.has(n) implies #[trigger] r.has(
                        strategy_quotient(strategy, n),
                    ) by {
                        let qn = mul_high(magic_low, n);
                        assert(q.has(qn));
                        assert(d.has(n.wrapping_sub(qn)));
                        let dn = n.wrapping_sub(qn);
                        lemma_fast_bits(0, 0, 0, 0, 0, 0, dn, 1);
                        assert(h.has(dn >> 1u8));
                        assert(res.has((dn >> 1u8).wrapping_add(qn)));
                        lemma_fast_bits(0, 0, 0, 0, 0, 0, (dn >> 1u8).wrapping_add(qn), shift);
                    }
                }
                r
            },
        }
    }

    /// Division by a divisor tnum: `bottom` when either operand holds no
    /// word, `top` for the known divisor 0, `self` for 1, the reciprocal
    /// strategy for any other known divisor, and `sdiv` when the divisor is
    /// not known.
    pub fn fast_divide(&self, other: Self) -> (r: Self)
        ensures
            r == self.spec_fast_divide(other),
            r.valid(),
            self.spec_is_bottom() || other.spec_is_bottom() ==> r == Tnum::spec_bottom(),
            other.mask == 0 && other.value != 0 ==> forall|x: u64|
                self.has(x) ==> #[trigger] r.has(x / other.value),
    {
        proof {
            lemma_word_constants();
        }
        if self.is_bottom() || other.is_bottom() {
            return Tnum::bottom();
        }
        if other.mask == 0 && other.value == 0 {
            return Tnum::top();
        } else if other.mask == 0 && other.value == 1 {
            return *self;
        } else if other.mask == 0 {
            let strategy = divider_for(other.value);
            let r = self.divide_with(strategy);
            proof {
                assert forall|x: u64| self.has(x) implies #[trigger] r.has(x / other.value) by {
                    assert(r.has(strategy_quotient(strategy, x)));
                }
            }
            return r;
        }
        self.sdiv(other)
    }
}

proof fn lemma_fast_bits(v: u64, m: u64, n: u64, tv: u128, tm: u128, p: u128, x: u64, s: u8)
    by (bit_vector)
    ensures
        v & m == 0 && (n ^ v) & !m == 0 ==> (v as u128) & (m as u128) == 0 && ((n as u128) ^ (
        v as u128)) & !(m as u128) == 0,
        tv & tm == 0 && (p ^ tv) & !tm == 0 ==> ((tv >> 64u128) as u64) & ((tm >> 64u128) as u64)
            == 0 && (((p >> 64u128) as u64) ^ ((tv >> 64u128) as u64)) & !((tm >> 64u128) as u64)
            == 0,
        s < 64 ==> x.wrapping_shr(s as u32) == x >> s,
        s < 64 && v & m == 0 ==> (v >> s) & (m >> s) == 0,
        s < 64 && v & m == 0 && (x ^ v) & !m == 0 ==> ((x >> s) ^ (v >> s)) & !(m >> s) == 0,
{
}

} // verus!
