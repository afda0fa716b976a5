//! Shifts by an amount that is itself a tnum.
use vstd::prelude::*;
use vstd::std_specs::bits::{u64_leading_zeros, u64_trailing_zeros};

use crate::bits::{high_cleared, low_cleared, BitOps, ALL_ONES};
use crate::lattice::has_bits;
use crate::tnum::{lemma_word_constants, Tnum};

verus! {

/// The joins of the left shifts of `t` by the amounts in `i..=hi` that the
/// amount tnum `x` holds, as the variable left shift scans them: `top` once
/// more than eight have been joined or the join reaches `top`.
pub open spec fn shl_scan(t: Tnum, x: Tnum, i: int, hi: int, acc: Tnum, count: int) -> Tnum
    decreases hi + 1 - i,
{
    if i > hi || i < 0 || i > 64 {
        if acc.spec_is_bottom() {
            Tnum::spec_top()
        } else {
            acc
        }
    } else if x.value != !x.mask & (i as u64) {
        shl_scan(t, x, i + 1, hi, acc, count)
    } else {
        let next = acc.spec_or(t.spec_shl_const(i as u64));
        if count + 1 > 8 || next.spec_is_top() {
            Tnum::spec_top()
        } else {
            shl_scan(t, x, i + 1, hi, next, count + 1)
        }
    }
}

/// The joins of the logical right shifts of `t` by `i..=hi`, stopping at the
/// first join that is `top`.
pub open spec fn lshr_scan(t: Tnum, i: int, hi: int, acc: Tnum) -> Tnum
    decreases hi + 1 - i,
{
    if i > hi || i < 0 || i > 64 {
        acc
    } else {
        let next = acc.spec_or(t.spec_lshr_const(i as u64));
        if next.spec_is_top() {
            next
        } else {
            lshr_scan(t, i + 1, hi, next)
        }
    }
}

impl Tnum {
    /// The largest amount that a variable shift considers: `x.value + x.mask`
    /// (wrapping), at most 64.
    pub open spec fn max_shift(x: Tnum) -> u64 {
        let m = x.value.wrapping_add(x.mask);
        if m > 64 {
            64
        } else {
            m
        }
    }

    pub open spec fn spec_shl(self, x: Tnum) -> Tnum {
        if self.spec_is_bottom() || x.spec_is_bottom() {
            Tnum::spec_bottom()
        } else if self.spec_is_top() || x.spec_is_top() {
            Tnum::spec_top()
        } else if x.mask == 0 {
            self.spec_shl_const(x.value)
        } else if self.mask == ALL_ONES {
            Tnum {
                value: 0u64.wrapping_shl(x.value as u32),
                mask: ALL_ONES.wrapping_shl(x.value as u32),
            }
        } else if x.value == 0 && Tnum::max_shift(x) == 64 {
            Tnum {
                value: low_cleared(0, u64_trailing_zeros(self.value.wrapping_add(self.mask))),
                mask: low_cleared(
                    ALL_ONES,
                    u64_trailing_zeros(self.value.wrapping_add(self.mask)),
                ),
            }
        } else {
            shl_scan(self, x, x.value as int, Tnum::max_shift(x) as int, Tnum::spec_bottom(), 0)
        }
    }

    pub open spec fn spec_lshr(self, x: Tnum) -> Tnum {
        let len = u64_leading_zeros(self.value | self.mask);
        if self.spec_is_bottom() || x.spec_is_bottom() {
            Tnum::spec_bottom()
        } else if self.spec_is_top() || x.spec_is_top() {
            Tnum::spec_top()
        } else if x.mask == 0 {
            self.spec_lshr_const(x.value)
        } else if len + x.value >= 64 {
            Tnum::spec_const(0)
        } else {
            let cap = (len + x.value) as u32;
            let max_res = Tnum { value: high_cleared(0, cap), mask: high_cleared(ALL_ONES, cap) };
            let s = lshr_scan(self, x.value as int, Tnum::max_shift(x) as int, Tnum::spec_bottom());
            if s.spec_is_top() || s.spec_is_bottom() {
                max_res
            } else {
                s
            }
        }
    }

    /// Left shift by an amount that is itself a tnum: the constant shift when
    /// the amount is known, else a join over the amounts that `x` holds in
    /// range, `top` when that costs more than eight joins.
    pub fn shl(&self, x: &Tnum) -> (r: Tnum)
        ensures
            r == self.spec_shl(*x),
            self.valid() && x.valid() ==> r.valid(),
            self.spec_is_bottom() || x.spec_is_bottom() ==> r == Tnum::spec_bottom(),
            forall|w: u64, s: u64|
                self.has(w) && x.has(s) && s < 64 ==> #[trigger] r.has(w << s),
    {
        proof {
            lemma_word_constants();
        }
        if self.is_bottom() || x.is_bottom() {
            return Tnum::bottom();
        } else if self.is_top() || x.is_top() {
            return Tnum::top();
        }
        if x.is_singleton() {
            let r = self.shl_const(x.value);
            proof {
                assert forall|w: u64, s: u64| self.has(w) && x.has(s) && s < 64 implies #[trigger] r.has(
                    w << s,
                ) by {
                    lemma_amount_bits(self.value, self.mask, x.value, x.mask, w, s, 0);
                    assert(s == x.value);
                }
            }
            return r;
        }
        let mut res = Tnum::top();
        let min_shift_amount = x.value;
        proof {
            lemma_amount_bits(self.value, self.mask, x.value, x.mask, 0, 0, 0);
        }
        if self.mask == ALL_ONES {
            res.value = res.value.wrapping_shl(min_shift_amount as u32);
            res.mask = res.mask.wrapping_shl(min_shift_amount as u32);
            return res;
        }
        let max_value = x.value.wrapping_add(x.mask);
        let max_shift_amount = if max_value > 64 {
            64
        } else {
            max_value
        };
        if min_shift_amount == 0 && max_shift_amount == 64 {
            let min_trailing_zeros = self.count_min_trailing_zeros();
            res.value.clear_low_bits(min_trailing_zeros);
            res.mask.clear_low_bits(min_trailing_zeros);
            proof {
                vstd::std_specs::bits::axiom_u64_trailing_zeros(
                    self.value.wrapping_add(self.mask),
                );
                assert forall|w: u64, s: u64| self.has(w) && x.has(s) && s < 64 implies #[trigger] res.has(
                    w << s,
                ) by {
                    lemma_amount_bits(
                        self.value,
                        self.mask,
                        x.value,
                        x.mask,
                        w,
                        s,
                        min_trailing_zeros,
                    );
                }
            }
            return res;
        }
        res = Tnum::bottom();
        proof {
            assert forall|s: u64| #[trigger] x.has(s) implies min_shift_amount <= s && (s < 64
                ==> s <= max_shift_amount) by {
                lemma_amount_bits(self.value, self.mask, x.value, x.mask, 0, s, 0);
            }
        }
        let mut join_count: u64 = 0;
        let mut i = min_shift_amount;
        while i <= max_shift_amount
            invariant
                !self.spec_is_bottom() && !self.spec_is_top(),
                !x.spec_is_bottom() && !x.spec_is_top(),
                x.mask != 0,
                self.mask != ALL_ONES,
                min_shift_amount == x.value,
                !(min_shift_amount == 0 && max_shift_amount == 64),
                max_shift_amount == Tnum::max_shift(*x),
                max_shift_amount <= 64,
                min_shift_amount <= i <= max_shift_amount + 1 || i == min_shift_amount,
                join_count <= 8,
                self.valid() ==> res.valid(),
                forall|w: u64, s: u64|
                    self.has(w) && x.has(s) && s < 64 && s < i ==> #[trigger] res.has(w << s),
                forall|s: u64| #[trigger] x.has(s) ==> min_shift_amount <= s,
                forall|s: u64| #[trigger] x.has(s) && s < 64 ==> s <= max_shift_amount,
                shl_scan(*self, *x, min_shift_amount as int, max_shift_amount as int,
                    Tnum::spec_bottom(), 0) == shl_scan(*self, *x, i as int,
                    max_shift_amount as int, res, join_count as int),
            decreases max_shift_amount + 1 - i,
        {
            proof {
                lemma_amount_bits(self.value, self.mask, x.value, x.mask, 0, i, 0);
            }
            if x.value == ((!x.mask) & i) {
                let ghost prev = res;
                let ghost count = join_count;
                join_count += 1;
                let tmp = self.shl_const(i);
                res = res.or(&tmp);
                proof {
                    assert(res == prev.spec_or(self.spec_shl_const(i as u64)));
                    assert forall|w: u64, s: u64|
                        self.has(w) && x.has(s) && s < 64 && s < i + 1 implies #[trigger] res.has(
                        w << s,
                    ) by {
                        if s == i {
                            assert(tmp.has(w << (i % 64)));
                        } else {
                            assert(prev.has(w << s));
                        }
                    }
                }
                if join_count > 8 || res.is_top() {
                    proof {
                        assert(shl_scan(*self, *x, i as int, max_shift_amount as int, prev,
                            count as int) == Tnum::spec_top());
                    }
                    return Tnum::top();
                }
            }
            i += 1;
        }
        if res.is_bottom() {
            Tnum::top()
        } else {
            res
        }
    }

    /// Logical right shift by an amount that is itself a tnum: the constant
    /// shift when the amount is known, else the join over the amounts in
    /// range, bounded by the leading zeros of `value | mask` and the least
    /// amount.
    pub fn lshr(&self, x: &Tnum) -> (r: Tnum)
        ensures
            r == self.spec_lshr(*x),
            self.valid() && x.valid() ==> r.valid(),
            self.spec_is_bottom() || x.spec_is_bottom() ==> r == Tnum::spec_bottom(),
            forall|w: u64, s: u64|
                self.has(w) && x.has(s) && s < 64 ==> #[trigger] r.has(w >> s),
    {
        proof {
            lemma_word_constants();
        }
        if self.is_bottom() || x.is_bottom() {
            return Tnum::bottom();
        } else if self.is_top() || x.is_top() {
            return Tnum::top();
        }
        if x.is_singleton() {
            let r = self.lshr_const(x.value);
            proof {
                assert forall|w: u64, s: u64| self.has(w) && x.has(s) && s < 64 implies #[trigger] r.has(
                    w >> s,
                ) by {
                    lemma_amount_bits(self.value, self.mask, x.value, x.mask, w, s, 0);
                    lemma_rshift_bits(self.value, self.mask, w, s, 0, 0);
                    assert(s == x.value);
                }
            }
            return r;
        }
        let min_shift_amount = x.value;
        let len = (self.value | self.mask).leading_zeros() as u64;
        proof {
            vstd::std_specs::bits::axiom_u64_leading_zeros(self.value | self.mask);
            assert forall|w: u64, s: u64| self.has(w) && x.has(s) && s < 64 implies x.value <= s
                && (len + x.value >= 64 ==> w >> s == 0) && (len + x.value < 64 ==> (Tnum {
                value: high_cleared(0, (len + x.value) as u32),
                mask: high_cleared(ALL_ONES, (len + x.value) as u32),
            }).has(w >> s)) by {
                lemma_amount_bits(self.value, self.mask, x.value, x.mask, w, s, 0);
                lemma_rshift_bits(self.value, self.mask, w, s, x.value, len);
            }
        }
        let max_value = x.value.wrapping_add(x.mask);
        let max_shift_amount = if max_value > 64 {
            64
        } else {
            max_value
        };
        if x.value >= 64 || len + x.value >= 64 {
            return Tnum::new(0, 0);
        }
        let mut max_res = Tnum::top();
        max_res.clear_high_bits((len + x.value) as u32);
        let mut res = Tnum::bottom();
        proof {
            lemma_amount_bits(self.value, self.mask, x.value, x.mask, 0, 0, 0);
            assert forall|s: u64| #[trigger] x.has(s) && s < 64 implies s <= max_shift_amount by {
                lemma_amount_bits(self.value, self.mask, x.value, x.mask, 0, s, 0);
            }
        }
        let mut i = min_shift_amount;
        while i <= max_shift_amount
            invariant
                !self.spec_is_bottom() && !self.spec_is_top(),
                !x.spec_is_bottom() && !x.spec_is_top(),
                x.mask != 0,
                min_shift_amount == x.value,
                len as int == u64_leading_zeros(self.value | self.mask),
                len + x.value < 64,
                max_res == (Tnum {
                    value: high_cleared(0, (len + x.value) as u32),
                    mask: high_cleared(ALL_ONES, (len + x.value) as u32),
                }),
                max_res.valid(),
                max_shift_amount == Tnum::max_shift(*x),
                max_shift_amount <= 64,
                min_shift_amount <= i <= max_shift_amount + 1 || i == min_shift_amount,
                !res.spec_is_top(),
                self.valid() ==> res.valid(),
                forall|w: u64, s: u64|
                    self.has(w) && x.has(s) && s < 64 ==> #[trigger] max_res.has(w >> s),
                forall|s: u64| #[trigger] x.has(s) && s < 64 ==> s <= max_shift_amount,
                forall|w: u64, s: u64|
                    self.has(w) && x.has(s) && s < 64 && s < i ==> #[trigger] res.has(w >> s),
                lshr_scan(*self, min_shift_amount as int, max_shift_amount as int,
                    Tnum::spec_bottom()) == lshr_scan(*self, i as int, max_shift_amount as int,
                    res),
            decreases max_shift_amount + 1 - i,
        {
            let ghost prev = res;
            let tmp = self.lshr_const(i);
            res = res.or(&tmp);
            proof {
                assert forall|w: u64, s: u64|
                    self.has(w) && x.has(s) && s < 64 && s < i + 1 implies #[trigger] res.has(
                    w >> s,
                ) by {
                    if s == i {
                        lemma_rshift_bits(self.value, self.mask, w, s, 0, 0);
                        assert(tmp.has(w.wrapping_shr(i as u32)));
                    } else {
                        assert(prev.has(w >> s));
                    }
                }
            }
            if res.is_top() {
                proof {
                    assert(lshr_scan(*self, i as int, max_shift_amount as int, prev) == res);
                }
                return max_res;
            }
            i += 1;
        }
        if res.is_bottom() {
            max_res
        } else {
            res
        }
    }
}

proof fn lemma_rshift_bits(v: u64, m: u64, w: u64, s: u64, xv: u64, len: u64)
    by (bit_vector)
    ensures
        s < 64 ==> w.wrapping_shr(s as u32) == w >> s,
        v & m == 0 && (w ^ v) & !m == 0 && len <= 64 && (v | m) >> ((64 - len) as u64) == 0 && xv
            <= s && s < 64 ==> (len + xv >= 64 ==> w >> s == 0) && (len + xv < 64 ==> has_bits(
            high_cleared(0, (len + xv) as u32),
            high_cleared(0xFFFF_FFFF_FFFF_FFFFu64, (len + xv) as u32),
            w >> s,
        )),
{
}

proof fn lemma_amount_bits(v: u64, m: u64, xv: u64, xm: u64, w: u64, s: u64, t: u32)
    by (bit_vector)
    ensures
        xv & xm == 0 ==> (((s ^ xv) & !xm == 0) == (xv == !xm & s)),
        xv & xm == 0 && (s ^ xv) & !xm == 0 ==> xv <= s && s <= xv | xm,
        xv & xm == 0 ==> xv.wrapping_add(xm) == xv | xm,
        v & m == 0 && m == 0xFFFF_FFFF_FFFF_FFFFu64 ==> v == 0,
        xm == 0 && (s ^ xv) & !xm == 0 ==> s == xv,
        s < 64 ==> w << (s % 64) == w << s,
        v & m == 0 && (w ^ v) & !m == 0 && s < 64 && t <= 64 && v.wrapping_add(m) << ((64
            - t) as u64) == 0 ==> has_bits(
            low_cleared(0, t),
            low_cleared(0xFFFF_FFFF_FFFF_FFFFu64, t),
            w << s,
        ),
{
}

} // verus!
