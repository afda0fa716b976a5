use tnum::{BitOps, Tnum, TnumU128};

fn holds(t: Tnum, w: u64) -> bool {
    t.contains(Tnum::const_val(w))
}

fn samples() -> Vec<Tnum> {
    let mut out = Vec::new();
    for v in 0u64..16 {
        for m in 0u64..16 {
            if v & m == 0 {
                out.push(Tnum::new(v, m));
            }
        }
    }
    out.push(Tnum::new(u64::MAX - 3, 2));
    out.push(Tnum::new(1 << 63, 5));
    out.push(Tnum::new(0, 1 << 63));
    out
}

fn members(t: Tnum) -> Vec<u64> {
    let mut out = Vec::new();
    let mut sub = t.mask();
    loop {
        out.push(t.value() | sub);
        if sub == 0 {
            break;
        }
        sub = (sub - 1) & t.mask();
    }
    out
}

#[test]
fn results_are_well_formed() {
    for a in samples() {
        for b in samples() {
            for r in [a.add(b), a.sub(b), a.xor(b), a.mul(b), a.join(b), a.or(&b), a.and(&b),
                a.intersect(b), a.udiv(b), a.urem(b), a.sdiv(b), a.mul_opt(b)]
            {
                assert!(r.value() & r.mask() == 0 || r == Tnum::bottom(), "{:?} {:?}", a, b);
            }
        }
        assert!(a.not().value() & a.not().mask() == 0);
    }
}

#[test]
fn arithmetic_is_sound_on_samples() {
    for a in samples() {
        for b in samples() {
            let (s, d, x, m) = (a.add(b), a.sub(b), a.xor(b), a.mul(b));
            let (j, o, n) = (a.join(b), a.or(&b), a.and(&b));
            for p in members(a) {
                assert!(holds(j, p) && holds(o, p));
                for q in members(b) {
                    assert!(holds(s, p.wrapping_add(q)), "add {:?} {:?}", a, b);
                    assert!(holds(d, p.wrapping_sub(q)), "sub {:?} {:?}", a, b);
                    assert!(holds(x, p ^ q), "xor {:?} {:?}", a, b);
                    assert!(holds(m, p.wrapping_mul(q)), "mul {:?} {:?}", a, b);
                    assert!(holds(a.mul_opt(b), p.wrapping_mul(q)), "mul_opt {:?} {:?}", a, b);
                    if p == q {
                        assert!(holds(n, p));
                    }
                    if q != 0 {
                        assert!(holds(a.udiv(b), p / q), "udiv {:?} {:?}", a, b);
                    }
                }
            }
        }
    }
}

#[test]
fn constant_shifts_are_sound_on_samples() {
    for a in samples() {
        for k in [0u64, 1, 3, 17, 63, 64, 65] {
            let l = a.shl_const(k);
            let r = a.lshr_const(k);
            let s = a.ashr_const(k);
            for p in members(a) {
                assert!(holds(l, p << (k % 64)));
                assert!(holds(r, p.wrapping_shr(k as u32)));
                assert!(holds(s, ((p as i64) >> (k % 64)) as u64));
            }
        }
        for p in members(a) {
            assert!(holds(a.not(), !p));
        }
    }
}

#[test]
fn order_laws_on_samples() {
    let all = samples();
    for a in &all {
        assert!(a.le(a));
        assert_eq!(a.join(*a), *a);
        for b in &all {
            if a.le(b) && b.le(a) {
                assert_eq!(a, b);
            }
            let j = a.join(*b);
            assert_eq!(j, b.join(*a));
            assert!(a.le(&j) && b.le(&j));
            for c in &all {
                if a.le(b) && b.le(c) {
                    assert!(a.le(c));
                }
                assert_eq!(j.join(*c), a.join(b.join(*c)));
                if a.le(c) && b.le(c) {
                    assert!(j.le(c));
                }
            }
        }
    }
}

#[test]
fn bottom_absorbs() {
    let bot = Tnum::bottom();
    for a in samples() {
        let odd = Tnum::new(1, 1);
        for r in [a.add(bot), bot.add(a), a.sub(bot), bot.sub(a), a.xor(bot), a.mul(bot),
            bot.mul(a), a.udiv(bot), a.urem(bot), a.sdiv(bot), bot.sdiv(a), a.srem(bot),
            a.signed_div(bot), bot.fast_divide(a), a.fast_divide(bot),
            bot.fast_divide(Tnum::const_val(3)), a.xtnum_mul_top(odd), odd.xtnum_mul_top(a),
            a.xtnum_mul_high_top(bot), bot.xtnum_mul_high_top(a)]
        {
            assert_eq!(r, bot);
        }
        assert!(a.shl(&bot).is_bottom() && bot.lshr(&a).is_bottom());
        assert!(a.and(&bot).is_bottom() && bot.mul_opt(a).is_bottom());
    }
    assert_eq!(bot.not(), bot);
}

#[test]
fn add_formula_values() {
    assert_eq!(Tnum::const_val(3).add(Tnum::const_val(5)), Tnum::const_val(8));
    assert_eq!(Tnum::new(0, 1).add(Tnum::const_val(1)), Tnum::new(0, 3));
    assert_eq!(Tnum::new(4, 1).sub(Tnum::const_val(1)), Tnum::new(0, 7));
    assert_eq!(Tnum::new(6, 1).xor(Tnum::new(3, 0)), Tnum::new(4, 1));
    assert_eq!(Tnum::new(6, 1).not(), Tnum::new(!7u64, 1));
    assert_eq!(Tnum::bottom().add(Tnum::const_val(0)), Tnum::bottom());
}

#[test]
fn lattice_values() {
    let a = Tnum::new(4, 1);
    let b = Tnum::new(6, 0);
    assert_eq!(a.join(b), Tnum::new(4, 3));
    assert_eq!(a.or(&b), Tnum::new(4, 3));
    assert_eq!(Tnum::new(4, 3).and(&Tnum::new(2, 5)), Tnum::new(6, 1));
    assert_eq!(Tnum::const_val(1).and(&Tnum::const_val(2)), Tnum::bottom());
    assert_eq!(Tnum::new(4, 3).intersect(Tnum::new(2, 5)), Tnum::new(6, 1));
    assert!(Tnum::new(4, 1).contains(Tnum::const_val(5)));
    assert!(!Tnum::const_val(5).contains(Tnum::new(4, 1)));
    assert!(Tnum::top().contains(Tnum::new(4, 1)));
    assert!(Tnum::bottom().le(&Tnum::const_val(0)));
    assert!(!Tnum::top().le(&Tnum::new(0, u64::MAX - 1)));
}

#[test]
fn range_covers_interval() {
    for (lo, hi) in [(0u64, 0u64), (3, 9), (100, 130), (1 << 40, (1 << 40) + 5), (0, u64::MAX)] {
        let t = Tnum::from_range(lo, hi);
        for w in [lo, hi, lo + (hi - lo) / 2] {
            assert!(holds(t, w));
        }
    }
    assert_eq!(Tnum::from_range(3, 9), Tnum::new(0, 15));
    assert_eq!(Tnum::from_range(0, u64::MAX), Tnum::top());
}

#[test]
fn predicates_and_counts() {
    let t = Tnum::new(0x10, 0x0F);
    assert!(!t.is_zero() && Tnum::const_val(0).is_zero());
    assert!(Tnum::bottom().is_bottom() && !t.is_bottom());
    assert!(Tnum::top().is_top() && !t.is_top());
    assert!(Tnum::const_val(9).is_singleton() && !t.is_singleton());
    assert!(t.is_nonnegative() && !t.is_negative());
    assert!(Tnum::new(1 << 63, 1).is_negative());
    assert_eq!(t.countl_zero(), 59);
    assert_eq!(t.countr_zero(), 4);
    assert_eq!(t.count_min_leading_zeros(), 59);
    assert_eq!(t.count_min_trailing_zeros(), 0);
    assert_eq!(t.count_max_leading_zeros(), 59);
    assert_eq!(t.count_max_trailing_zeros(), 4);
}

#[test]
fn clearing_bits() {
    let mut w = u64::MAX;
    w.clear_low_bits(4);
    assert_eq!(w, u64::MAX << 4);
    w.clear_high_bits(56);
    assert_eq!(w, 0xF0);
    let mut x = 0xFFu64;
    x.clear_high_bits(0);
    assert_eq!(x, 0xFF);
    x.clear_low_bits(64);
    assert_eq!(x, 0);
    let mut t = Tnum::new(1 << 62, 1 << 61);
    t.clear_high_bits(2);
    assert_eq!(t, Tnum::new(0, 1 << 61));
    t.clear_high_bits(64);
    assert_eq!(t, Tnum::const_val(0));
}

#[test]
fn shift_values() {
    let t = Tnum::new(0b100, 0b011);
    assert_eq!(t.tnum_lshift(2), Tnum::new(0b10000, 0b1100));
    assert_eq!(t.tnum_rshift(1), Tnum::new(0b10, 0b1));
    assert_eq!(Tnum::new(1 << 63, 1).tnum_arshift(4, 64), Tnum::new(0xF8 << 56, 0));
    assert_eq!(Tnum::new(0x8000_0000, 0).tnum_arshift(4, 32), Tnum::new(0xF800_0000, 0));
    assert_eq!(Tnum::new(1 << 63, 6).ashr_const(1), Tnum::new(0xC << 60, 3));
    assert_eq!(Tnum::new(0, 1 << 63).ashr_const(2), Tnum::new(0, 0xE << 60));
    assert_eq!(t.shl_const(66), t.shl_const(2));
    assert_eq!(Tnum::top().shl_const(3), Tnum::top());
}

#[test]
fn variable_shift_values() {
    assert_eq!(Tnum::const_val(3).shl(&Tnum::const_val(2)), Tnum::const_val(12));
    assert_eq!(Tnum::const_val(1).shl(&Tnum::new(0, 2)), Tnum::new(0, 5));
    assert_eq!(Tnum::new(0, 1).shl(&Tnum::new(0, 64)), Tnum::top());
    assert_eq!(Tnum::const_val(16).lshr(&Tnum::const_val(2)), Tnum::const_val(4));
    assert_eq!(Tnum::new(0, 1 << 63).lshr(&Tnum::new(0, 1)), Tnum::new(0, 0xC000_0000_0000_0000));
    assert!(Tnum::new(0, 0xFF).lshr(&Tnum::new(0, 1)).contains(Tnum::const_val(255)));
    assert_eq!(Tnum::const_val(16).lshr(&Tnum::new(0, 1)), Tnum::new(0, 24));
}

#[test]
fn remainder_values() {
    assert_eq!(Tnum::const_val(7).urem(Tnum::const_val(6)), Tnum::new(0, 7));
    assert_eq!(Tnum::const_val(7).urem(Tnum::const_val(0)), Tnum::top());
    assert_eq!(Tnum::const_val(8).urem(Tnum::const_val(12)), Tnum::new(0, 0xC));
    assert_eq!(Tnum::const_val(100).urem(Tnum::const_val(7)), Tnum::new(0, 7));
    assert_eq!(Tnum::new(0x35, 0x2).urem(Tnum::const_val(16)), Tnum::new(5, 2));
    assert_eq!(Tnum::const_val(7).srem(Tnum::const_val(3)), Tnum::const_val(1));
    assert_eq!(Tnum::const_val((-7i64) as u64).srem(Tnum::const_val(3)),
        Tnum::const_val((-1i64) as u64));
    assert_eq!(Tnum::new(0x20, 0xF).srem(Tnum::const_val(8)), Tnum::new(0, 7));
    assert_eq!(Tnum::new(8, 0x10).srem(Tnum::const_val(12)), Tnum::new(0, 0xC));
    assert!(holds(Tnum::new(0, 7).srem(Tnum::const_val(6)), 1));
    assert!(holds(Tnum::new(0xFFFF_FFFF_FFFF_FFF1, 8).srem(Tnum::const_val(4)), (-3i64) as u64));
    assert_eq!(Tnum::const_val(5).srem(Tnum::const_val(0)), Tnum::top());
    assert_eq!(tnum::rem_get_low_bits(&Tnum::new(0x20, 0xF), &Tnum::const_val(12)),
        Tnum::new(0, 3));
    assert_eq!(tnum::rem_get_low_bits(&Tnum::new(0x20, 0xC), &Tnum::const_val(12)),
        Tnum::new(0, 0));
    assert_eq!(tnum::rem_get_low_bits(&Tnum::const_val(0), &Tnum::const_val(4)),
        Tnum::const_val(0));
    assert_eq!(tnum::rem_get_low_bits(&Tnum::new(7, 0), &Tnum::const_val(6)), Tnum::const_val(0));
    let neg = Tnum::new(1 << 63, 1).srem(Tnum::const_val(4));
    assert_eq!((neg.value() & 2, neg.mask() & 2), (0, 0));
    assert_eq!(neg, Tnum::new(0, !2u64));
    assert!(holds(neg, 0) && holds(neg, (-3i64) as u64));
    assert_eq!(tnum::rem_get_low_bits(&Tnum::new(0x20, 0xF), &Tnum::const_val(3)), Tnum::top());
}

#[test]
fn division_values() {
    assert_eq!(Tnum::const_val(100).udiv(Tnum::const_val(7)), Tnum::new(0, 15));
    assert_eq!(Tnum::new(64, 3).udiv(Tnum::const_val(0)), Tnum::top());
    assert_eq!(Tnum::const_val(100).sdiv(Tnum::const_val(7)), Tnum::const_val(14));
    assert_eq!(Tnum::const_val(100).signed_div(Tnum::const_val(7)), Tnum::const_val(14));
    let neg = Tnum::new((-8i64) as u64, 1);
    let q = neg.signed_div(Tnum::const_val(2));
    assert!(holds(q, (-4i64) as u64) && holds(q, (-3i64) as u64));
    assert_eq!(Tnum::new(5, 1 << 63).get_zero_circle(), Tnum::new(5, 0));
    assert_eq!(Tnum::new(5, 1 << 63).get_one_circle(), Tnum::new(5 | 1 << 63, 0));
    assert!(Tnum::const_val(5).get_one_circle().is_bottom());
    assert!(Tnum::const_val(1 << 63).get_zero_circle().is_bottom());
    assert_eq!(Tnum::new((-16i64) as u64, 7).sdiv(Tnum::const_val(2)),
        Tnum::new(0xFFFF_FFFF_FFFF_FFF8, 7));
    assert_eq!(Tnum::const_val((-6i64) as u64).sdiv(Tnum::const_val(3)),
        Tnum::const_val((-2i64) as u64));
    assert_eq!(Tnum::const_val(9).signed_div(Tnum::const_val(0)), Tnum::top());
    let s = Tnum::new(4, 1).sdiv(Tnum::new(2, 1 << 63));
    for p in members(Tnum::new(4, 1)) {
        for q in members(Tnum::new(2, 1 << 63)) {
            assert!(holds(s, ((p as i64) / (q as i64)) as u64));
        }
    }
}

#[test]
fn multiplication_values() {
    let a = Tnum::new(2, 1);
    let b = Tnum::new(4, 0);
    assert_eq!(Tnum::const_val(4).mul_opt(Tnum::new(1, 2)), Tnum::new(4, 8));
    assert_eq!(Tnum::const_val(6).mul_opt(Tnum::const_val(7)), Tnum::const_val(42));
    for r in [a.mul(b), a.mul_opt(b), a.xtnum_mul_top(b), a.xtnum_mul_high_top(b)] {
        assert!(holds(r, 8) && holds(r, 12), "{:?}", r);
    }
    assert_eq!(Tnum::const_val(6).xtnum_mul_top(Tnum::const_val(7)), Tnum::const_val(42));
    let split = Tnum::const_val(1).xtnum_mul_top(Tnum::new(0, (1 << 63) | 1));
    assert!(holds(split, 1) && holds(split, 0) && holds(split, 1 << 63));
    assert_eq!(Tnum::const_val(6).xtnum_mul_high_top(Tnum::const_val(7)), Tnum::const_val(42));
    assert_eq!(Tnum::const_val(6).mul_rec(Tnum::const_val(7)), Tnum::const_val(42));
    assert_eq!(Tnum::new(2, 1).mul_rec(Tnum::const_val(1)), Tnum::new(2, 1));
    assert_eq!(Tnum::new(6, 1).mul_rec(Tnum::new(4, 2)), Tnum::const_val(1));
}

#[test]
fn wide_tnum_values() {
    let a = TnumU128::new(3, 0);
    let b = TnumU128::new(1 << 100, 1);
    let s = a.add(b);
    assert_eq!(s.value & s.mask, 0);
    assert_eq!(a.mul(TnumU128::new(5, 0)).value, 15);
    assert_eq!(TnumU128::new(u64::MAX as u128, 0).mul(TnumU128::new(u64::MAX as u128, 0)).value,
        (u64::MAX as u128) * (u64::MAX as u128));
    let m = TnumU128::new(2, 1).mul(TnumU128::new(3, 0));
    assert_eq!(m.value & m.mask, 0);
}

#[test]
fn subregister_views() {
    let t = Tnum::new(0x1234_5678_0000_00F0, 0x0F);
    assert_eq!(t.cast(4), Tnum::new(0xF0, 0x0F));
    assert_eq!(t.cast(0), Tnum::new(0, 0));
    assert_eq!(t.subreg(), Tnum::new(0xF0, 0x0F));
    assert_eq!(t.clear_subreg(), Tnum::new(0x1234_5678_0000_0000, 0));
    assert_eq!(t.with_const_subreg(7), Tnum::new(0, 0x1234_5678_0000_0007));
    assert_eq!(t.with_subreg(Tnum::new(0x1234_5678_0000_00F0, 0)), t.clear_subreg().or(&Tnum::const_val(0xF0)));
    assert!(Tnum::new(0xF, 0).is_aligned(8));
    assert!(!Tnum::new(0x8, 0).is_aligned(8));
}

#[test]
fn text_form() {
    let t = Tnum::new(0b10, 0b01);
    let s = t.to_sbin(65);
    assert_eq!(s.len(), 64);
    assert!(s.ends_with("1x"));
    assert!(s.starts_with("000"));
    assert_eq!(Tnum::top().to_sbin(5), "xxxx");
    assert_eq!(Tnum::const_val(1 << 63).to_sbin(3), "10");
    assert_eq!(t.to_sbin(1), "");
    assert_eq!(t.to_sbin(100).len(), 64);
}

#[test]
fn split_products_on_small_operands() {
    for va in 0u64..16 {
        for ma in 0u64..16 {
            if va & ma != 0 {
                continue;
            }
            for vb in 0u64..16 {
                for mb in 0u64..16 {
                    if vb & mb != 0 {
                        continue;
                    }
                    let a = Tnum::new(va, ma);
                    let b = Tnum::new(vb, mb);
                    let s = a.xtnum_mul_top(b);
                    for p in members(a) {
                        for q in members(b) {
                            assert!(holds(s, p.wrapping_mul(q)), "split {:?} {:?} {} {} -> {:?}", a, b, p, q, s);
                        }
                    }
                }
            }
        }
    }
}

#[test]
fn high_first_products_on_small_operands() {
    for va in 0u64..16 {
        for ma in 0u64..16 {
            if va & ma != 0 {
                continue;
            }
            for vb in 0u64..16 {
                for mb in 0u64..16 {
                    if vb & mb != 0 {
                        continue;
                    }
                    let a = Tnum::new(va, ma);
                    let b = Tnum::new(vb, mb);
                    let s = a.xtnum_mul_high_top(b);
                    for p in members(a) {
                        for q in members(b) {
                            assert!(holds(s, p.wrapping_mul(q)), "high {:?} {:?} {} {} -> {:?}", a, b, p, q, s);
                        }
                    }
                }
            }
        }
    }
}

#[test]
fn sdiv_by_positive_constants_on_small_operands() {
    for va in 0u64..16 {
        for ma in 0u64..16 {
            if va & ma != 0 {
                continue;
            }
            for vb in 1u64..16 {
                let a = Tnum::new(va, ma);
                let b = Tnum::const_val(vb);
                let s = a.sdiv(b);
                for p in members(a) {
                    assert!(holds(s, p / vb), "sdiv {:?} {:?} -> {:?}", a, b, s);
                }
            }
        }
    }
}

fn signed_samples() -> Vec<Tnum> {
    let mut out = Vec::new();
    for v in 0u64..8 {
        for m in 0u64..8 {
            if v & m == 0 {
                out.push(Tnum::new(v, m));
                out.push(Tnum::new(v | 0xFFFF_FFFF_FFFF_FFF8, m));
                out.push(Tnum::new(v, m | (1 << 63)));
            }
        }
    }
    out
}

#[test]
fn signed_division_and_remainder_on_samples() {
    let all = signed_samples();
    for a in &all {
        for b in &all {
            let (d, sd, r) = (a.sdiv(*b), a.signed_div(*b), a.srem(*b));
            for p in members(*a) {
                for q in members(*b) {
                    if q == 0 {
                        continue;
                    }
                    let quot = (p as i64).wrapping_div(q as i64) as u64;
                    let rem = (p as i64).wrapping_rem(q as i64) as u64;
                    assert!(holds(d, quot), "sdiv {:?} {:?} {} {}", a, b, p, q);
                    assert!(holds(sd, quot), "signed_div {:?} {:?} {} {}", a, b, p, q);
                    assert!(holds(r, rem), "srem {:?} {:?} {} {}", a, b, p, q);
                    assert!(holds(a.urem(*b), p % q), "urem {:?} {:?}", a, b);
                }
            }
        }
    }
}

#[test]
fn variable_shifts_on_samples() {
    for a in samples() {
        for x in [Tnum::new(0, 3), Tnum::new(1, 6), Tnum::new(4, 1), Tnum::new(0, 64), Tnum::new(60, 3)] {
            let l = a.shl(&x);
            let r = a.lshr(&x);
            for p in members(a) {
                for s in members(x) {
                    if s < 64 {
                        assert!(holds(l, p << s), "shl {:?} {:?}", a, x);
                        assert!(holds(r, p >> s), "lshr {:?} {:?}", a, x);
                    }
                }
            }
        }
    }
}
