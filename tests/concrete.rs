use tnum::{compare_fast_divide_with_sdiv, DivStrategy, Tnum};

fn holds(t: Tnum, w: u64) -> bool {
    t.contains(Tnum::const_val(w))
}

#[test]
fn const_and_singleton_range() {
    let c = Tnum::const_val(5);
    assert_eq!(c.value(), 5);
    assert_eq!(c.mask(), 0);
    assert_eq!(Tnum::from_range(5, 5), c);
    assert!(Tnum::from_range(5, 5).eq(&c));
}

#[test]
fn two_words_concretization() {
    let t = Tnum::new(2, 1);
    for w in 0u64..64 {
        assert_eq!(holds(t, w), w == 2 || w == 3, "word {}", w);
    }
}

#[test]
fn fast_divide_of_constants_within_sdiv() {
    let a = Tnum::const_val(6);
    let b = Tnum::const_val(3);
    let fast = a.fast_divide(b);
    let sdiv = a.sdiv(b);
    assert!(fast.le(&sdiv));
    assert!(holds(fast, 2));
    assert!(holds(sdiv, 2));
    assert_eq!(fast, Tnum::const_val(2));
}

#[test]
fn fast_divide_top_by_four() {
    let r = Tnum::top().fast_divide(Tnum::const_val(4));
    assert_eq!(r, Tnum::new(0, u64::MAX >> 2));
    for w in [0u64, 1, 3, 4, 7, 1000, u64::MAX, u64::MAX - 3, 1 << 63, 0x1234_5678_9abc_def0] {
        assert!(holds(r, w / 4), "word {}", w);
    }
}

#[test]
fn urem_by_power_of_two_is_a_mask() {
    let r = Tnum::new(0, 0xF).urem(Tnum::const_val(4));
    assert_eq!(r, Tnum::new(0, 3));
}

#[test]
fn precision_enumeration_is_reproducible() {
    let limit = 15u64;
    let first = compare_fast_divide_with_sdiv(limit);
    let second = compare_fast_divide_with_sdiv(limit);
    assert_eq!(first, second);
    let mut total = 0u64;
    let mut incomparable = 0u64;
    for va in 0..=limit {
        for ma in 0..=limit {
            if va & ma != 0 {
                continue;
            }
            for vb in 0..=limit {
                let a = Tnum::new(va, ma);
                let b = Tnum::const_val(vb);
                let f = a.fast_divide(b);
                let s = a.sdiv(b);
                total += 1;
                if !f.le(&s) && !s.le(&f) {
                    incomparable += 1;
                }
            }
        }
    }
    assert_eq!(first.total, total);
    assert_eq!(first.incomparable, incomparable);
    assert_eq!(
        first.total,
        first.fast_finer + first.sdiv_finer + first.equal + first.incomparable
    );
}

#[test]
fn fast_divide_uses_the_reciprocal() {
    assert_eq!(Tnum::const_val(7).fast_divide(Tnum::const_val(3)), Tnum::const_val(2));
    assert_eq!(Tnum::const_val(100).fast_divide(Tnum::const_val(7)), Tnum::const_val(14));
    assert_eq!(Tnum::const_val(1000).fast_divide(Tnum::const_val(8)), Tnum::const_val(125));
    assert_eq!(Tnum::const_val(9).fast_divide(Tnum::const_val(0)), Tnum::top());
    assert_eq!(Tnum::new(4, 3).fast_divide(Tnum::const_val(1)), Tnum::new(4, 3));
}

#[test]
fn divide_with_bit_shift() {
    let t = Tnum::new(0x40, 0x0F);
    assert_eq!(t.divide_with(DivStrategy::BitShift(4)), Tnum::new(4, 0));
}

#[test]
fn fast_divide_contains_quotients() {
    for va in 0u64..32 {
        for ma in 0u64..32 {
            if va & ma != 0 {
                continue;
            }
            let a = Tnum::new(va, ma);
            for d in 1u64..12 {
                let r = a.fast_divide(Tnum::const_val(d));
                for x in 0u64..64 {
                    if holds(a, x) {
                        assert!(holds(r, x / d), "{:?} / {} at {}", a, d, x);
                    }
                }
            }
        }
    }
}

#[test]
fn fast_divide_matches_division_on_known_words() {
    for d in [3u64, 5, 6, 7, 10, 12, 641, 1 << 20, (1 << 40) + 1, u64::MAX / 3, u64::MAX] {
        for n in [0u64, 1, 2, d - 1, d, d + 1, 1000, 123_456_789, u64::MAX / 2, u64::MAX] {
            let r = Tnum::const_val(n).fast_divide(Tnum::const_val(d));
            assert!(holds(r, n / d), "{} / {} gave {:?}", n, d, r);
        }
    }
}
