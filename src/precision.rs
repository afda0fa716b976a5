//! Comparing the precision of `fast_divide` and `sdiv` by exhaustive
//! enumeration of small operands.
use vstd::prelude::*;

use crate::tnum::Tnum;

verus! {

/// How two results for the same operands relate in the lattice order.
#[derive(Debug, Clone, Copy, PartialEq, Eq, Structural)]
pub enum Precision {
    /// The `fast_divide` result is strictly below the `sdiv` result.
    FastFiner,
    /// The `sdiv` result is strictly below the `fast_divide` result.
    SdivFiner,
    /// Each is below the other.
    Equal,
    /// Neither is below the other.
    Incomparable,
}

/// Counts of each relation over an enumeration.
#[derive(Debug, Clone, Copy, PartialEq, Eq, Structural)]
pub struct PrecisionTally {
    pub total: u64,
    pub fast_finer: u64,
    pub sdiv_finer: u64,
    pub equal: u64,
    pub incomparable: u64,
}

pub open spec fn spec_classify(fast: Tnum, sdiv: Tnum) -> Precision {
    let fl = fast.subset(sdiv);
    let sl = sdiv.subset(fast);
    if fl && sl {
        Precision::Equal
    } else if fl {
        Precision::FastFiner
    } else if sl {
        Precision::SdivFiner
    } else {
        Precision::Incomparable
    }
}

/// The relation for the dividend `(va, ma)` and the known divisor `vb`.
pub open spec fn pair_class(va: u64, ma: u64, vb: u64) -> Precision {
    let a = Tnum { value: va, mask: ma };
    let b = Tnum::spec_const(vb);
    spec_classify(a.spec_fast_divide(b), a.spec_sdiv(b))
}

/// Divisors `vb < n` whose relation for `(va, ma)` is `c`.
pub open spec fn row_count(va: u64, ma: u64, n: int, c: Precision) -> nat
    decreases n,
{
    if n <= 0 {
        0
    } else {
        row_count(va, ma, n - 1, c) + if pair_class(va, ma, (n - 1) as u64) == c {
            1nat
        } else {
            0nat
        }
    }
}

/// Pairs `(ma, vb)` with `ma < n` disjoint from `va`, `vb <= limit`, of relation `c`.
pub open spec fn plane_count(va: u64, limit: u64, n: int, c: Precision) -> nat
    decreases n,
{
    if n <= 0 {
        0
    } else {
        plane_count(va, limit, n - 1, c) + if va & ((n - 1) as u64) == 0 {
            row_count(va, (n - 1) as u64, limit + 1, c)
        } else {
            0nat
        }
    }
}

/// Triples with `va < n`, `ma, vb <= limit`, `va & ma == 0`, of relation `c`.
pub open spec fn cube_count(limit: u64, n: int, c: Precision) -> nat
    decreases n,
{
    if n <= 0 {
        0
    } else {
        cube_count(limit, n - 1, c) + plane_count((n - 1) as u64, limit, limit + 1, c)
    }
}

/// Classifies two results for the same operands by the lattice order.
pub fn classify(fast: Tnum, sdiv: Tnum) -> (r: Precision)
    ensures
        r == spec_classify(fast, sdiv),
{
    let fast_le_sdiv = fast.le(&sdiv);
    let sdiv_le_fast = sdiv.le(&fast);
    let equal = fast.eq(&sdiv);
    if equal {
        Precision::Equal
    } else if fast_le_sdiv && !sdiv_le_fast {
        Precision::FastFiner
    } else if sdiv_le_fast && !fast_le_sdiv {
        Precision::SdivFiner
    } else if fast_le_sdiv && sdiv_le_fast {
        Precision::Equal
    } else {
        Precision::Incomparable
    }
}

impl PrecisionTally {
    pub open spec fn count_of(self, c: Precision) -> nat {
        match c {
            Precision::FastFiner => self.fast_finer as nat,
            Precision::SdivFiner => self.sdiv_finer as nat,
            Precision::Equal => self.equal as nat,
            Precision::Incomparable => self.incomparable as nat,
        }
    }

    pub open spec fn sums(self) -> bool {
        self.total == self.fast_finer + self.sdiv_finer + self.equal + self.incomparable
    }
}

proof fn lemma_index_bound(va: int, ma: int, vb: int, p: int)
    requires
        0 <= va < p,
        0 <= ma < p,
        0 <= vb < p,
        p <= 2_642_245,
    ensures
        va * p * p + ma * p + vb + 1 <= p * p * p,
        p * p * p <= 0xFFFF_FFFF_FFFF_FFFF,
        (va + 1) * p * p == va * p * p + p * p,
        va * p * p + (ma + 1) * p == va * p * p + ma * p + p,
{
    assert(va * p * p + ma * p + vb + 1 <= p * p * p) by (nonlinear_arith)
        requires
            0 <= va < p,
            0 <= ma < p,
            0 <= vb < p,
    ;
    assert(p * p <= 2_642_245 * 2_642_245) by (nonlinear_arith)
        requires
            0 <= p <= 2_642_245,
    ;
    assert(p * p * p <= 2_642_245 * 2_642_245 * 2_642_245) by (nonlinear_arith)
        requires
            0 <= p <= 2_642_245,
            0 <= p * p <= 2_642_245 * 2_642_245,
    ;
    assert((va + 1) * p * p == va * p * p + p * p) by (nonlinear_arith);
    assert(va * p * p + (ma + 1) * p == va * p * p + ma * p + p) by (nonlinear_arith);
}

/// Enumerates every dividend `(value, mask)` with `value & mask == 0` and
/// `value, mask <= limit`, and every known divisor `<= limit`, and counts how
/// the `fast_divide` and `sdiv` results relate.
pub fn compare_fast_divide_with_sdiv(limit: u64) -> (r: PrecisionTally)
    requires
        limit <= 2_642_244,
    ensures
        r.sums(),
        forall|c: Precision| #[trigger] r.count_of(c) == cube_count(limit, limit + 1, c),
{
    let ghost p: int = limit + 1;
    let mut tally = PrecisionTally {
        total: 0,
        fast_finer: 0,
        sdiv_finer: 0,
        equal: 0,
        incomparable: 0,
    };
    let mut value_a: u64 = 0;
    while value_a <= limit
        invariant
            p == limit + 1,
            limit <= 2_642_244,
            value_a <= p,
            tally.sums(),
            tally.total <= value_a * p * p,
            forall|c: Precision| #[trigger] tally.count_of(c) == cube_count(limit, value_a as int, c),
        decreases p - value_a,
    {
        let mut mask_a: u64 = 0;
        while mask_a <= limit
            invariant
                p == limit + 1,
                limit <= 2_642_244,
                value_a < p,
                mask_a <= p,
                tally.sums(),
                tally.total <= value_a * p * p + mask_a * p,
                forall|c: Precision| #[trigger] tally.count_of(c) == cube_count(
                    limit,
                    value_a as int,
                    c,
                ) + plane_count(value_a, limit, mask_a as int, c),
            decreases p - mask_a,
        {
            if value_a & mask_a == 0 {
                let mut value_b: u64 = 0;
                while value_b <= limit
                    invariant
                        p == limit + 1,
                        limit <= 2_642_244,
                        value_a < p,
                        mask_a < p,
                        value_b <= p,
                        value_a & mask_a == 0,
                        tally.sums(),
                        tally.total <= value_a * p * p + mask_a * p + value_b,
                        forall|c: Precision| #[trigger] tally.count_of(c) == cube_count(
                            limit,
                            value_a as int,
                            c,
                        ) + plane_count(value_a, limit, mask_a as int, c) + row_count(
                            value_a,
                            mask_a,
                            value_b as int,
                            c,
                        ),
                    decreases p - value_b,
                {
                    let tnum_a = Tnum::new(value_a, mask_a);
                    let tnum_b = Tnum::const_val(value_b);
                    let fast_result = tnum_a.fast_divide(tnum_b);
                    let sdiv_result = tnum_a.sdiv(tnum_b);
                    let class = classify(fast_result, sdiv_result);
                    proof {
                        lemma_index_bound(value_a as int, mask_a as int, value_b as int, p);
                    }
                    let ghost before = tally;
                    tally.total = tally.total + 1;
                    match class {
                        Precision::FastFiner => tally.fast_finer = tally.fast_finer + 1,
                        Precision::SdivFiner => tally.sdiv_finer = tally.sdiv_finer + 1,
                        Precision::Equal => tally.equal = tally.equal + 1,
                        Precision::Incomparable => tally.incomparable = tally.incomparable + 1,
                    }
                    proof {
                        assert(class == pair_class(value_a, mask_a, value_b));
                        assert forall|c: Precision| #[trigger] tally.count_of(c) == before.count_of(
                            c,
                        ) + if class == c {
                            1nat
                        } else {
                            0nat
                        } by {
                            match c {
                                Precision::FastFiner => {},
                                Precision::SdivFiner => {},
                                Precision::Equal => {},
                                Precision::Incomparable => {},
                            }
                        }
                        assert forall|c: Precision| #[trigger] row_count(
                            value_a,
                            mask_a,
                            value_b + 1,
                            c,
                        ) == row_count(value_a, mask_a, value_b as int, c) + if pair_class(
                            value_a,
                            mask_a,
                            value_b,
                        ) == c {
                            1nat
                        } else {
                            0nat
                        } by {}
                    }
                    value_b = value_b + 1;
                }
            }
            proof {
                lemma_index_bound(value_a as int, mask_a as int, 0, p);
            }
            mask_a = mask_a + 1;
        }
        proof {
            lemma_index_bound(value_a as int, 0, 0, p);
        }
        value_a = value_a + 1;
    }
    tally
}

} // verus!
