//! The order of the domain (inclusion of the sets of words held), join and meet.
use vstd::prelude::*;

use crate::tnum::Tnum;

verus! {

/// The bit-level form of `a ⊑ b`: `a` holds no word, or `b` is well formed,
/// every bit unknown in `a` is unknown in `b`, and the bits known in `b` are
/// known in `a` with the same value.
pub open spec fn subset_bits(av: u64, am: u64, bv: u64, bm: u64) -> bool {
    av & am != 0 || (bv & bm == 0 && am & !bm == 0 && (av ^ bv) & !bm == 0)
}

/// `w` is held by the tnum `(v, m)`.
pub open spec fn has_bits(v: u64, m: u64, w: u64) -> bool {
    v & m == 0 && (w ^ v) & !m == 0
}

pub open spec fn join_value(av: u64, am: u64, bv: u64, bm: u64) -> u64 {
    (av | bv) & !((am | bm) | (av ^ bv))
}

pub open spec fn join_mask(av: u64, am: u64, bv: u64, bm: u64) -> u64 {
    (am | bm) | (av ^ bv)
}

impl Tnum {
    /// `self ⊑ other`: every word held by `self` is held by `other`
    /// (see `lemma_subset_iff`).
    pub open spec fn subset(self, other: Tnum) -> bool {
        subset_bits(self.value, self.mask, other.value, other.mask)
    }

    /// The join formula: a bit stays known where both agree and know it.
    pub open spec fn spec_join(self, other: Tnum) -> Tnum {
        Tnum {
            value: join_value(self.value, self.mask, other.value, other.mask),
            mask: join_mask(self.value, self.mask, other.value, other.mask),
        }
    }

    /// What `or` returns: an operand above the other as it is, else the
    /// agreement of the two.
    pub open spec fn spec_or(self, other: Tnum) -> Tnum {
        if self.subset(other) {
            other
        } else if other.subset(self) {
            self
        } else {
            self.spec_agree(other)
        }
    }

    /// What `or` returns when neither operand is below the other.
    pub open spec fn spec_agree(self, other: Tnum) -> Tnum {
        let mu = self.mask | other.mask;
        let tk = self.value & !mu;
        let xk = other.value & !mu;
        Tnum { value: tk & xk, mask: mu | (tk ^ xk) }
    }

    /// What `and` returns when neither operand is below the other.
    pub open spec fn spec_meet(self, other: Tnum) -> Tnum {
        let mu1 = self.mask & other.mask;
        let mu2 = self.mask | other.mask;
        if (self.value & !mu2) ^ (other.value & !mu2) != 0 {
            Tnum::spec_bottom()
        } else {
            Tnum { value: (self.value | other.value) & !mu1, mask: mu1 }
        }
    }

    pub open spec fn spec_intersect(self, other: Tnum) -> Tnum {
        let mu = self.mask & other.mask;
        Tnum { value: (self.value | other.value) & !mu, mask: mu }
    }

    /// `self ⊑ other`, the order of the lattice.
    pub fn le(&self, other: &Tnum) -> (r: bool)
        ensures
            r == self.subset(*other),
    {
        proof {
            lemma_le_bits(self.value, self.mask, other.value, other.mask);
        }
        if other.is_top() || self.is_bottom() {
            true
        } else if other.is_bottom() || self.is_top() {
            false
        } else if self.value == other.value && self.mask == other.mask {
            true
        } else if (self.mask & !other.mask) != 0 {
            false
        } else {
            (self.value & !other.mask) == other.value
        }
    }

    /// Both `self ⊑ other` and `other ⊑ self`: the same tnum, or two that
    /// both hold no word.
    pub fn eq(&self, other: &Tnum) -> (r: bool)
        ensures
            r == (self.subset(*other) && other.subset(*self)),
            r == (*self == *other || (!self.wf() && !other.wf())),
    {
        proof {
            lemma_le_antisymmetric(*self, *other);
            lemma_le_reflexive(*self);
        }
        self.le(other) && other.le(self)
    }

    /// The least upper bound by the join formula.
    pub fn join(&self, other: Self) -> (r: Self)
        ensures
            r == self.spec_join(other),
            r.wf(),
            self.subset(r),
            other.subset(r),
            forall|w: u64| self.has(w) || other.has(w) ==> #[trigger] r.has(w),
    {
        proof {
            lemma_join_upper(*self, other);
            lemma_subset_iff(*self, self.spec_join(other));
            lemma_subset_iff(other, self.spec_join(other));
        }
        let v = self.value ^ other.value;
        let m = (self.mask | other.mask) | v;
        Self::new((self.value | other.value) & (!m), m)
    }

    /// A join that returns an operand as it is when it is above the other.
    pub fn or(&self, other: &Tnum) -> (r: Tnum)
        ensures
            r == self.spec_or(*other),
            self.subset(r),
            other.subset(r),
            self.valid() && other.valid() ==> r.valid(),
            forall|w: u64| self.has(w) || other.has(w) ==> #[trigger] r.has(w),
    {
        proof {
            lemma_or_upper(*self, *other);
            lemma_le_reflexive(*other);
            lemma_le_reflexive(*self);
        }
        let r = if self.le(other) {
            *other
        } else if other.le(self) {
            *self
        } else {
            let mu = self.mask | other.mask;
            let this_know = self.value & (!mu);
            let x_know = other.value & (!mu);
            let disagree = this_know ^ x_know;
            Tnum::new(this_know & x_know, mu | disagree)
        };
        proof {
            lemma_subset_iff(*self, r);
            lemma_subset_iff(*other, r);
        }
        r
    }

    /// The meet: the words held by both operands, `bottom` where the two
    /// disagree on a known bit.
    pub fn and(&self, other: &Tnum) -> (r: Tnum)
        ensures
            r == (if self.subset(*other) {
                *self
            } else if other.subset(*self) {
                *other
            } else {
                self.spec_meet(*other)
            }),
            r.subset(*self),
            r.subset(*other),
            self.valid() && other.valid() ==> r.valid(),
            self.spec_is_bottom() || other.spec_is_bottom() ==> r.spec_is_bottom(),
            forall|w: u64| self.has(w) && other.has(w) ==> #[trigger] r.has(w),
    {
        proof {
            lemma_meet(*self, *other);
            lemma_le_reflexive(*other);
            lemma_le_reflexive(*self);
        }
        if self.le(other) {
            return *self;
        } else if other.le(self) {
            return *other;
        }
        let mu1 = self.mask & other.mask;
        let mu2 = self.mask | other.mask;
        let this_known_v = self.value & (!mu2);
        let x_known_v = other.value & (!mu2);
        let disagree = this_known_v ^ x_known_v;

        if disagree != 0 {
            return Tnum::bottom();
        }
        Tnum::new((self.value | other.value) & (!mu1), mu1)
    }

    /// Meet by formula: a bit is unknown only where both operands leave it so.
    pub fn intersect(&self, other: Self) -> (r: Self)
        ensures
            r == self.spec_intersect(other),
            r.wf(),
            forall|w: u64| self.has(w) && other.has(w) ==> #[trigger] r.has(w),
    {
        proof {
            lemma_meet(*self, other);
        }
        let v = self.value | other.value;
        let mu = self.mask & other.mask;
        Self::new(v & !mu, mu)
    }

    /// Every word held by `other` is held by `self`.
    pub fn contains(&self, other: Self) -> (r: bool)
        ensures
            r == other.subset(*self),
            r <==> (forall|w: u64| other.has(w) ==> #[trigger] self.has(w)),
    {
        proof {
            lemma_subset_iff(other, *self);
        }
        other.le(self)
    }
}

proof fn lemma_le_bits(av: u64, am: u64, bv: u64, bm: u64)
    by (bit_vector)
    ensures
        (if (bv == 0 && bm == 0xFFFF_FFFF_FFFF_FFFFu64) || av & am != 0 {
            true
        } else if bv & bm != 0 || (av == 0 && am == 0xFFFF_FFFF_FFFF_FFFFu64) {
            false
        } else if av == bv && am == bm {
            true
        } else if am & !bm != 0 {
            false
        } else {
            av & !bm == bv
        }) == subset_bits(av, am, bv, bm),
{
}

proof fn lemma_subset_bits(av: u64, am: u64, bv: u64, bm: u64, w: u64)
    by (bit_vector)
    ensures
        subset_bits(av, am, bv, bm) && has_bits(av, am, w) ==> has_bits(bv, bm, w),
        av & am == 0 ==> has_bits(av, am, av) && has_bits(av, am, av | am),
        av & am == 0 && !subset_bits(av, am, bv, bm) ==> !has_bits(bv, bm, av) || !has_bits(
            bv,
            bm,
            av | am,
        ),
{
}

/// `a ⊑ b` holds exactly when every word held by `a` is held by `b`.
pub proof fn lemma_subset_iff(a: Tnum, b: Tnum)
    ensures
        a.subset(b) <==> (forall|w: u64| a.has(w) ==> #[trigger] b.has(w)),
{
    assert forall|w: u64| a.subset(b) && a.has(w) implies #[trigger] b.has(w) by {
        lemma_subset_bits(a.value, a.mask, b.value, b.mask, w);
    }
    lemma_subset_bits(a.value, a.mask, b.value, b.mask, 0);
    if a.wf() && !a.subset(b) {
        assert(a.has(a.value) && a.has(a.value | a.mask));
        assert(!b.has(a.value) || !b.has(a.value | a.mask));
    }
}

/// `⊑` is reflexive.
pub proof fn lemma_le_reflexive(a: Tnum)
    ensures
        a.subset(a),
{
    lemma_order_bits(a.value, a.mask, a.value, a.mask, a.value, a.mask);
}

/// `⊑` is antisymmetric: two tnums below each other are equal, or both hold
/// no word.
pub proof fn lemma_le_antisymmetric(a: Tnum, b: Tnum)
    ensures
        a.subset(b) && b.subset(a) <==> (a == b || (!a.wf() && !b.wf())),
{
    lemma_order_bits(a.value, a.mask, b.value, b.mask, a.value, a.mask);
}

/// `⊑` is transitive.
pub proof fn lemma_le_transitive(a: Tnum, b: Tnum, c: Tnum)
    requires
        a.subset(b),
        b.subset(c),
    ensures
        a.subset(c),
{
    lemma_order_bits(a.value, a.mask, b.value, b.mask, c.value, c.mask);
}

proof fn lemma_order_bits(av: u64, am: u64, bv: u64, bm: u64, cv: u64, cm: u64)
    by (bit_vector)
    ensures
        subset_bits(av, am, av, am),
        subset_bits(av, am, bv, bm) && subset_bits(bv, bm, av, am) <==> ((av == bv && am == bm)
            || (av & am != 0 && bv & bm != 0)),
        subset_bits(av, am, bv, bm) && subset_bits(bv, bm, cv, cm) ==> subset_bits(
            av,
            am,
            cv,
            cm,
        ),
{
}

/// Join is commutative.
pub proof fn lemma_join_commutative(a: Tnum, b: Tnum)
    ensures
        a.spec_join(b) == b.spec_join(a),
{
    lemma_join_bits(a.value, a.mask, b.value, b.mask, 0, 0);
}

/// Join is associative.
pub proof fn lemma_join_associative(a: Tnum, b: Tnum, c: Tnum)
    ensures
        a.spec_join(b).spec_join(c) == a.spec_join(b.spec_join(c)),
{
    lemma_join_bits(a.value, a.mask, b.value, b.mask, c.value, c.mask);
}

/// Join is idempotent on well-formed tnums.
pub proof fn lemma_join_idempotent(a: Tnum)
    requires
        a.wf(),
    ensures
        a.spec_join(a) == a,
{
    lemma_join_bits(a.value, a.mask, a.value, a.mask, 0, 0);
}

/// Join is an upper bound of both operands.
pub proof fn lemma_join_upper(a: Tnum, b: Tnum)
    ensures
        a.subset(a.spec_join(b)),
        b.subset(a.spec_join(b)),
        a.spec_join(b).wf(),
{
    lemma_join_bits(a.value, a.mask, b.value, b.mask, 0, 0);
}

/// Join holds every word held by either operand.
pub proof fn lemma_join_has(a: Tnum, b: Tnum, w: u64)
    requires
        a.has(w) || b.has(w),
    ensures
        a.spec_join(b).has(w),
{
    lemma_join_upper(a, b);
    lemma_subset_iff(a, a.spec_join(b));
    lemma_subset_iff(b, a.spec_join(b));
}

/// Join of well-formed tnums is below every common upper bound.
pub proof fn lemma_join_least(a: Tnum, b: Tnum, c: Tnum)
    requires
        a.wf(),
        b.wf(),
        a.subset(c),
        b.subset(c),
    ensures
        a.spec_join(b).subset(c),
{
    lemma_join_bits(a.value, a.mask, b.value, b.mask, c.value, c.mask);
}

proof fn lemma_join_bits(av: u64, am: u64, bv: u64, bm: u64, cv: u64, cm: u64)
    by (bit_vector)
    ensures
        join_value(av, am, bv, bm) == join_value(bv, bm, av, am),
        join_mask(av, am, bv, bm) == join_mask(bv, bm, av, am),
        join_value(join_value(av, am, bv, bm), join_mask(av, am, bv, bm), cv, cm) == join_value(
            av,
            am,
            join_value(bv, bm, cv, cm),
            join_mask(bv, bm, cv, cm),
        ),
        join_mask(join_value(av, am, bv, bm), join_mask(av, am, bv, bm), cv, cm) == join_mask(
            av,
            am,
            join_value(bv, bm, cv, cm),
            join_mask(bv, bm, cv, cm),
        ),
        av & am == 0 ==> join_value(av, am, av, am) == av && join_mask(av, am, av, am) == am,
        subset_bits(av, am, join_value(av, am, bv, bm), join_mask(av, am, bv, bm)),
        subset_bits(bv, bm, join_value(av, am, bv, bm), join_mask(av, am, bv, bm)),
        join_value(av, am, bv, bm) & join_mask(av, am, bv, bm) == 0,
        av & am == 0 && bv & bm == 0 && subset_bits(av, am, cv, cm) && subset_bits(
            bv,
            bm,
            cv,
            cm,
        ) ==> subset_bits(join_value(av, am, bv, bm), join_mask(av, am, bv, bm), cv, cm),
{
}

/// `or` holds every word held by either operand.
pub proof fn lemma_or_has(a: Tnum, b: Tnum, w: u64)
    requires
        a.has(w) || b.has(w),
    ensures
        a.spec_or(b).has(w),
{
    lemma_or_upper(a, b);
    lemma_le_reflexive(a);
    lemma_le_reflexive(b);
    lemma_subset_iff(a, a.spec_or(b));
    lemma_subset_iff(b, a.spec_or(b));
}

proof fn lemma_or_upper(a: Tnum, b: Tnum)
    ensures
        a.subset(a.spec_agree(b)),
        b.subset(a.spec_agree(b)),
        a.spec_agree(b).wf(),
{
    lemma_or_bits(a.value, a.mask, b.value, b.mask);
}

proof fn lemma_or_bits(av: u64, am: u64, bv: u64, bm: u64)
    by (bit_vector)
    ensures
        ({
            let mu = am | bm;
            let tk = av & !mu;
            let xk = bv & !mu;
            subset_bits(av, am, tk & xk, mu | (tk ^ xk)) && subset_bits(
                bv,
                bm,
                tk & xk,
                mu | (tk ^ xk),
            ) && (tk & xk) & (mu | (tk ^ xk)) == 0
        }),
{
}

proof fn lemma_meet(a: Tnum, b: Tnum)
    ensures
        a.wf() && b.wf() ==> a.spec_meet(b).subset(a) && a.spec_meet(b).subset(b),
        a.spec_meet(b).valid(),
        forall|w: u64| a.has(w) && b.has(w) ==> #[trigger] a.spec_meet(b).has(w),
        a.spec_intersect(b).wf(),
        forall|w: u64| a.has(w) && b.has(w) ==> #[trigger] a.spec_intersect(b).has(w),
{
    crate::tnum::lemma_word_constants();
    assert forall|w: u64| a.has(w) && b.has(w) implies #[trigger] a.spec_meet(b).has(w) by {
        lemma_meet_bits(a.value, a.mask, b.value, b.mask, w);
    }
    assert forall|w: u64| a.has(w) && b.has(w) implies #[trigger] a.spec_intersect(b).has(w) by {
        lemma_meet_bits(a.value, a.mask, b.value, b.mask, w);
    }
    lemma_meet_bits(a.value, a.mask, b.value, b.mask, 0);
}

proof fn lemma_meet_bits(av: u64, am: u64, bv: u64, bm: u64, w: u64)
    by (bit_vector)
    ensures
        ({
            let mu1 = am & bm;
            let mu2 = am | bm;
            let v = (av | bv) & !mu1;
            let agree = (av & !mu2) ^ (bv & !mu2) == 0;
            &&& v & mu1 == 0
            &&& av & am == 0 && bv & bm == 0 && agree ==> subset_bits(v, mu1, av, am)
                && subset_bits(v, mu1, bv, bm)
            &&& has_bits(av, am, w) && has_bits(bv, bm, w) ==> agree && has_bits(v, mu1, w)
        }),
{
}

} // verus!
