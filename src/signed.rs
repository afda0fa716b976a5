//! Two's-complement reading of 64-bit words, and truncating signed division
//! and remainder on them.
use vstd::prelude::*;

verus! {

/// The value of `x` read as a two's-complement signed word.
pub open spec fn signed(x: u64) -> int {
    if x < 0x8000_0000_0000_0000u64 {
        x as int
    } else {
        x as int - 0x1_0000_0000_0000_0000int
    }
}

/// The word whose two's-complement reading is `i` modulo 2^64.
pub open spec fn word_of(i: int) -> u64 {
    (i % 0x1_0000_0000_0000_0000int) as u64
}

pub open spec fn abs(i: int) -> nat {
    if i < 0 {
        (-i) as nat
    } else {
        i as nat
    }
}

/// Division rounding toward zero.
pub open spec fn trunc_div(a: int, b: int) -> int {
    let q = (abs(a) / abs(b)) as int;
    if (a < 0) != (b < 0) {
        -q
    } else {
        q
    }
}

/// The remainder of division rounding toward zero: the sign of `a`.
pub open spec fn trunc_rem(a: int, b: int) -> int {
    let r = (abs(a) % abs(b)) as int;
    if a < 0 {
        -r
    } else {
        r
    }
}

/// The magnitude of a signed word, as an unsigned word (2^63 for the least).
fn magnitude(x: u64) -> (r: u64)
    ensures
        r as int == abs(signed(x)),
{
    if x < 0x8000_0000_0000_0000u64 {
        x
    } else {
        0u64.wrapping_sub(x)
    }
}

/// Signed division rounding toward zero, wrapping on the one overflow
/// (the least word divided by -1).
pub fn wrapping_sdiv(a: u64, b: u64) -> (r: u64)
    requires
        b != 0,
    ensures
        r == word_of(trunc_div(signed(a), signed(b))),
{
    let ua = magnitude(a);
    let ub = magnitude(b);
    let q = ua / ub;
    proof {
        assert(q <= ua) by (nonlinear_arith)
            requires
                q == ua / ub,
                ub >= 1,
        ;
    }
    if (a < 0x8000_0000_0000_0000u64) != (b < 0x8000_0000_0000_0000u64) {
        0u64.wrapping_sub(q)
    } else {
        q
    }
}

/// Signed remainder of division rounding toward zero.
pub fn wrapping_srem(a: u64, b: u64) -> (r: u64)
    requires
        b != 0,
    ensures
        r == word_of(trunc_rem(signed(a), signed(b))),
{
    let ua = magnitude(a);
    let ub = magnitude(b);
    let m = ua % ub;
    proof {
        assert(m <= ua) by (nonlinear_arith)
            requires
                m == ua % ub,
                ub >= 1,
        ;
    }
    if a < 0x8000_0000_0000_0000u64 {
        m
    } else {
        0u64.wrapping_sub(m)
    }
}

/// `signed(a) >= signed(b)`.
pub fn signed_ge(a: u64, b: u64) -> (r: bool)
    ensures
        r == (signed(a) >= signed(b)),
{
    let an = a >= 0x8000_0000_0000_0000u64;
    let bn = b >= 0x8000_0000_0000_0000u64;
    if an != bn {
        bn
    } else {
        a >= b
    }
}

} // verus!
