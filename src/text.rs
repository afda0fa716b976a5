//! The textual form of a tnum: one character per bit, highest bit first.
use vstd::prelude::*;
use vstd::string::StringExecFns;

use crate::tnum::Tnum;

verus! {

/// The character for bit `b`: `x` when unknown, else its known value.
pub open spec fn bit_char(t: Tnum, b: u64) -> char {
    if (t.mask >> b) & 1 == 1 {
        'x'
    } else if (t.value >> b) & 1 == 1 {
        '1'
    } else {
        '0'
    }
}

/// The text of `t` for a buffer of `size` bytes: the highest
/// `min(size - 1, 64)` bits, highest first.
pub open spec fn sbin(t: Tnum, size: usize) -> Seq<char> {
    let end = if size - 1 < 64 {
        size - 1
    } else {
        64
    };
    Seq::new(end as nat, |k: int| bit_char(t, (63 - k) as u64))
}

impl Tnum {
    /// Writes the highest `min(size - 1, 64)` bits as `0`, `1` or `x`
    /// (unknown), highest bit first.
    pub fn to_sbin(&self, size: usize) -> (r: String)
        requires
            size >= 1,
        ensures
            r@ == sbin(*self, size),
    {
        let end: usize = if size - 1 < 64 {
            size - 1
        } else {
            64
        };
        let mut result = String::new();
        let mut k: usize = 0;
        while k < end
            invariant
                end <= 64,
                end == if size - 1 < 64 {
                    size - 1
                } else {
                    64
                },
                k <= end,
                result@ == sbin(*self, size).subrange(0, k as int),
            decreases end - k,
        {
            let b = (63 - k) as u64;
            proof {
                reveal_strlit("x");
                reveal_strlit("1");
                reveal_strlit("0");
            }
            if (self.mask >> b) & 1 == 1 {
                result.append("x");
            } else if (self.value >> b) & 1 == 1 {
                result.append("1");
            } else {
                result.append("0");
            }
            k += 1;
            assert(result@ =~= sbin(*self, size).subrange(0, k as int));
        }
        assert(result@ =~= sbin(*self, size));
        result
    }
}

} // verus!
