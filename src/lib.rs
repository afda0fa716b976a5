//! Tristate numbers (tnums): a bit-level abstract domain for 64-bit machine
//! words. A tnum records, for each bit, whether it is known 0, known 1 or
//! unknown, and so stands for the set of words that agree with its known
//! bits.
//!
//! - `tnum`: the representation, the distinguished elements and predicates.
//! - `lattice`: the order (inclusion of the sets held), join and meet.
//! - `arith`, `shift`, `varshift`: addition, subtraction, bitwise operations
//!   and shifts.
//! - `wide`, `mul`: multiplication, with a 128-bit tnum as scratch space.
//! - `signed`, `div`, `fastdiv`: division and remainder, including division
//!   by a known word through a reciprocal multiplication.
//! - `precision`: comparing two division algorithms over small operands.
//! - `text`, `bits`: the textual form and word-level helpers.
pub mod arith;
pub mod bits;
pub mod div;
pub mod fastdiv;
pub mod lattice;
pub mod mul;
pub mod precision;
pub mod shift;
pub mod signed;
pub mod text;
pub mod tnum;
pub mod varshift;
pub mod wide;

pub use bits::BitOps;
pub use div::rem_get_low_bits;
pub use fastdiv::DivStrategy;
pub use precision::{classify, compare_fast_divide_with_sdiv, Precision, PrecisionTally};
pub use tnum::Tnum;
pub use wide::TnumU128;
