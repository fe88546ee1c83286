//! Arbitrary precision integer arithmetic with machine-checked contracts.
//!
//! Unsigned big integers ([UBig]) are stored as little-endian sequences of
//! machine [Word]s without leading zero words; signed big integers ([IBig])
//! pair a [Sign] with such a magnitude.  Every operation states, over the
//! mathematical value of its operands, what it computes.
pub mod arch;
pub mod primitive;
pub mod math;
pub mod buffer;
pub mod memory;
pub mod words;
pub mod sign;
pub mod ubig;
pub mod ibig;
pub mod cmp;
pub mod bits;
pub mod shift;
pub mod div;
pub mod fast_divide;
pub mod radix;
pub mod gcd;
pub mod add;
pub mod mul;
pub mod gcd_ops;
pub mod div_ops;
pub mod div_exact;
pub mod log;
pub mod fmt;
pub mod convert;
pub mod modular;
pub mod signed_bits;
