//! Machine word definitions and word-level primitives.
pub mod word;
pub mod add;
pub mod digits;
pub mod ntt;
