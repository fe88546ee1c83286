# dashu_int

Arbitrary precision integers whose operations carry machine-checked contracts.

`src/` is the library, verified with Verus: unsigned (`UBig`) and signed (`IBig`) big
integers stored as little-endian words, with comparison, bit operations (two's complement for
`IBig`), shifts, schoolbook division with remainder, exact division and divisibility,
greatest common divisors (Lehmer's algorithm, extended form with Bézout coefficients),
integer logarithms (and 8-bit fixed-point estimates of `log2` within two units of the exact
value), radix formatting, conversions to and from bytes and bit chunks, and modular arithmetic
(a ring of residues with sum, difference, product, inverse, and exponentiation by a sliding
window).
Each public function states over the mathematical value of its operands what it returns; the
laws that relate several operations are proof functions next to them.

The divisions by a single or double word use the invariant-divisor routines of the
`num-modular` crate and the word-sized (extended) gcd comes from `dashu-base`; both are called
through small trusted wrappers whose contracts restate what those crates document.

`app/` implements the `core::fmt` traits and the `dashu-base` traits on copies of the
library's types, which the library itself cannot carry.
