//! Information about radixes and the characters of digits.
use vstd::prelude::*;

verus! {

/// Digit and radix type.
pub type Digit = u32;

/// Minimum supported radix.
pub const MIN_RADIX: Digit = 2;

/// Maximum supported radix.
pub const MAX_RADIX: Digit = 36;

/// Whether `radix` is between [MIN_RADIX] and [MAX_RADIX] inclusive.
pub open spec fn spec_is_radix_valid(radix: nat) -> bool {
    2 <= radix <= 36
}

/// Is a radix in valid range?
pub fn is_radix_valid(radix: Digit) -> (r: bool)
    ensures
        r == spec_is_radix_valid(radix as nat),
{
    MIN_RADIX <= radix && radix <= MAX_RADIX
}

/// Case of the letters used to write the digits 10 to 35.
#[derive(Clone, Copy, Debug, PartialEq, Eq, Structural)]
pub enum DigitCase {
    /// Only the decimal digits 0 to 9 occur.
    NoLetters,
    /// Upper-case letters `A` to `Z`.
    Upper,
    /// Lower-case letters `a` to `z`.
    Lower,
}

/// The distance from the character after `9` to the first letter of the case.
pub open spec fn spec_case_offset(case: DigitCase) -> nat {
    match case {
        DigitCase::NoLetters => 0,
        DigitCase::Upper => 7,
        DigitCase::Lower => 39,
    }
}

/// The ASCII character of a digit below 36 in a letter case.
pub open spec fn spec_digit_ascii(digit: nat, case: DigitCase) -> nat {
    if digit < 10 {
        48 + digit
    } else {
        48 + digit + spec_case_offset(case)
    }
}

impl DigitCase {
    /// The distance from the character after `9` to the first letter of the case.
    pub fn offset(self) -> (r: u8)
        ensures
            r == spec_case_offset(self),
    {
        match self {
            DigitCase::NoLetters => 0,
            DigitCase::Upper => 7,
            DigitCase::Lower => 39,
        }
    }
}

/// The ASCII character of a digit below 36 in a letter case.
pub fn digit_to_ascii(digit: u8, case: DigitCase) -> (r: u8)
    requires
        digit < 36,
    ensures
        r == spec_digit_ascii(digit as nat, case),
{
    if digit < 10 {
        48u8 + digit
    } else {
        48u8 + digit + case.offset()
    }
}

} // verus!
