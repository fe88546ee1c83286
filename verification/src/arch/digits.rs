//! Conversion of a chunk of raw digits to ASCII.
use vstd::prelude::*;
use crate::radix::{DigitCase, spec_digit_ascii, digit_to_ascii};

verus! {

/// Number of digits converted together.
pub const DIGIT_CHUNK_LEN: usize = 8;

/// Convert raw digits (each below 36) to their ASCII characters in place.
pub fn digit_chunk_raw_to_ascii(digits: &mut [u8; DIGIT_CHUNK_LEN], digit_case: DigitCase)
    requires
        forall|i: int| 0 <= i < DIGIT_CHUNK_LEN ==> old(digits)@[i] < 36,
    ensures
        forall|i: int|
            0 <= i < DIGIT_CHUNK_LEN ==> final(digits)@[i] == spec_digit_ascii(
                old(digits)@[i] as nat,
                digit_case,
            ),
{
    let ghost orig = digits@;
    let mut i: usize = 0;
    while i < DIGIT_CHUNK_LEN
        invariant
            i <= DIGIT_CHUNK_LEN,
            digits@.len() == DIGIT_CHUNK_LEN,
            orig.len() == DIGIT_CHUNK_LEN,
            forall|j: int| 0 <= j < DIGIT_CHUNK_LEN ==> orig[j] < 36,
            forall|j: int| 0 <= j < i ==> digits@[j] == spec_digit_ascii(orig[j] as nat, digit_case),
            forall|j: int| i <= j < DIGIT_CHUNK_LEN ==> digits@[j] == orig[j],
        decreases DIGIT_CHUNK_LEN - i,
    {
        let d = digits[i];
        proof {
            assert(digits@[i as int] == orig[i as int]);
        }
        digits[i] = digit_to_ascii(d, digit_case);
        i = i + 1;
    }
}

} // verus!
