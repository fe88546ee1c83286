//! Comparisons of big integers.
use vstd::prelude::*;
use core::cmp::Ordering;
use crate::arch::word::Word;
use crate::ubig::UBig;
use crate::ibig::{IBig, spec_abs};
use crate::words::{words_val, is_normalized, lemma_words_val_lt_at_index, lemma_normalized_len};

verus! {

/// Compare lhs with rhs of the same length as numbers.
pub fn cmp_same_len(lhs: &[Word], rhs: &[Word]) -> (r: Ordering)
    requires
        lhs@.len() == rhs@.len(),
    ensures
        (r == Ordering::Less) == (words_val(lhs@) < words_val(rhs@)),
        (r == Ordering::Equal) == (words_val(lhs@) == words_val(rhs@)),
        (r == Ordering::Greater) == (words_val(lhs@) > words_val(rhs@)),
{
    let mut i = lhs.len();
    while i > 0
        invariant
            i <= lhs@.len(),
            lhs@.len() == rhs@.len(),
            forall|j: int| i <= j < lhs@.len() ==> lhs@[j] == rhs@[j],
        decreases i,
    {
        let k = i - 1;
        if lhs[k] < rhs[k] {
            proof {
                lemma_words_val_lt_at_index(lhs@, rhs@, k);
            }
            return Ordering::Less;
        } else if lhs[k] > rhs[k] {
            proof {
                lemma_words_val_lt_at_index(rhs@, lhs@, k);
            }
            return Ordering::Greater;
        }
        i = k;
    }
    proof {
        assert(lhs@ =~= rhs@);
    }
    Ordering::Equal
}

/// Compare lhs with rhs as numbers. The leading zero words of the input must be trimmed,
/// and neither may be zero.
pub fn cmp_in_place(lhs: &[Word], rhs: &[Word]) -> (r: Ordering)
    requires
        lhs@.len() > 0,
        rhs@.len() > 0,
        lhs@.last() != 0,
        rhs@.last() != 0,
    ensures
        (r == Ordering::Less) == (words_val(lhs@) < words_val(rhs@)),
        (r == Ordering::Equal) == (words_val(lhs@) == words_val(rhs@)),
        (r == Ordering::Greater) == (words_val(lhs@) > words_val(rhs@)),
{
    proof {
        lemma_normalized_len(lhs@, rhs@);
        lemma_normalized_len(rhs@, lhs@);
    }
    if lhs.len() < rhs.len() {
        Ordering::Less
    } else if lhs.len() > rhs.len() {
        Ordering::Greater
    } else {
        cmp_same_len(lhs, rhs)
    }
}

/// Compare two normalized word sequences, either of which may be empty (zero).
fn cmp_normalized(lhs: &[Word], rhs: &[Word]) -> (r: Ordering)
    requires
        is_normalized(lhs@),
        is_normalized(rhs@),
    ensures
        (r == Ordering::Less) == (words_val(lhs@) < words_val(rhs@)),
        (r == Ordering::Equal) == (words_val(lhs@) == words_val(rhs@)),
        (r == Ordering::Greater) == (words_val(lhs@) > words_val(rhs@)),
{
    proof {
        lemma_normalized_len(lhs@, rhs@);
        lemma_normalized_len(rhs@, lhs@);
    }
    if lhs.len() < rhs.len() {
        Ordering::Less
    } else if lhs.len() > rhs.len() {
        Ordering::Greater
    } else {
        cmp_same_len(lhs, rhs)
    }
}

/// Whether `lhs < rhs` as numbers; both are normalized.
pub fn words_less(lhs: &[Word], rhs: &[Word]) -> (r: bool)
    requires
        is_normalized(lhs@),
        is_normalized(rhs@),
    ensures
        r == (words_val(lhs@) < words_val(rhs@)),
{
    match cmp_normalized(lhs, rhs) {
        Ordering::Less => true,
        _ => false,
    }
}

/// Whether `lhs == rhs` as numbers; both are normalized.
pub fn words_equal(lhs: &[Word], rhs: &[Word]) -> (r: bool)
    requires
        is_normalized(lhs@),
        is_normalized(rhs@),
    ensures
        r == (words_val(lhs@) == words_val(rhs@)),
{
    match cmp_normalized(lhs, rhs) {
        Ordering::Equal => true,
        _ => false,
    }
}

impl UBig {
    /// Compare two numbers.
    pub fn cmp(&self, other: &UBig) -> (r: Ordering)
        ensures
            (r == Ordering::Less) == (self@ < other@),
            (r == Ordering::Equal) == (self@ == other@),
            (r == Ordering::Greater) == (self@ > other@),
    {
        cmp_normalized(self.as_words(), other.as_words())
    }

    /// Compare the magnitudes of two numbers.
    pub fn abs_cmp(&self, other: &UBig) -> (r: Ordering)
        ensures
            (r == Ordering::Less) == (self@ < other@),
            (r == Ordering::Equal) == (self@ == other@),
            (r == Ordering::Greater) == (self@ > other@),
    {
        self.cmp(other)
    }

    /// Whether the magnitudes of two numbers are equal.
    pub fn abs_eq(&self, other: &UBig) -> (r: bool)
        ensures
            r == (self@ == other@),
    {
        self.check_same(other)
    }
}

impl IBig {
    /// Compare two numbers.
    pub fn cmp(&self, other: &IBig) -> (r: Ordering)
        ensures
            (r == Ordering::Less) == (self@ < other@),
            (r == Ordering::Equal) == (self@ == other@),
            (r == Ordering::Greater) == (self@ > other@),
    {
        let (s0, m0) = self.as_sign_words();
        let (s1, m1) = other.as_sign_words();
        match (s0, s1) {
            (crate::sign::Sign::Positive, crate::sign::Sign::Positive) => cmp_normalized(m0, m1),
            (crate::sign::Sign::Positive, crate::sign::Sign::Negative) => Ordering::Greater,
            (crate::sign::Sign::Negative, crate::sign::Sign::Positive) => Ordering::Less,
            (crate::sign::Sign::Negative, crate::sign::Sign::Negative) => cmp_normalized(m1, m0),
        }
    }

    /// Compare the magnitudes of two numbers.
    pub fn abs_cmp(&self, other: &IBig) -> (r: Ordering)
        ensures
            (r == Ordering::Less) == (spec_abs(self@) < spec_abs(other@)),
            (r == Ordering::Equal) == (spec_abs(self@) == spec_abs(other@)),
            (r == Ordering::Greater) == (spec_abs(self@) > spec_abs(other@)),
    {
        self.magnitude().cmp(other.magnitude())
    }

    /// Whether the magnitudes of two numbers are equal.
    pub fn abs_eq(&self, other: &IBig) -> (r: bool)
        ensures
            r == (spec_abs(self@) == spec_abs(other@)),
    {
        self.magnitude().check_same(other.magnitude())
    }
}

} // verus!
