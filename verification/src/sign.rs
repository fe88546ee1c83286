//! Sign of an integer.
use vstd::prelude::*;

verus! {

/// An enum representing the sign of a number.
#[derive(Clone, Copy, Debug, PartialEq, Eq, Structural)]
pub enum Sign {
    /// Non-negative.
    Positive,
    /// Negative.
    Negative,
}

impl Sign {
    /// The sign with the other polarity.
    pub fn negate(self) -> (r: Sign)
        ensures
            r == (if self == Sign::Positive { Sign::Negative } else { Sign::Positive }),
    {
        match self {
            Sign::Positive => Sign::Negative,
            Sign::Negative => Sign::Positive,
        }
    }

    /// The sign of a product.
    pub fn times(self, other: Sign) -> (r: Sign)
        ensures
            r == (if self == other { Sign::Positive } else { Sign::Negative }),
    {
        if self == other {
            Sign::Positive
        } else {
            Sign::Negative
        }
    }
}

/// `+1` or `-1` as an integer.
pub open spec fn sign_factor(s: Sign) -> int {
    if s == Sign::Positive { 1 } else { -1 }
}

} // verus!
