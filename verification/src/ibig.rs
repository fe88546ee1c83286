//! Signed big integer.
use vstd::prelude::*;
use crate::arch::word::{DoubleWord, Word};
use crate::sign::{Sign, sign_factor};
use crate::ubig::UBig;
use crate::buffer::spec_max_capacity;
use crate::words::{words_val, is_normalized};

verus! {

/// An signed arbitrary precision integer: a [Sign] and a [UBig] magnitude.
///
/// Zero always has the positive sign.
#[derive(Debug)]
pub struct IBig {
    sign: Sign,
    mag: UBig,
}

impl View for IBig {
    type V = int;

    closed spec fn view(&self) -> int {
        sign_factor(self.sign) * (self.mag@ as int)
    }
}

/// Absolute value.
pub open spec fn spec_abs(x: int) -> nat {
    if x < 0 { (-x) as nat } else { x as nat }
}

/// The sign of an integer, zero being positive.
pub open spec fn spec_sign(x: int) -> Sign {
    if x < 0 { Sign::Negative } else { Sign::Positive }
}

/// The integer with the given sign and magnitude (zero when the magnitude is zero).
pub open spec fn signed_value(sign: Sign, mag: nat) -> int {
    if sign == Sign::Negative { -(mag as int) } else { mag as int }
}

impl IBig {
    #[verifier::type_invariant]
    closed spec fn inv(self) -> bool {
        self.mag@ == 0 ==> self.sign == Sign::Positive
    }

    /// The magnitude of the number.
    pub closed spec fn spec_mag(&self) -> UBig {
        self.mag
    }

    /// Get the raw representation in [Word]s.
    ///
    /// If the number is zero, then empty slice will be returned.
    pub fn as_sign_words(&self) -> (r: (Sign, &[Word]))
        ensures
            r.0 == spec_sign(self@),
            words_val(r.1@) == spec_abs(self@),
            is_normalized(r.1@),
            r.1@.len() <= spec_max_capacity(),
    {
        proof {
            use_type_invariant(self);
        }
        (self.sign, self.mag.as_words())
    }

    /// Get the sign of the number. Zero value has a positive sign.
    pub fn sign(&self) -> (r: Sign)
        ensures
            r == spec_sign(self@),
    {
        proof {
            use_type_invariant(self);
        }
        self.sign
    }

    /// The magnitude of the number.
    pub fn magnitude(&self) -> (r: &UBig)
        ensures
            r@ == spec_abs(self@),
    {
        proof {
            use_type_invariant(self);
        }
        &self.mag
    }

    /// Convert the [IBig] into its [Sign] and [UBig] magnitude
    pub fn into_parts(self) -> (r: (Sign, UBig))
        ensures
            r.0 == spec_sign(self@),
            r.1@ == spec_abs(self@),
    {
        proof {
            use_type_invariant(&self);
        }
        (self.sign, self.mag)
    }

    /// Create an [IBig] from the [Sign] and [UBig] magnitude
    pub fn from_parts(sign: Sign, magnitude: UBig) -> (r: IBig)
        ensures
            r@ == signed_value(sign, magnitude@),
    {
        if magnitude.is_zero() {
            IBig { sign: Sign::Positive, mag: magnitude }
        } else {
            IBig { sign, mag: magnitude }
        }
    }

    /// Create an IBig from a sign and a double word magnitude.
    pub fn from_parts_const(sign: Sign, dword: DoubleWord) -> (r: IBig)
        ensures
            r@ == signed_value(sign, dword as nat),
    {
        Self::from_parts(sign, UBig::from_dword(dword))
    }

    /// [IBig] with value 0
    pub fn zero() -> (r: IBig)
        ensures
            r@ == 0,
    {
        IBig { sign: Sign::Positive, mag: UBig::zero() }
    }

    /// [IBig] with value 1
    pub fn one() -> (r: IBig)
        ensures
            r@ == 1,
    {
        IBig { sign: Sign::Positive, mag: UBig::one() }
    }

    /// [IBig] with value -1
    pub fn neg_one() -> (r: IBig)
        ensures
            r@ == -1,
    {
        IBig { sign: Sign::Negative, mag: UBig::one() }
    }

    /// Check whether the number is 0
    pub fn is_zero(&self) -> (r: bool)
        ensures
            r == (self@ == 0),
    {
        self.mag.is_zero()
    }

    /// Check whether the number is 1
    pub fn is_one(&self) -> (r: bool)
        ensures
            r == (self@ == 1),
    {
        self.sign == Sign::Positive && self.mag.is_one()
    }

    /// A copy of the number.
    pub fn copy(&self) -> (r: IBig)
        ensures
            r@ == self@,
    {
        proof {
            use_type_invariant(self);
        }
        IBig { sign: self.sign, mag: self.mag.copy() }
    }

    /// Negation.
    pub fn negate(self) -> (r: IBig)
        ensures
            r@ == -self@,
    {
        proof {
            use_type_invariant(&self);
        }
        Self::from_parts(self.sign.negate(), self.mag)
    }
}

/// The value of a number is its signed magnitude; zero is positive.
proof fn lemma_view_parts(x: &IBig)
    requires
        x.mag@ == 0 ==> x.sign == Sign::Positive,
    ensures
        x@ == signed_value(x.sign, x.mag@),
        spec_sign(x@) == x.sign,
        spec_abs(x@) == x.mag@,
{
}

impl PartialEq for IBig {
    fn eq(&self, other: &Self) -> (r: bool) {
        proof {
            use_type_invariant(self);
            use_type_invariant(other);
            lemma_view_parts(self);
            lemma_view_parts(other);
        }
        self.sign == other.sign && self.mag.check_same(&other.mag)
    }
}

impl vstd::std_specs::cmp::PartialEqSpecImpl for IBig {
    open spec fn obeys_eq_spec() -> bool {
        true
    }

    open spec fn eq_spec(&self, other: &Self) -> bool {
        self@ == other@
    }
}

impl Eq for IBig {
}

} // verus!
