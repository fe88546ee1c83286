//! Digits of integers in a radix, and the layout of a formatted integer.
use vstd::prelude::*;
use vstd::arithmetic::power::*;
use vstd::arithmetic::div_mod::*;
use vstd::arithmetic::mul::*;
use crate::arch::word::Word;
use crate::div::div_by_word_in_place;
use crate::gcd_ops::trim_zeros;
use crate::ibig::{IBig, spec_abs, spec_sign};
use crate::radix::{Digit, DigitCase, spec_is_radix_valid, spec_digit_ascii, digit_to_ascii};
use crate::sign::Sign;
use crate::ubig::UBig;
use crate::words::{words_val, is_normalized, lemma_words_val_zero_iff};

verus! {

/// The number written by the digits, least significant digit first.
pub open spec fn digits_value_le(ds: Seq<u8>, radix: nat) -> nat
    decreases ds.len(),
{
    if ds.len() == 0 {
        0
    } else {
        (ds[0] as nat) + radix * digits_value_le(ds.subrange(1, ds.len() as int), radix)
    }
}

/// The number written by the digits, most significant digit first.
pub open spec fn digits_value(ds: Seq<u8>, radix: nat) -> nat
    decreases ds.len(),
{
    if ds.len() == 0 {
        0
    } else {
        digits_value(ds.drop_last(), radix) * radix + (ds.last() as nat)
    }
}

/// The digits of a number in a radix, most significant first: at least one digit, each below
/// the radix, and no leading zero digit unless the number is zero.
pub open spec fn is_digits_of(ds: Seq<u8>, radix: nat, x: nat) -> bool {
    &&& ds.len() > 0
    &&& digits_value(ds, radix) == x
    &&& forall|i: int| 0 <= i < ds.len() ==> ds[i] < radix
    &&& (ds[0] == 0 ==> ds.len() == 1)
}

/// Appending a most significant digit to little-endian digits: `d radix^len` more.
proof fn lemma_digits_value_le_push(ds: Seq<u8>, d: u8, radix: nat)
    ensures
        digits_value_le(ds.push(d), radix) == digits_value_le(ds, radix) + d * pow(
            radix as int,
            ds.len(),
        ),
    decreases ds.len(),
{
    reveal(pow);
    let s = ds.push(d);
    if ds.len() == 0 {
        assert(s.subrange(1, 1) =~= Seq::<u8>::empty());
        assert(digits_value_le(Seq::<u8>::empty(), radix) == 0);
        assert(pow(radix as int, 0) == 1);
        assert(digits_value_le(s, radix) == s[0] + radix * digits_value_le(s.subrange(1, 1), radix));
        lemma_mul_basics(radix as int);
    } else {
        let rest = ds.subrange(1, ds.len() as int);
        assert(s.subrange(1, s.len() as int) =~= rest.push(d));
        lemma_digits_value_le_push(rest, d, radix);
        let p = pow(radix as int, rest.len());
        assert(pow(radix as int, ds.len()) == radix * p);
        assert(digits_value_le(s, radix) == s[0] + radix * digits_value_le(rest.push(d), radix));
        assert(s[0] == ds[0]);
        assert(radix * (digits_value_le(rest, radix) + d * p) == radix * digits_value_le(rest, radix)
            + d * (radix * p)) by (nonlinear_arith);
    }
}

/// Reversing little-endian digits gives the digits most significant first.
proof fn lemma_digits_value_reverse(ds: Seq<u8>, radix: nat)
    ensures
        digits_value(ds.reverse(), radix) == digits_value_le(ds, radix),
    decreases ds.len(),
{
    if ds.len() > 0 {
        let rest = ds.subrange(1, ds.len() as int);
        lemma_digits_value_reverse(rest, radix);
        let r = ds.reverse();
        assert(r.drop_last() =~= rest.reverse());
        assert(r.last() == ds[0]);
        lemma_mul_is_commutative(digits_value_le(rest, radix) as int, radix as int);
    }
}

/// The digits of the number given by its words in a radix, least significant first.
fn digits_le(words: &[Word], radix: Digit) -> (r: Vec<u8>)
    requires
        spec_is_radix_valid(radix as nat),
        is_normalized(words@),
    ensures
        r@.len() > 0,
        digits_value_le(r@, radix as nat) == words_val(words@),
        forall|i: int| 0 <= i < r@.len() ==> r@[i] < radix,
        r@.last() == 0 ==> r@.len() == 1,
{
    let ghost x = words_val(words@);
    let mut buf: Vec<Word> = Vec::new();
    let mut i: usize = 0;
    while i < words.len()
        invariant
            i <= words@.len(),
            buf@ == words@.subrange(0, i as int),
        decreases words@.len() - i,
    {
        buf.push(words[i]);
        i = i + 1;
        proof {
            assert(buf@ =~= words@.subrange(0, i as int));
        }
    }
    proof {
        assert(buf@ =~= words@);
        reveal(pow);
    }
    let mut digits: Vec<u8> = Vec::new();
    loop
        invariant_except_break
            digits@.len() > 0 ==> words_val(buf@) > 0,
        invariant
            spec_is_radix_valid(radix as nat),
            is_normalized(buf@),
            x == digits_value_le(digits@, radix as nat) + pow(radix as int, digits@.len())
                * words_val(buf@),
            forall|j: int| 0 <= j < digits@.len() ==> digits@[j] < radix,
        ensures
            digits@.len() > 0,
            words_val(buf@) == 0,
            x == digits_value_le(digits@, radix as nat),
            forall|j: int| 0 <= j < digits@.len() ==> digits@[j] < radix,
            digits@.last() == 0 ==> digits@.len() == 1,
        decreases words_val(buf@),
    {
        let ghost before = words_val(buf@);
        let ghost k = digits@.len();
        let d = div_by_word_in_place(buf.as_mut_slice(), radix as Word);
        trim_zeros(&mut buf);
        proof {
            lemma_words_val_zero_iff(buf@);
            lemma_fundamental_div_mod(before as int, radix as int);
            lemma_mod_bound(before as int, radix as int);
            lemma_digits_value_le_push(digits@, d as u8, radix as nat);
            lemma_pow_positive(radix as int, k);
            let q = words_val(buf@) as int;
            let p = pow(radix as int, k);
            reveal(pow);
            assert(pow(radix as int, k + 1) == radix * p);
            assert(p * before == d * p + (radix * p) * q) by (nonlinear_arith)
                requires
                    before == radix * q + d,
            ;
            if before > 0 {
                lemma_div_is_strictly_smaller(before as int, radix as int);
            }
        }
        let ghost was_empty = digits@.len() == 0;
        digits.push(d as u8);
        if buf.len() == 0 {
            proof {
                lemma_words_val_zero_iff(buf@);
                lemma_mul_basics(pow(radix as int, digits@.len()));
                lemma_mul_basics(radix as int);
                assert(before == d);
                if !was_empty {
                    assert(before > 0);
                    assert(digits@.last() == d);
                }
            }
            break;
        }
    }
    digits
}

/// Representation of an integer in a radix between 2 and 36.
pub struct InRadix {
    sign: Sign,
    magnitude: UBig,
    radix: Digit,
}

impl InRadix {
    /// The sign.
    pub closed spec fn spec_sign(&self) -> Sign {
        self.sign
    }

    /// The magnitude.
    pub closed spec fn spec_magnitude(&self) -> nat {
        self.magnitude@
    }

    /// The radix.
    pub closed spec fn spec_radix(&self) -> nat {
        self.radix as nat
    }

    /// The radix is valid and zero has the positive sign.
    pub closed spec fn wf(&self) -> bool {
        &&& spec_is_radix_valid(self.radix as nat)
        &&& self.magnitude@ == 0 ==> self.sign == Sign::Positive
    }

    /// The digits of the magnitude, most significant first.
    pub fn digits(&self) -> (r: Vec<u8>)
        requires
            self.wf(),
        ensures
            is_digits_of(r@, self.spec_radix(), self.spec_magnitude()),
    {
        let rev = digits_le(self.magnitude.as_words(), self.radix);
        let n = rev.len();
        let mut out: Vec<u8> = Vec::new();
        let mut i: usize = 0;
        while i < n
            invariant
                n == rev@.len(),
                i <= n,
                out@.len() == i,
                forall|j: int| 0 <= j < i ==> out@[j] == rev@[n - 1 - j],
            decreases n - i,
        {
            out.push(rev[n - 1 - i]);
            i = i + 1;
        }
        proof {
            assert(out@ =~= rev@.reverse());
            lemma_digits_value_reverse(rev@, self.radix as nat);
        }
        out
    }

    /// The letter case that the digits are written in: digits alone up to radix 10, upper-case
    /// letters in the alternate form, lower-case letters otherwise.
    pub fn digit_case(&self, alternate: bool) -> (r: DigitCase)
        ensures
            r == spec_digit_case(self.spec_radix(), alternate),
            (r == DigitCase::NoLetters) == (self.spec_radix() <= 10),
            self.spec_radix() > 10 ==> ((r == DigitCase::Upper) == alternate),
    {
        if self.radix <= 10 {
            DigitCase::NoLetters
        } else if alternate {
            DigitCase::Upper
        } else {
            DigitCase::Lower
        }
    }

    /// The text of the number: a minus sign when negative, then the digits in ASCII.
    pub fn to_ascii(&self, alternate: bool) -> (r: Vec<u8>)
        requires
            self.wf(),
        ensures
            self.spec_sign() == Sign::Negative ==> r@.len() > 0 && r@[0] == 45,
            ({
                let start = if self.spec_sign() == Sign::Negative { 1int } else { 0int };
                let ds = r@.subrange(start, r@.len() as int);
                exists|digits: Seq<u8>|
                    #![trigger is_digits_of(digits, self.spec_radix(), self.spec_magnitude())]
                    is_digits_of(digits, self.spec_radix(), self.spec_magnitude()) && ds.len()
                        == digits.len() && (forall|i: int|
                        0 <= i < ds.len() ==> ds[i] == spec_digit_ascii(
                            digits[i] as nat,
                            spec_digit_case(self.spec_radix(), alternate),
                        )) && (forall|i: int|
                        0 <= i < ds.len() ==> ds[i] == written_digit(digits[i] as nat, alternate))
            }),
    {
        let digits = self.digits();
        let case = self.digit_case(alternate);
        let mut out: Vec<u8> = Vec::new();
        if self.sign == Sign::Negative {
            out.push(45u8);
        }
        let start = out.len();
        let n = digits.len();
        let mut i: usize = 0;
        while i < n
            invariant
                n == digits@.len(),
                i <= n,
                start <= 1,
                out@.len() == start + i,
                self.spec_sign() == Sign::Negative ==> start == 1 && out@[0] == 45,
                self.spec_sign() != Sign::Negative ==> start == 0,
                forall|j: int| 0 <= j < n ==> digits@[j] < self.spec_radix(),
                spec_is_radix_valid(self.spec_radix()),
                forall|j: int|
                    0 <= j < i ==> out@[start + j] == spec_digit_ascii(digits@[j] as nat, case),
            decreases n - i,
        {
            let d = digits[i];
            out.push(digit_to_ascii(d, case));
            i = i + 1;
        }
        proof {
            let ds = out@.subrange(start as int, out@.len() as int);
            assert forall|j: int| 0 <= j < ds.len() implies ds[j] == spec_digit_ascii(
                digits@[j] as nat,
                case,
            ) by {
                assert(ds[j] == out@[start + j]);
            }
            assert(is_digits_of(digits@, self.spec_radix(), self.spec_magnitude()));
            assert forall|j: int| 0 <= j < ds.len() implies ds[j] == written_digit(
                digits@[j] as nat,
                alternate,
            ) by {
                assert(ds[j] == out@[start + j]);
                lemma_digit_characters(self.spec_radix(), alternate, digits@[j] as nat);
            }
        }
        out
    }
}

/// The character that writes the digit `d`: `'0'` to `'9'` for digits below ten, then the
/// letters from `'a'` (or from `'A'` in the alternate form).
pub open spec fn written_digit(d: nat, alternate: bool) -> nat {
    if d < 10 {
        48 + d
    } else if alternate {
        (65 + d - 10) as nat
    } else {
        (97 + d - 10) as nat
    }
}

/// How a digit of a valid radix is written: a digit below ten as `'0' + d`, a digit `d >= 10`
/// as the letter `'a' + (d - 10)`, or `'A' + (d - 10)` in the alternate form, so that every
/// written character is an ASCII digit or letter.
pub proof fn lemma_digit_characters(radix: nat, alternate: bool, d: nat)
    requires
        spec_is_radix_valid(radix),
        d < radix,
    ensures
        spec_digit_ascii(d, spec_digit_case(radix, alternate)) == written_digit(d, alternate),
        d < 10 ==> 48 <= written_digit(d, alternate) <= 57,
        d >= 10 && !alternate ==> 97 <= written_digit(d, alternate) <= 122,
        d >= 10 && alternate ==> 65 <= written_digit(d, alternate) <= 90,
{
}

/// The letter case used for a radix: digits alone up to radix 10, upper-case letters in the
/// alternate form, lower-case letters otherwise.
pub open spec fn spec_digit_case(radix: nat, alternate: bool) -> DigitCase {
    if radix <= 10 {
        DigitCase::NoLetters
    } else if alternate {
        DigitCase::Upper
    } else {
        DigitCase::Lower
    }
}

impl UBig {
    /// Representation in a given radix.
    ///
    /// # Panics
    ///
    /// Panics if `radix` is not between 2 and 36 inclusive.
    pub fn in_radix(&self, radix: u32) -> (r: InRadix)
        requires
            spec_is_radix_valid(radix as nat),
        ensures
            r.wf(),
            r.spec_sign() == Sign::Positive,
            r.spec_magnitude() == self@,
            r.spec_radix() == radix,
    {
        InRadix { sign: Sign::Positive, magnitude: self.copy(), radix }
    }
}

impl IBig {
    /// Representation in a given radix.
    ///
    /// # Panics
    ///
    /// Panics if `radix` is not between 2 and 36 inclusive.
    pub fn in_radix(&self, radix: u32) -> (r: InRadix)
        requires
            spec_is_radix_valid(radix as nat),
        ensures
            r.wf(),
            r.spec_sign() == spec_sign(self@),
            r.spec_magnitude() == spec_abs(self@),
            r.spec_radix() == radix,
    {
        let sign = self.sign();
        InRadix { sign, magnitude: self.magnitude().copy(), radix }
    }
}

/// How a formatted number is aligned when it is shorter than the requested width.
#[derive(Clone, Copy, Debug, PartialEq, Eq, Structural)]
pub enum Align {
    /// No alignment was requested.
    Unspecified,
    /// Fill on the right.
    Left,
    /// Fill on the left.
    Right,
    /// Fill on both sides, the left side getting the smaller half.
    Center,
}

/// The sign printed before a number.
#[derive(Clone, Copy, Debug, PartialEq, Eq, Structural)]
pub enum SignText {
    /// Nothing.
    Empty,
    /// `-`.
    Minus,
    /// `+`.
    Plus,
}

/// The padding around a formatted number: fill characters on the left, then the sign and the
/// prefix, then zeros, then the digits, then fill characters on the right.
#[derive(Clone, Copy, Debug, PartialEq, Eq, Structural)]
pub struct Padding {
    /// Fill characters before the sign.
    pub left_fill: usize,
    /// Zeros between the prefix and the digits.
    pub zeros: usize,
    /// Fill characters after the digits.
    pub right_fill: usize,
}

/// The sign to print: minus for a negative number, plus when requested, nothing otherwise.
pub fn sign_text(sign: Sign, sign_plus: bool) -> (r: SignText)
    ensures
        r == (if sign == Sign::Negative {
            SignText::Minus
        } else if sign_plus {
            SignText::Plus
        } else {
            SignText::Empty
        }),
{
    if sign == Sign::Negative {
        SignText::Minus
    } else if sign_plus {
        SignText::Plus
    } else {
        SignText::Empty
    }
}

/// The padding of a number whose sign, prefix and digits take `width` characters, for a minimum
/// width, sign-aware zero padding and an alignment.
pub fn padding(width: usize, min_width: Option<usize>, zero_pad: bool, align: Align) -> (r: Padding)
    ensures
        match min_width {
            None => r == Padding { left_fill: 0, zeros: 0, right_fill: 0 },
            Some(m) => if width >= m {
                r == Padding { left_fill: 0, zeros: 0, right_fill: 0 }
            } else if zero_pad {
                r == Padding { left_fill: 0, zeros: (m - width) as usize, right_fill: 0 }
            } else {
                &&& r.zeros == 0
                &&& r.left_fill + r.right_fill == m - width
                &&& r.left_fill == match align {
                    Align::Left => 0,
                    Align::Right | Align::Unspecified => m - width,
                    Align::Center => (m - width) / 2,
                }
            },
        },
{
    match min_width {
        None => Padding { left_fill: 0, zeros: 0, right_fill: 0 },
        Some(min_width) => {
            if width >= min_width {
                Padding { left_fill: 0, zeros: 0, right_fill: 0 }
            } else if zero_pad {
                Padding { left_fill: 0, zeros: min_width - width, right_fill: 0 }
            } else {
                let left_pad = match align {
                    Align::Left => 0,
                    Align::Right | Align::Unspecified => min_width - width,
                    Align::Center => (min_width - width) / 2,
                };
                Padding { left_fill: left_pad, zeros: 0, right_fill: min_width - width - left_pad }
            }
        },
    }
}

/// The decimal digits of a `usize`, in ASCII.
pub fn write_usize_decimals(u: usize) -> (r: Vec<u8>)
    ensures
        exists|digits: Seq<u8>|
            #![trigger is_digits_of(digits, 10, u as nat)]
            is_digits_of(digits, 10, u as nat) && r@.len() == digits.len() && forall|i: int|
                0 <= i < r@.len() ==> r@[i] == 48 + digits[i],
{
    let n = UBig::from_word(u as Word);
    let in_radix = n.in_radix(10);
    let digits = in_radix.digits();
    let mut out: Vec<u8> = Vec::new();
    let mut i: usize = 0;
    while i < digits.len()
        invariant
            i <= digits@.len(),
            out@.len() == i,
            forall|j: int| 0 <= j < digits@.len() ==> digits@[j] < 10,
            forall|j: int| 0 <= j < i ==> out@[j] == 48 + digits@[j],
        decreases digits@.len() - i,
    {
        out.push(48u8 + digits[i]);
        i = i + 1;
    }
    proof {
        assert(is_digits_of(digits@, 10, u as nat));
    }
    out
}


/// Digits written one after the other: the first part shifted past the second.
proof fn lemma_digits_value_concat(a: Seq<u8>, b: Seq<u8>, radix: nat)
    ensures
        digits_value(a + b, radix) == digits_value(a, radix) * pow(radix as int, b.len())
            + digits_value(b, radix),
    decreases b.len(),
{
    reveal(pow);
    if b.len() == 0 {
        assert(a + b =~= a);
        lemma_mul_basics(digits_value(a, radix) as int);
    } else {
        let b1 = b.drop_last();
        assert((a + b).drop_last() =~= a + b1);
        assert((a + b).last() == b.last());
        lemma_digits_value_concat(a, b1, radix);
        let p = pow(radix as int, b1.len());
        assert(pow(radix as int, b.len()) == radix * p);
        let va = digits_value(a, radix) as int;
        let vb = digits_value(b1, radix) as int;
        assert((va * p + vb) * radix == va * (radix * p) + vb * radix) by (nonlinear_arith);
    }
}

/// Digits below the radix write a number below `radix^len`.
proof fn lemma_digits_value_bound(ds: Seq<u8>, radix: nat)
    requires
        forall|i: int| 0 <= i < ds.len() ==> ds[i] < radix,
    ensures
        digits_value(ds, radix) < pow(radix as int, ds.len()),
    decreases ds.len(),
{
    reveal(pow);
    if ds.len() > 0 {
        let d1 = ds.drop_last();
        lemma_digits_value_bound(d1, radix);
        let p = pow(radix as int, d1.len());
        let v = digits_value(d1, radix) as int;
        assert(ds.last() == ds[ds.len() - 1]);
        assert(v * radix + ds.last() < radix * p) by (nonlinear_arith)
            requires
                v < p,
                ds.last() < radix,
        ;
    }
}

/// A number with `n` digits and a nonzero leading one is at least `radix^(n - 1)`.
proof fn lemma_digits_value_lower(ds: Seq<u8>, radix: nat)
    requires
        ds.len() > 0,
        ds[0] > 0,
        radix > 0,
    ensures
        digits_value(ds, radix) >= pow(radix as int, (ds.len() - 1) as nat),
{
    let head = seq![ds[0]];
    let rest = ds.subrange(1, ds.len() as int);
    assert(head + rest =~= ds);
    lemma_digits_value_concat(head, rest, radix);
    assert(head.drop_last() =~= Seq::<u8>::empty());
    assert(digits_value(Seq::<u8>::empty(), radix) == 0);
    lemma_mul_basics(radix as int);
    assert(digits_value(head, radix) == ds[0]);
    lemma_pow_positive(radix as int, rest.len());
    lemma_mul_increases(ds[0] as int, pow(radix as int, rest.len()));
}

/// A copy of `len` elements of `ds` from `start` on.
fn digits_window(ds: &Vec<u8>, start: usize, len: usize) -> (r: Vec<u8>)
    requires
        start + len <= ds@.len(),
    ensures
        r@ == ds@.subrange(start as int, start + len),
{
    let mut r: Vec<u8> = Vec::new();
    let mut i: usize = 0;
    while i < len
        invariant
            start + len <= ds.len(),
            i <= len,
            r@ == ds@.subrange(start as int, start + i),
        decreases len - i,
    {
        r.push(ds[start + i]);
        i = i + 1;
        proof {
            assert(r@ =~= ds@.subrange(start as int, start + i));
        }
    }
    r
}

/// The decimal digits of a number in the compact form of its debug text.
///
/// The last part is the number of decimal digits (none for zero). A number that fits in a
/// double word comes whole (its digits, most significant first, and `None`); a larger one
/// comes as its 19 leading digits and its 19 trailing digits, the latter padded with zeros.
pub fn debug_parts(x: &UBig) -> (r: (Vec<u8>, Option<Vec<u8>>, usize))
    ensures
        x@ == 0 ==> r.2 == 0,
        x@ > 0 ==> pow(10, (r.2 - 1) as nat) <= x@ < pow(10, r.2 as nat),
        x@ <= u128::MAX ==> r.1 is None && is_digits_of(r.0@, 10, x@),
        x@ > u128::MAX ==> is_digits_of(r.0@, 10, (x@ as int / pow(10, (r.2 - 19) as nat)) as nat) && r.0@.len()
            == 19,
        x@ > u128::MAX ==> (r.1 matches Some(low) && low@.len() == 19 && digits_value(low@, 10)
            == x@ as int % pow(10, 19) && forall|i: int| 0 <= i < 19 ==> low@[i] < 10),
{
    let le = digits_le(x.as_words(), 10);
    let n = le.len();
    let mut all: Vec<u8> = Vec::new();
    let mut i: usize = 0;
    while i < n
        invariant
            n == le@.len(),
            i <= n,
            all@.len() == i,
            forall|j: int| 0 <= j < i ==> all@[j] == le@[n - 1 - j],
        decreases n - i,
    {
        all.push(le[n - 1 - i]);
        i = i + 1;
    }
    proof {
        assert(all@ =~= le@.reverse());
        lemma_digits_value_reverse(le@, 10);
        assert(is_digits_of(all@, 10, x@));
        lemma_digits_value_bound(all@, 10);
        if all@[0] > 0 {
            lemma_digits_value_lower(all@, 10);
            lemma_pow_positive(10, (n - 1) as nat);
        } else {
            assert(all@ =~= seq![0u8]);
            assert(all@.drop_last() =~= Seq::<u8>::empty());
            assert(digits_value(Seq::<u8>::empty(), 10) == 0);
            assert(x@ == 0);
        }
    }
    let count: usize = if all[0] == 0 { 0 } else { n };
    if x.as_dword().is_some() {
        return (all, None, count);
    }
    proof {
        reveal_with_fuel(pow, 40);
        assert(pow(10, 38) == 100000000000000000000000000000000000000int);
        assert(pow(10, 19) == 10000000000000000000int);
        if n <= 38 {
            lemma_pow_increases(10, n as nat, 38);
        }
    }
    let high = digits_window(&all, 0, 19);
    let low = digits_window(&all, n - 19, 19);
    proof {
        let s = all@;
        let rest = s.subrange(19, n as int);
        assert(high@ + rest =~= s);
        lemma_digits_value_concat(high@, rest, 10);
        lemma_digits_value_bound(rest, 10);
        lemma_fundamental_div_mod_converse(x@ as int, pow(10, rest.len()),
            digits_value(high@, 10) as int, digits_value(rest, 10) as int);
        assert(high@[0] == s[0]);
        let front = s.subrange(0, n - 19);
        assert(front + low@ =~= s);
        lemma_digits_value_concat(front, low@, 10);
        lemma_digits_value_bound(low@, 10);
        lemma_fundamental_div_mod_converse(x@ as int, pow(10, 19),
            digits_value(front, 10) as int, digits_value(low@, 10) as int);
    }
    (high, Some(low), count)
}

} // verus!
