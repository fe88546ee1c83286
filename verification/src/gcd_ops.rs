//! Greatest common divisor of big integers.
use vstd::prelude::*;
use vstd::arithmetic::power2::*;
use vstd::arithmetic::div_mod::*;
use vstd::arithmetic::mul::*;
use crate::arch::word::{DoubleWord, Word, SignedWord, SignedDoubleWord};
use crate::add::{add_in_place, sub_in_place};
use crate::ibig::{IBig, spec_abs, signed_value};
use crate::mul::mul_large;
use crate::sign::Sign;
use vstd::slice::slice_to_vec;
use crate::buffer::spec_max_capacity;
use crate::cmp::{words_less, words_equal};
use crate::div::{rem_by_word, rem_by_dword};
use crate::gcd::lehmer::{gcd_in_place, gcd_ext_in_place};
use crate::gcd::{
    spec_gcd, lemma_gcd_is_gcd, word_gcd, dword_gcd, lemma_gcd_comm, dword_gcd_ext, dword_unsigned_abs,
    word_unsigned_abs, gcd_ext_word, gcd_ext_dword,
};
use crate::primitive::{shrink_dword, lemma_pow2_widths};
use crate::shift::shr_in_place;
use crate::ubig::UBig;
use crate::words::{
    words_val, word_pow, is_normalized, lemma_word_pow, lemma_words_val_bound,
    lemma_words_val_lower, lemma_word_pow_monotone, lemma_words_val_div_pow,
    lemma_words_val_append, lemma_words_val_zeros, lemma_word_pow_adds, lemma_words_val_push, lemma_words_val_zero_iff,
};

verus! {

/// Drop the leading zero words.
pub(crate) fn trim_zeros(v: &mut Vec<Word>)
    ensures
        words_val(final(v)@) == words_val(old(v)@),
        is_normalized(final(v)@),
        final(v)@.len() <= old(v)@.len(),
{
    let ghost orig = v@;
    while v.len() > 0 && v[v.len() - 1] == 0
        invariant
            v@.len() <= orig.len(),
            words_val(v@) == words_val(orig),
        decreases v@.len(),
    {
        let ghost before = v@;
        v.pop();
        proof {
            assert(before =~= v@.push(0u64));
            lemma_words_val_push(v@, 0u64);
        }
    }
}

/// A normalized sequence below `B^m` has at most `m` words.
pub proof fn lemma_normalized_len_bound(s: Seq<Word>, m: nat)
    requires
        is_normalized(s),
        words_val(s) < word_pow(m),
    ensures
        s.len() <= m,
{
    if s.len() > m {
        lemma_words_val_lower(s);
        lemma_word_pow_monotone(m, (s.len() - 1) as nat);
    }
}


/// The words of `x / 2^bits` without leading zero words.
pub(crate) fn shr_bits(words: &[Word], bits: usize) -> (r: Vec<Word>)
    requires
        bits / 64 <= words@.len(),
    ensures
        words_val(r@) == words_val(words@) / pow2(bits as nat),
        is_normalized(r@),
        r@.len() <= words@.len(),
{
    let n = words.len();
    let k = bits / 64;
    let s = (bits % 64) as u32;
    let mut v: Vec<Word> = Vec::new();
    let mut i: usize = k;
    while i < n
        invariant
            k <= i <= n,
            n == words@.len(),
            v@ == words@.subrange(k as int, i as int),
        decreases n - i,
    {
        v.push(words[i]);
        i = i + 1;
        proof {
            assert(v@ =~= words@.subrange(k as int, i as int));
        }
    }
    let _ = shr_in_place(v.as_mut_slice(), s);
    proof {
        lemma_words_val_div_pow(words@, k as nat);
        lemma_word_pow(k as nat);
        lemma_pow2_pos(s as nat);
        lemma_div_denominator(words_val(words@) as int, word_pow(k as nat) as int, pow2(s as nat) as int);
        lemma_pow2_adds(64 * k as nat, s as nat);
        assert(bits as nat == 64 * k as nat + s as nat);
    }
    trim_zeros(&mut v);
    v
}






/// Greatest common divisor of two numbers of more than two words each, by Lehmer's algorithm.
fn gcd_large(lhs: &[Word], rhs: &[Word]) -> (r: UBig)
    requires
        lhs@.len() > 2,
        rhs@.len() > 2,
        is_normalized(lhs@),
        is_normalized(rhs@),
        lhs@.len() <= spec_max_capacity(),
        rhs@.len() <= spec_max_capacity(),
    ensures
        r@ == spec_gcd(words_val(lhs@), words_val(rhs@)),
{
    // make sure lhs > rhs
    if words_equal(lhs, rhs) {
        proof {
            crate::ubig::lemma_zero_iff_empty(lhs@);
            lemma_mod_self_0(words_val(lhs@) as int);
            assert(spec_gcd(words_val(rhs@), 0) == words_val(rhs@));
        }
        return UBig::from_words(lhs);
    }
    if words_less(lhs, rhs) {
        proof {
            lemma_gcd_comm(words_val(lhs@), words_val(rhs@));
        }
        gcd_in_place(slice_to_vec(rhs), slice_to_vec(lhs))
    } else {
        gcd_in_place(slice_to_vec(lhs), slice_to_vec(rhs))
    }
}

/// Greatest common divisor of a number of more than two words and a double word.
fn gcd_large_dword(words: &[Word], rhs: DoubleWord) -> (r: UBig)
    requires
        words@.len() > 2,
        words@.last() != 0,
        words@.len() <= spec_max_capacity(),
    ensures
        r@ == spec_gcd(words_val(words@), rhs as nat),
{
    if rhs == 0 {
        UBig::from_words(words)
    } else if let Some(word) = shrink_dword(rhs) {
        // reduce the large number by single word rhs
        let rem = rem_by_word(words, word);
        if rem == 0 {
            proof {
                assert(spec_gcd(word as nat, 0) == word);
            }
            UBig::from_word(word)
        } else {
            proof {
                lemma_gcd_comm(word as nat, rem as nat);
            }
            UBig::from_word(word_gcd(rem, word))
        }
    } else {
        // reduce the large number by double word rhs
        let rem = rem_by_dword(words, rhs);
        if rem == 0 {
            proof {
                assert(spec_gcd(rhs as nat, 0) == rhs);
            }
            UBig::from_dword(rhs)
        } else {
            proof {
                lemma_gcd_comm(rhs as nat, rem as nat);
            }
            UBig::from_dword(dword_gcd(rem, rhs))
        }
    }
}

impl UBig {
    /// Compute the greatest common divisor between self and the other operand.
    ///
    /// Panics if two operands are both zero.
    pub fn gcd(&self, rhs: &UBig) -> (r: UBig)
        requires
            self@ != 0 || rhs@ != 0,
        ensures
            r@ == spec_gcd(self@, rhs@),
    {
        match (self.as_dword(), rhs.as_dword()) {
            (Some(a), Some(b)) => UBig::from_dword(dword_gcd(a, b)),
            (Some(a), None) => {
                proof {
                    lemma_gcd_comm(self@, rhs@);
                }
                gcd_large_dword(rhs.as_words(), a)
            },
            (None, Some(b)) => gcd_large_dword(self.as_words(), b),
            (None, None) => gcd_large(self.as_words(), rhs.as_words()),
        }
    }
}

/// `x + q y`, for a result not above `bound`.
pub(crate) fn add_mul(x: &UBig, q: &UBig, y: &UBig, bound: &UBig) -> (r: UBig)
    requires
        x@ + q@ * y@ <= bound@,
    ensures
        r@ == x@ + q@ * y@,
{
    let xw = x.as_words();
    let bw = bound.as_words();
    let mut v = mul_large(q.as_words(), y.as_words());
    let ghost p = words_val(v@);
    let ghost len0 = v@.len();
    proof {
        lemma_words_val_bound(v@);
    }
    let m = if v.len() > xw.len() { v.len() + 1 } else { xw.len() + 1 };
    let mut i: usize = v.len();
    while i < m
        invariant
            v@.len() == i,
            i <= m,
            words_val(v@) == p,
        decreases m - i,
    {
        proof {
            lemma_words_val_push(v@, 0u64);
        }
        v.push(0);
        i = i + 1;
    }
    proof {
        // the sum stays below B^m
        lemma_words_val_bound(xw@);
        lemma_word_pow((m - 1) as nat);
        lemma_word_pow_monotone(xw@.len(), (m - 1) as nat);
        lemma_word_pow_monotone(len0, (m - 1) as nat);
        lemma_pow2_widths();
    }
    let overflow = add_in_place(v.as_mut_slice(), xw);
    trim_zeros(&mut v);
    proof {
        crate::words::lemma_normalized_len(bw@, v@);
    }
    UBig::from_vec(v)
}

/// The integer with the sign and magnitude of a signed double word.
fn ibig_from_dword(x: SignedDoubleWord) -> (r: IBig)
    ensures
        r@ == x,
{
    let mag = UBig::from_dword(dword_unsigned_abs(x));
    if x < 0 {
        IBig::from_parts(Sign::Negative, mag)
    } else {
        IBig::from_parts(Sign::Positive, mag)
    }
}

/// The integer with the sign and magnitude of a signed word.
fn ibig_from_word(x: SignedWord) -> (r: IBig)
    ensures
        r@ == x,
{
    let mag = UBig::from_word(word_unsigned_abs(x));
    if x < 0 {
        IBig::from_parts(Sign::Negative, mag)
    } else {
        IBig::from_parts(Sign::Positive, mag)
    }
}

/// Extended gcd of a number of more than two words and a double word.
fn gcd_ext_large_dword(words: &[Word], rhs: DoubleWord) -> (r: (UBig, IBig, IBig))
    requires
        words@.len() > 2,
        words@.len() <= spec_max_capacity(),
    ensures
        r.0@ == spec_gcd(words_val(words@), rhs as nat),
        words_val(words@) * r.1@ + rhs * r.2@ == r.0@,
{
    if rhs == 0 {
        proof {
            crate::gcd::lemma_gcd_zero(words_val(words@));
            lemma_mul_basics(words_val(words@) as int);
        }
        (UBig::from_words(words), IBig::one(), IBig::zero())
    } else if rhs <= u64::MAX as DoubleWord {
        let mut buffer = slice_to_vec(words);
        let (g, a, b_sign) = gcd_ext_word(buffer.as_mut_slice(), rhs as Word);
        (UBig::from_word(g), ibig_from_word(a), IBig::from_parts(b_sign, UBig::from_vec(buffer)))
    } else {
        let mut buffer = slice_to_vec(words);
        let (g, a, b_sign) = gcd_ext_dword(buffer.as_mut_slice(), rhs);
        (UBig::from_dword(g), ibig_from_dword(a), IBig::from_parts(b_sign, UBig::from_vec(buffer)))
    }
}

/// The greatest common divisor of `a` and a positive `b` is at most `b`.
proof fn lemma_gcd_le(a: nat, b: nat)
    requires
        b > 0,
    ensures
        0 < spec_gcd(a, b) <= b,
{
    lemma_gcd_is_gcd(a, b);
    if spec_gcd(a, b) > b {
        lemma_small_mod(b, spec_gcd(a, b));
    }
}

/// Extended gcd of `lhs > rhs`, both of more than two words, by Lehmer's algorithm: the
/// coefficient `b` of `rhs` comes from [gcd_ext_in_place], the coefficient of `lhs` is then
/// `a = (g - rhs b) / lhs`.
fn gcd_ext_ordered(lhs: &[Word], rhs: &[Word]) -> (r: (UBig, IBig, IBig))
    requires
        rhs@.len() > 2,
        is_normalized(lhs@),
        is_normalized(rhs@),
        words_val(lhs@) > words_val(rhs@),
        lhs@.len() + rhs@.len() <= spec_max_capacity(),
    ensures
        r.0@ == spec_gcd(words_val(lhs@), words_val(rhs@)),
        words_val(lhs@) * r.1@ + words_val(rhs@) * r.2@ == r.0@,
{
    let ghost l = words_val(lhs@) as int;
    let ghost rr = words_val(rhs@) as int;
    proof {
        crate::words::lemma_normalized_len(lhs@, rhs@);
        crate::ubig::lemma_zero_iff_empty(rhs@);
    }
    let (g, bmag, b_sign) = gcd_ext_in_place(slice_to_vec(lhs), slice_to_vec(rhs));
    let ghost b = signed_value(b_sign, bmag@);
    let ghost a = choose|a: int|
        #![trigger words_val(lhs@) * a]
        words_val(lhs@) * a + words_val(rhs@) * signed_value(b_sign, bmag@) == g@ && (b_sign
            == Sign::Positive ==> a <= 0) && (b_sign == Sign::Negative ==> a >= 0);
    let ghost am: int = if b_sign == Sign::Negative { a } else { -a };
    let gw = g.as_words();
    let bw = bmag.as_words();
    proof {
        lemma_gcd_le(l as nat, rr as nat);
        crate::words::lemma_normalized_len(rhs@, gw@);
        lemma_words_val_bound(lhs@);
        lemma_words_val_bound(rhs@);
        lemma_words_val_bound(gw@);
        // the residue r |b| -+ g is l |a|
        if b_sign == Sign::Negative {
            assert(l * a - rr * bmag@ == g@) by {
                lemma_mul_unary_negation(rr, bmag@ as int);
            }
        } else {
            assert(rr * bmag@ - g@ == l * am) by {
                lemma_mul_unary_negation(l, a);
            }
        }
        // and it is at most r (l + 1) <= r B^n
        lemma_mul_inequality(bmag@ as int, l, rr);
        lemma_mul_is_commutative(bmag@ as int, rr);
        lemma_mul_is_distributive_add(rr, l, 1);
        lemma_mul_inequality(l + 1, word_pow(lhs@.len()) as int, rr);
        lemma_mul_is_commutative(word_pow(lhs@.len()) as int, rr);
        lemma_mul_strict_inequality(rr, word_pow(rhs@.len()) as int, word_pow(lhs@.len()) as int);
        lemma_mul_is_commutative(rr, word_pow(lhs@.len()) as int);
        lemma_word_pow_adds(rhs@.len(), lhs@.len());
    }
    // residue = rhs |b|, with a word of room
    let mut residue = mul_large(rhs, bw);
    let ghost p = words_val(residue@);
    proof {
        lemma_words_val_bound(residue@);
        lemma_words_val_push(residue@, 0u64);
        lemma_word_pow(residue@.len());
        lemma_word_pow_monotone(rhs@.len(), residue@.len());
    }
    residue.push(0);
    match b_sign {
        Sign::Negative => {
            let _overflow = add_in_place(residue.as_mut_slice(), gw);
        },
        Sign::Positive => {
            let _borrow = sub_in_place(residue.as_mut_slice(), gw);
        },
    }
    assert(words_val(residue@) == l * am);
    trim_zeros(&mut residue);
    proof {
        lemma_normalized_len_bound(residue@, rhs@.len() + lhs@.len());
        lemma_mul_is_commutative(l, am);
        lemma_div_by_multiple(am, l);
    }
    let a_mag = UBig::from_vec(residue).div(&UBig::from_words(lhs));
    let a_coeff = IBig::from_parts(b_sign.negate(), a_mag);
    let b_coeff = IBig::from_parts(b_sign, bmag);
    (g, a_coeff, b_coeff)
}

/// Extended gcd of two numbers of more than two words each; for equal numbers the coefficients
/// are one and zero.
fn gcd_ext_large(lhs: &[Word], rhs: &[Word]) -> (r: (UBig, IBig, IBig))
    requires
        lhs@.len() > 2,
        rhs@.len() > 2,
        is_normalized(lhs@),
        is_normalized(rhs@),
        lhs@.len() + rhs@.len() <= spec_max_capacity(),
    ensures
        r.0@ == spec_gcd(words_val(lhs@), words_val(rhs@)),
        words_val(lhs@) * r.1@ + words_val(rhs@) * r.2@ == r.0@,
        words_val(lhs@) == words_val(rhs@) ==> r.1@ == 1 && r.2@ == 0,
{
    // make sure lhs > rhs
    if words_equal(lhs, rhs) {
        proof {
            crate::ubig::lemma_zero_iff_empty(lhs@);
            lemma_mod_self_0(words_val(lhs@) as int);
            assert(spec_gcd(words_val(rhs@), 0) == words_val(rhs@));
            lemma_mul_basics(words_val(lhs@) as int);
        }
        return (UBig::from_words(lhs), IBig::one(), IBig::zero());
    }
    if words_less(lhs, rhs) {
        let (g, b, a) = gcd_ext_ordered(rhs, lhs);
        proof {
            lemma_gcd_comm(words_val(lhs@), words_val(rhs@));
        }
        (g, a, b)
    } else {
        gcd_ext_ordered(lhs, rhs)
    }
}

impl UBig {
    /// Compute the greatest common divisor `g` between self and the other operand, and the
    /// Bézout coefficients `(x, y)` with `self * x + rhs * y == g`.
    ///
    /// Panics if two operands are both zero.
    pub fn gcd_ext(&self, rhs: &UBig) -> (r: (UBig, IBig, IBig))
        requires
            self@ != 0 || rhs@ != 0,
            self.spec_words().len() + rhs.spec_words().len() <= spec_max_capacity(),
        ensures
            r.0@ == spec_gcd(self@, rhs@),
            self@ * r.1@ + rhs@ * r.2@ == r.0@,
            self@ == rhs@ && self@ > u128::MAX ==> r.1@ == 1 && r.2@ == 0,
            self@ == rhs@ && self@ <= u128::MAX ==> r.1@ == 0 && r.2@ == 1,
            0 < self@ <= u128::MAX && 0 < rhs@ <= u128::MAX && self@ != rhs@ ==> 2 * spec_abs(
                r.1@,
            ) * r.0@ <= rhs@ && 2 * spec_abs(r.2@) * r.0@ <= self@,
    {
        match (self.as_dword(), rhs.as_dword()) {
            (Some(a), Some(b)) => {
                let (g, s, t) = dword_gcd_ext(a, b);
                (UBig::from_dword(g), ibig_from_dword(s), ibig_from_dword(t))
            },
            (None, Some(b)) => gcd_ext_large_dword(self.as_words(), b),
            (Some(a), None) => {
                let (g, s, t) = gcd_ext_large_dword(rhs.as_words(), a);
                proof {
                    lemma_gcd_comm(self@, rhs@);
                }
                (g, t, s)
            },
            (None, None) => gcd_ext_large(self.as_words(), rhs.as_words()),
        }
    }
}

} // verus!
