//! Division and remainder of big integers.
use vstd::prelude::*;
use vstd::arithmetic::power2::*;
use vstd::arithmetic::div_mod::*;
use vstd::arithmetic::mul::*;
use vstd::slice::slice_to_vec;
use crate::arch::word::{DoubleWord, Word};
use crate::buffer::spec_max_capacity;
use crate::div::{
    div_by_word_in_place, div_by_dword_in_place, normalize, div_rem_unshifted_in_place, rem_by_word,
    rem_by_dword,
};
use crate::ibig::{IBig, spec_abs, spec_sign, signed_value};
use crate::primitive::word_base;
use crate::shift::shr_in_place;
use crate::sign::{Sign, sign_factor};
use crate::ubig::UBig;
use crate::words::{
    words_val, word_pow, window_val, is_normalized, lemma_word_pow, lemma_words_val_bound,
    lemma_words_val_lower, lemma_window_split,
};

verus! {

/// Divide `lhs` by `rhs` (of at least two words, not longer than `lhs`) in place: `rhs` is
/// normalized by a left shift, whose amount is returned; the low `rhs.len()` words of `lhs`
/// become the remainder shifted by that amount, and the words above them the quotient.
fn div_rem_in_lhs(lhs: &mut Vec<Word>, rhs: &mut Vec<Word>) -> (shift: u32)
    requires
        old(rhs)@.len() >= 2,
        old(rhs)@.last() != 0,
        old(lhs)@.len() >= old(rhs)@.len(),
        old(lhs)@.len() <= spec_max_capacity(),
    ensures
        shift < 64,
        final(rhs)@.len() == old(rhs)@.len(),
        final(lhs)@.len() == old(lhs)@.len() + 1,
        window_val(final(lhs)@, 0, old(rhs)@.len() as int) == (words_val(old(lhs)@) % words_val(
            old(rhs)@,
        )) * pow2(shift as nat),
        window_val(final(lhs)@, old(rhs)@.len() as int, old(lhs)@.len() - old(rhs)@.len() + 1)
            == words_val(old(lhs)@) / words_val(old(rhs)@),
{
    let n = rhs.len();
    let l = lhs.len();
    let ghost orig_l = lhs@;
    let ghost big_b = words_val(rhs@) as int;
    let (shift, fast_div_top) = normalize(rhs.as_mut_slice());
    let ghost p = pow2(shift as nat) as int;
    proof {
        lemma_pow2_pos(shift as nat);
        lemma_words_val_lower(old(rhs)@);
        lemma_mul_inequality(word_pow((n - 1) as nat) as int, big_b, p);
        lemma_mul_is_commutative(word_pow((n - 1) as nat) as int, p);
    }
    let q_top = div_rem_unshifted_in_place(lhs.as_mut_slice(), rhs.as_slice(), shift, &fast_div_top);
    let ghost v = lhs@;
    lhs.push(q_top);
    proof {
        let x = words_val(orig_l) as int;
        let r_sh = window_val(v, 0, n as int) as int;
        let qq = window_val(v, n as int, l - n) as int + q_top * word_pow((l - n) as nat);
        // the quotient words with the top word pushed
        assert(lhs@.subrange(n as int, l + 1) =~= v.subrange(n as int, l as int).push(q_top));
        crate::words::lemma_words_val_push(v.subrange(n as int, l as int), q_top);
        assert(lhs@.subrange(0, n as int) =~= v.subrange(0, n as int));
        // x p == qq (b p) + r_sh with r_sh < b p: so r_sh == (x - qq b) p
        assert(x * p == qq * (big_b * p) + r_sh);
        assert(r_sh == (x - qq * big_b) * p) by (nonlinear_arith)
            requires
                x * p == qq * (big_b * p) + r_sh,
        ;
        assert(x - qq * big_b < big_b) by (nonlinear_arith)
            requires
                r_sh == (x - qq * big_b) * p,
                r_sh < big_b * p,
                p > 0,
        ;
        assert(x - qq * big_b >= 0) by (nonlinear_arith)
            requires
                r_sh == (x - qq * big_b) * p,
                r_sh >= 0,
                p > 0,
        ;
        lemma_fundamental_div_mod_converse(x, big_b, qq, x - qq * big_b);
    }
    shift
}

/// The low `n` words, and the words from `n` on.
fn split_words(v: &Vec<Word>, n: usize) -> (r: (Vec<Word>, Vec<Word>))
    requires
        n <= v@.len(),
    ensures
        r.0@ == v@.subrange(0, n as int),
        r.1@ == v@.subrange(n as int, v@.len() as int),
{
    let l = v.len();
    let mut lo: Vec<Word> = Vec::new();
    let mut hi: Vec<Word> = Vec::new();
    let mut i: usize = 0;
    while i < l
        invariant
            l == v@.len(),
            n <= l,
            i <= l,
            i <= n ==> lo@ == v@.subrange(0, i as int) && hi@.len() == 0,
            i >= n ==> lo@ == v@.subrange(0, n as int) && hi@ == v@.subrange(n as int, i as int),
        decreases l - i,
    {
        if i < n {
            lo.push(v[i]);
        } else {
            hi.push(v[i]);
        }
        i = i + 1;
        proof {
            assert(lo@ =~= v@.subrange(0, if i <= n { i as int } else { n as int }));
            if i > n {
                assert(hi@ =~= v@.subrange(n as int, i as int));
            }
        }
    }
    (lo, hi)
}

/// The remainder from the low words left by [div_rem_in_lhs]: shifted back.
fn unshift_remainder(mut rem: Vec<Word>, shift: u32, Ghost(r): Ghost<nat>) -> (out: UBig)
    requires
        shift < 64,
        words_val(rem@) == r * pow2(shift as nat),
        rem@.len() <= spec_max_capacity(),
    ensures
        out@ == r,
{
    let _low = shr_in_place(rem.as_mut_slice(), shift);
    proof {
        lemma_pow2_pos(shift as nat);
        lemma_div_multiples_vanish(r as int, pow2(shift as nat) as int);
        lemma_mul_is_commutative(r as int, pow2(shift as nat) as int);
    }
    UBig::from_vec(rem)
}

/// Quotient and remainder of two numbers of at least two words each, the dividend not
/// shorter than the divisor.
pub(crate) fn div_rem_large(lhs: &[Word], rhs: &[Word]) -> (r: (UBig, UBig))
    requires
        rhs@.len() >= 2,
        rhs@.last() != 0,
        lhs@.len() >= rhs@.len(),
        lhs@.len() <= spec_max_capacity(),
    ensures
        r.0@ == words_val(lhs@) / words_val(rhs@),
        r.1@ == words_val(lhs@) % words_val(rhs@),
{
    let mut lhs_buf = slice_to_vec(lhs);
    let mut rhs_buf = slice_to_vec(rhs);
    let n = rhs.len();
    let shift = div_rem_in_lhs(&mut lhs_buf, &mut rhs_buf);
    let (rem, quo) = split_words(&lhs_buf, n);
    (UBig::from_vec(quo), unshift_remainder(rem, shift, Ghost(words_val(lhs@) % words_val(rhs@))))
}

/// Quotient of two numbers of at least two words each, the dividend not shorter than the
/// divisor.
fn div_large(lhs: &[Word], rhs: &[Word]) -> (r: UBig)
    requires
        rhs@.len() >= 2,
        rhs@.last() != 0,
        lhs@.len() >= rhs@.len(),
        lhs@.len() <= spec_max_capacity(),
    ensures
        r@ == words_val(lhs@) / words_val(rhs@),
{
    let mut lhs_buf = slice_to_vec(lhs);
    let mut rhs_buf = slice_to_vec(rhs);
    let n = rhs.len();
    let _shift = div_rem_in_lhs(&mut lhs_buf, &mut rhs_buf);
    let (_rem, quo) = split_words(&lhs_buf, n);
    UBig::from_vec(quo)
}

/// Remainder of two numbers of at least two words each, the dividend not shorter than the
/// divisor.
pub(crate) fn rem_large(lhs: &[Word], rhs: &[Word]) -> (r: UBig)
    requires
        rhs@.len() >= 2,
        rhs@.last() != 0,
        lhs@.len() >= rhs@.len(),
        lhs@.len() <= spec_max_capacity(),
    ensures
        r@ == words_val(lhs@) % words_val(rhs@),
{
    let mut lhs_buf = slice_to_vec(lhs);
    let mut rhs_buf = slice_to_vec(rhs);
    let n = rhs.len();
    let shift = div_rem_in_lhs(&mut lhs_buf, &mut rhs_buf);
    let (rem, _quo) = split_words(&lhs_buf, n);
    unshift_remainder(rem, shift, Ghost(words_val(lhs@) % words_val(rhs@)))
}

/// Quotient and remainder of a number of more than two words by a double word.
fn div_rem_large_dword(lhs: &[Word], rhs: DoubleWord) -> (r: (UBig, UBig))
    requires
        lhs@.len() > 2,
        lhs@.len() <= spec_max_capacity(),
        rhs != 0,
    ensures
        r.0@ == words_val(lhs@) / (rhs as nat),
        r.1@ == words_val(lhs@) % (rhs as nat),
{
    let mut v = slice_to_vec(lhs);
    if rhs <= u64::MAX as DoubleWord {
        let rem = div_by_word_in_place(v.as_mut_slice(), rhs as Word);
        (UBig::from_vec(v), UBig::from_word(rem))
    } else {
        let rem = div_by_dword_in_place(v.as_mut_slice(), rhs);
        (UBig::from_vec(v), UBig::from_dword(rem))
    }
}

/// Quotient and remainder of double words.
fn div_rem_dword(lhs: DoubleWord, rhs: DoubleWord) -> (r: (UBig, UBig))
    requires
        rhs != 0,
    ensures
        r.0@ == lhs / rhs,
        r.1@ == lhs % rhs,
{
    (UBig::from_dword(lhs / rhs), UBig::from_dword(lhs % rhs))
}

/// Quotient of double words.
fn div_dword(lhs: DoubleWord, rhs: DoubleWord) -> (r: UBig)
    requires
        rhs != 0,
    ensures
        r@ == lhs / rhs,
{
    UBig::from_dword(lhs / rhs)
}

/// Remainder of double words.
fn rem_dword(lhs: DoubleWord, rhs: DoubleWord) -> (r: UBig)
    requires
        rhs != 0,
    ensures
        r@ == lhs % rhs,
{
    UBig::from_dword(lhs % rhs)
}

/// Quotient of a number of more than two words by a double word.
fn div_large_dword(lhs: &[Word], rhs: DoubleWord) -> (r: UBig)
    requires
        lhs@.len() > 2,
        lhs@.len() <= spec_max_capacity(),
        rhs != 0,
    ensures
        r@ == words_val(lhs@) / (rhs as nat),
{
    let (q, _) = div_rem_large_dword(lhs, rhs);
    q
}

/// Remainder of a number of more than two words by a double word.
fn rem_large_dword(lhs: &[Word], rhs: DoubleWord) -> (r: UBig)
    requires
        lhs@.len() > 2,
        rhs != 0,
    ensures
        r@ == words_val(lhs@) % (rhs as nat),
{
    if rhs <= u64::MAX as DoubleWord {
        UBig::from_word(rem_by_word(lhs, rhs as Word))
    } else {
        UBig::from_dword(rem_by_dword(lhs, rhs))
    }
}

impl UBig {
    /// Quotient and remainder: `(self / rhs, self % rhs)`.
    ///
    /// The divisor must not be zero.
    pub fn div_rem(&self, rhs: &UBig) -> (r: (UBig, UBig))
        requires
            rhs@ != 0,
        ensures
            r.0@ == self@ / rhs@,
            r.1@ == self@ % rhs@,
    {
        match (self.as_dword(), rhs.as_dword()) {
            (Some(a), Some(b)) => div_rem_dword(a, b),
            (Some(_), None) => {
                proof {
                    lemma_basic_div(self@ as int, rhs@ as int);
                    lemma_small_mod(self@, rhs@);
                }
                (UBig::zero(), self.copy())
            },
            (None, Some(b)) => div_rem_large_dword(self.as_words(), b),
            (None, None) => {
                let lhs_words = self.as_words();
                let rhs_words = rhs.as_words();
                if lhs_words.len() >= rhs_words.len() {
                    div_rem_large(lhs_words, rhs_words)
                } else {
                    proof {
                        crate::words::lemma_normalized_len(lhs_words@, rhs_words@);
                        lemma_basic_div(self@ as int, rhs@ as int);
                        lemma_small_mod(self@, rhs@);
                    }
                    (UBig::zero(), self.copy())
                }
            },
        }
    }

    /// Quotient: `self / rhs`. The divisor must not be zero.
    pub fn div(&self, rhs: &UBig) -> (r: UBig)
        requires
            rhs@ != 0,
        ensures
            r@ == self@ / rhs@,
    {
        match (self.as_dword(), rhs.as_dword()) {
            (Some(a), Some(b)) => div_dword(a, b),
            (Some(_), None) => {
                proof {
                    lemma_basic_div(self@ as int, rhs@ as int);
                }
                UBig::zero()
            },
            (None, Some(b)) => div_large_dword(self.as_words(), b),
            (None, None) => {
                let lhs_words = self.as_words();
                let rhs_words = rhs.as_words();
                if lhs_words.len() >= rhs_words.len() {
                    div_large(lhs_words, rhs_words)
                } else {
                    proof {
                        crate::words::lemma_normalized_len(lhs_words@, rhs_words@);
                        lemma_basic_div(self@ as int, rhs@ as int);
                    }
                    UBig::zero()
                }
            },
        }
    }

    /// Remainder: `self % rhs`. The divisor must not be zero.
    pub fn rem(&self, rhs: &UBig) -> (r: UBig)
        requires
            rhs@ != 0,
        ensures
            r@ == self@ % rhs@,
    {
        match (self.as_dword(), rhs.as_dword()) {
            (Some(a), Some(b)) => rem_dword(a, b),
            (Some(_), None) => {
                proof {
                    lemma_small_mod(self@, rhs@);
                }
                self.copy()
            },
            (None, Some(b)) => rem_large_dword(self.as_words(), b),
            (None, None) => {
                let lhs_words = self.as_words();
                let rhs_words = rhs.as_words();
                if lhs_words.len() >= rhs_words.len() {
                    rem_large(lhs_words, rhs_words)
                } else {
                    proof {
                        crate::words::lemma_normalized_len(lhs_words@, rhs_words@);
                        lemma_small_mod(self@, rhs@);
                    }
                    self.copy()
                }
            },
        }
    }
}

/// Quotient of truncating division: rounded towards zero.
pub open spec fn spec_div_trunc(a: int, b: int) -> int {
    signed_value(
        if (a < 0) != (b < 0) { Sign::Negative } else { Sign::Positive },
        spec_abs(a) / spec_abs(b),
    )
}

/// Remainder of truncating division: with the sign of the dividend.
pub open spec fn spec_rem_trunc(a: int, b: int) -> int {
    signed_value(if a < 0 { Sign::Negative } else { Sign::Positive }, spec_abs(a) % spec_abs(b))
}

/// Truncating division gives back the dividend: `q b + r == a`, with `|r| < |b|` and a
/// non-zero remainder of the sign of `a`, for `q`, `r` what [IBig::div_rem] returns.
pub proof fn lemma_div_rem_trunc(a: int, b: int)
    requires
        b != 0,
    ensures
        spec_div_trunc(a, b) * b + spec_rem_trunc(a, b) == a,
        spec_abs(spec_rem_trunc(a, b)) < spec_abs(b),
        spec_rem_trunc(a, b) != 0 ==> ((spec_rem_trunc(a, b) < 0) == (a < 0)),
{
    let x = spec_abs(a) as int;
    let y = spec_abs(b) as int;
    let q = x / y;
    let r = x % y;
    lemma_fundamental_div_mod(x, y);
    lemma_mod_bound(x, y);
    lemma_div_pos_is_pos(x, y);
    if a < 0 {
        if b < 0 {
            assert(q * b == -(y * q)) by {
                lemma_mul_is_commutative(q, b);
                lemma_mul_unary_negation(y, q);
            }
        } else {
            assert(-q * b == -(y * q)) by {
                lemma_mul_is_commutative(-q, b);
                lemma_mul_unary_negation(y, q);
                lemma_mul_unary_negation(q, y);
                lemma_mul_is_commutative(q, y);
            }
        }
    } else {
        if b < 0 {
            assert(-q * b == y * q) by {
                lemma_mul_unary_negation(q, b);
                lemma_mul_is_commutative(q, b);
                lemma_mul_unary_negation(b, q);
            }
        } else {
            lemma_mul_is_commutative(q, b);
        }
    }
}

impl IBig {
    /// Quotient and remainder of the division rounding towards zero: the quotient is
    /// `self / rhs` truncated, the remainder has the sign of `self`.
    ///
    /// The divisor must not be zero.
    pub fn div_rem(&self, rhs: &IBig) -> (r: (IBig, IBig))
        requires
            rhs@ != 0,
        ensures
            r.0@ == spec_div_trunc(self@, rhs@),
            r.1@ == spec_rem_trunc(self@, rhs@),
    {
        let sign0 = self.sign();
        let sign1 = rhs.sign();
        let (q, r) = self.magnitude().div_rem(rhs.magnitude());
        (IBig::from_parts(sign0.times(sign1), q), IBig::from_parts(sign0, r))
    }

    /// Quotient rounding towards zero. The divisor must not be zero.
    pub fn div(&self, rhs: &IBig) -> (r: IBig)
        requires
            rhs@ != 0,
        ensures
            r@ == spec_div_trunc(self@, rhs@),
    {
        self.div_rem(rhs).0
    }

    /// Remainder with the sign of the dividend. The divisor must not be zero.
    pub fn rem(&self, rhs: &IBig) -> (r: IBig)
        requires
            rhs@ != 0,
        ensures
            r@ == spec_rem_trunc(self@, rhs@),
    {
        self.div_rem(rhs).1
    }
}

} // verus!
