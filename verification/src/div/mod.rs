//! Division of word sequences by a word or a double word.
use vstd::prelude::*;
use vstd::arithmetic::power2::*;
use vstd::arithmetic::div_mod::*;
use vstd::arithmetic::mul::*;
use vstd::bits::*;
use num_modular::{Normalized2by1Divisor, Normalized3by2Divisor};
use crate::arch::word::{DoubleWord, Word};
use crate::math::{spec_is_power_of_two, word_is_power_of_two, word_log2_exact};
use crate::primitive::{
    split_dword, double_word, extend_word, word_base, word_leading_zeros, spec_bit_len,
    lemma_bit_len_bounds, lemma_pow2_widths, lemma_u128_shl_is_mul,
};
use crate::shift::{shl_in_place, shr_in_place, shr_in_place_one_word, lemma_words_val_suffix};
use crate::math::shr_word;
use crate::words::{
    words_val, word_pow, window_val, lemma_word_pow, lemma_words_val_low_bit, lemma_words_val_bound,
    lemma_div_multiples_vanish_fancy_general, lemma_words_val_split,
};

pub mod simple;

verus! {

#[verifier::external_type_specification]
#[verifier::external_body]
#[verifier::reject_recursive_types(T)]
pub struct ExNormalized2by1Divisor<T>(Normalized2by1Divisor<T>);

#[verifier::external_type_specification]
#[verifier::external_body]
#[verifier::reject_recursive_types(T)]
#[verifier::reject_recursive_types(D)]
pub struct ExNormalized3by2Divisor<T, D>(Normalized3by2Divisor<T, D>);

/// A normalized word divisor (top bit set), prepared for dividing double words by it.
///
/// Only [FastDivideNormalized::new] builds one, so the precomputed inverse always belongs to
/// the divisor that is kept beside it.
pub struct FastDivideNormalized {
    divisor: Word,
    inner: Normalized2by1Divisor<Word>,
}

impl FastDivideNormalized {
    /// The divisor.
    pub closed spec fn spec_divisor(&self) -> nat {
        self.divisor as nat
    }

    /// Prepare a normalized divisor with num-modular's `Normalized2by1Divisor::new`, which
    /// asserts that the top bit is set and precomputes the divisor's inverse.
    #[verifier::external_body]
    pub(crate) fn new(divisor: Word) -> (r: Self)
        requires
            divisor >= 0x8000_0000_0000_0000u64,
        ensures
            r.spec_divisor() == divisor,
    {
        FastDivideNormalized { divisor, inner: Normalized2by1Divisor::<Word>::new(divisor) }
    }

    /// Quotient and remainder of a word, by num-modular's `Normalized2by1Divisor::div_rem_1by1`
    /// (a comparison and a subtraction).
    #[verifier::external_body]
    pub(crate) fn div_rem_1by1(&self, a: Word) -> (r: (Word, Word))
        ensures
            r.0 * self.spec_divisor() + r.1 == a,
            r.1 < self.spec_divisor(),
    {
        self.inner.div_rem_1by1(a)
    }

    /// Quotient and remainder of a double word whose high word is below the divisor, by
    /// num-modular's `Normalized2by1Divisor::div_rem_2by1` (Möller and Granlund's algorithm).
    #[verifier::external_body]
    pub(crate) fn div_rem_2by1(&self, a: DoubleWord) -> (r: (Word, Word))
        requires
            a < self.spec_divisor() * word_base(),
        ensures
            r.0 * self.spec_divisor() + r.1 == a,
            r.1 < self.spec_divisor(),
    {
        self.inner.div_rem_2by1(a)
    }
}

/// A normalized double word divisor (top bit set), prepared for dividing by it.
///
/// Only [FastDivideNormalized2::new] builds one, so the precomputed inverse always belongs to
/// the divisor that is kept beside it.
pub struct FastDivideNormalized2 {
    divisor: DoubleWord,
    inner: Normalized3by2Divisor<Word, DoubleWord>,
}

impl FastDivideNormalized2 {
    /// The divisor.
    pub closed spec fn spec_divisor(&self) -> nat {
        self.divisor as nat
    }

    /// Prepare a normalized divisor with num-modular's `Normalized3by2Divisor::new`, which
    /// asserts that the top bit is set and precomputes the divisor's inverse.
    #[verifier::external_body]
    pub(crate) fn new(divisor: DoubleWord) -> (r: Self)
        requires
            divisor >= 0x8000_0000_0000_0000_0000_0000_0000_0000u128,
        ensures
            r.spec_divisor() == divisor,
    {
        FastDivideNormalized2 {
            divisor,
            inner: Normalized3by2Divisor::<Word, DoubleWord>::new(divisor),
        }
    }

    /// Quotient and remainder of a double word, by num-modular's
    /// `Normalized3by2Divisor::div_rem_2by2` (a comparison and a subtraction).
    #[verifier::external_body]
    pub(crate) fn div_rem_2by2(&self, a: DoubleWord) -> (r: (DoubleWord, DoubleWord))
        ensures
            r.0 * self.spec_divisor() + r.1 == a,
            r.1 < self.spec_divisor(),
    {
        self.inner.div_rem_2by2(a)
    }

    /// Quotient and remainder of the three words `a_lo + a_hi B` whose high part is below the
    /// divisor, by num-modular's `Normalized3by2Divisor::div_rem_3by2` (Möller and Granlund).
    #[verifier::external_body]
    pub(crate) fn div_rem_3by2(&self, a_lo: Word, a_hi: DoubleWord) -> (r: (Word, DoubleWord))
        requires
            a_hi < self.spec_divisor(),
        ensures
            r.0 * self.spec_divisor() + r.1 == a_lo + a_hi * word_base(),
            r.1 < self.spec_divisor(),
    {
        self.inner.div_rem_3by2(a_lo, a_hi)
    }

    /// Quotient and remainder of the four words `a_lo + a_hi B^2` whose high part is below the
    /// divisor, by num-modular's `Normalized3by2Divisor::div_rem_4by2` (two 3-by-2 steps).
    #[verifier::external_body]
    pub(crate) fn div_rem_4by2(&self, a_lo: DoubleWord, a_hi: DoubleWord) -> (r: (
        DoubleWord,
        DoubleWord,
    ))
        requires
            a_hi < self.spec_divisor(),
        ensures
            r.0 * self.spec_divisor() + r.1 == a_lo + a_hi * (word_base() * word_base()),
            r.1 < self.spec_divisor(),
    {
        self.inner.div_rem_4by2(a_lo, a_hi)
    }
}

/// One step of a long division running downwards over the words.
proof fn lemma_long_div_step(cp: int, vs: int, vn: int, rem: int, w: int, b: int, q: int, d: int, r: int)
    by (nonlinear_arith)
    requires
        cp + vs == d * vn + rem,
        rem * b + w == q * d + r,
    ensures
        cp * b + (w + b * vs) == d * (q + b * vn) + r,
{
}

/// Undo the normalizing shift of a long division: from `v 2^s == (m 2^s) q + rem` with
/// `rem < m 2^s`, the quotient of `v` by `m` is `q` and the remainder is `rem / 2^s`.
proof fn lemma_unshift(v: int, p: int, m: int, q: int, rem: int)
    requires
        p > 0,
        m > 0,
        v * p == (m * p) * q + rem,
        0 <= rem < m * p,
    ensures
        rem % p == 0,
        rem / p == v - m * q,
        0 <= v - m * q < m,
        v / m == q,
        v % m == rem / p,
{
    let t = v - m * q;
    assert(rem == p * t) by (nonlinear_arith)
        requires
            v * p == (m * p) * q + rem,
            t == v - m * q,
    ;
    assert(0 <= t < m) by (nonlinear_arith)
        requires
            rem == p * t,
            0 <= rem < m * p,
            p > 0,
    ;
    lemma_mod_multiples_basic(t, p);
    lemma_mul_is_commutative(p, t);
    lemma_div_multiples_vanish(t, p);
    lemma_fundamental_div_mod_converse(v, m, q, t);
}

/// A normalized word: `rhs 2^lz(rhs)` has its top bit set.
proof fn lemma_normalize_word(rhs: Word, shift: u32)
    requires
        rhs != 0,
        shift == 64 - spec_bit_len(rhs as nat),
        spec_bit_len(rhs as nat) <= 64,
    ensures
        shift < 64,
        rhs * pow2(shift as nat) <= u64::MAX,
        rhs * pow2(shift as nat) >= 0x8000_0000_0000_0000u64,
        rhs << shift == rhs * pow2(shift as nat),
{
    let k = spec_bit_len(rhs as nat);
    lemma_bit_len_bounds(rhs as nat);
    lemma_pow2_widths();
    lemma2_to64();
    lemma2_to64_rest();
    lemma_pow2_adds((k - 1) as nat, shift as nat);
    lemma_pow2_adds(k, shift as nat);
    assert((k - 1) as nat + shift as nat == 63);
    assert(k + shift as nat == 64);
    lemma2_to64();
    lemma_mul_inequality(pow2((k - 1) as nat) as int, rhs as int, pow2(shift as nat) as int);
    lemma_mul_strict_inequality(rhs as int, pow2(k) as int, pow2(shift as nat) as int);
    lemma_pow2_pos(shift as nat);
    lemma_u64_shl_is_mul(rhs, shift as u64);
}

/// `words = words / rhs` for a prepared divisor `rhs 2^shift`; returns `words % rhs`.
pub(crate) fn fast_div_by_word_in_place(
    words: &mut [Word],
    shift: u32,
    fast_div_rhs: &FastDivideNormalized,
) -> (rem: Word)
    requires
        shift < 64,
        fast_div_rhs.spec_divisor() % pow2(shift as nat) == 0,
        fast_div_rhs.spec_divisor() >= 0x8000_0000_0000_0000u64,
    ensures
        final(words)@.len() == old(words)@.len(),
        words_val(final(words)@) == words_val(old(words)@) / (fast_div_rhs.spec_divisor() / pow2(
            shift as nat,
        )),
        rem == words_val(old(words)@) % (fast_div_rhs.spec_divisor() / pow2(shift as nat)),
{
    let ghost orig = words@;
    let ghost d = fast_div_rhs.spec_divisor();
    let ghost p = pow2(shift as nat);
    let n = words.len();
    let c = shl_in_place(words, shift);
    let ghost sh = words@;
    proof {
        lemma_pow2_pos(shift as nat);
        lemma_pow2_widths();
        if shift < 63 {
            lemma_pow2_strictly_increases(shift as nat, 63);
        }
        lemma2_to64_rest();
        lemma_word_pow(0);
        assert(words@.subrange(n as int, n as int) =~= Seq::<Word>::empty());
        assert(words_val(Seq::<Word>::empty()) == 0);
        assert(words_val(words@.subrange(n as int, n as int)) == 0);
        assert(sh.subrange(n as int, n as int) =~= Seq::<Word>::empty());
        assert(d * 0 == 0);
    }
    let mut rem: Word = c;
    let mut i: usize = n;
    while i > 0
        invariant
            n == words@.len(),
            sh.len() == n,
            i <= n,
            d == fast_div_rhs.spec_divisor(),
            d >= 0x8000_0000_0000_0000u64,
            rem < d,
            forall|j: int| 0 <= j < i ==> words@[j] == sh[j],
            c * word_pow((n - i) as nat) + words_val(sh.subrange(i as int, n as int)) == d
                * words_val(words@.subrange(i as int, n as int)) + rem,
        decreases i,
    {
        let w = words[i - 1];
        let a = double_word(w, rem);
        proof {
            assert(a < d * word_base()) by {
                lemma_mul_inequality(rem as int + 1, d as int, word_base() as int);
                lemma_mul_is_distributive_add_other_way(word_base() as int, rem as int, 1);
            }
        }
        let (q, r) = fast_div_rhs.div_rem_2by1(a);
        let ghost before = words@;
        words[i - 1] = q;
        proof {
            lemma_words_val_suffix(sh, i as int);
            lemma_words_val_suffix(words@, i as int);
            assert(words@.subrange(i as int, n as int) =~= before.subrange(i as int, n as int));
            lemma_word_pow((n - i) as nat);
            assert((n - (i - 1)) as nat == (n - i) as nat + 1);
            lemma_long_div_step(
                c * word_pow((n - i) as nat),
                words_val(sh.subrange(i as int, n as int)) as int,
                words_val(before.subrange(i as int, n as int)) as int,
                rem as int,
                w as int,
                word_base() as int,
                q as int,
                d as int,
                r as int,
            );
            lemma_mul_is_associative(c as int, word_pow((n - i) as nat) as int, word_base() as int);
            lemma_mul_is_commutative(word_pow((n - i) as nat) as int, word_base() as int);
        }
        rem = r;
        i = i - 1;
    }
    proof {
        assert(words@.subrange(0, n as int) =~= words@);
        assert(sh.subrange(0, n as int) =~= sh);
        // words_val(orig) * p == c B^n + words_val(sh) == d * q + rem
        let m = d / p;
        lemma_fundamental_div_mod(d as int, p as int);
        lemma_mul_is_commutative(m as int, p as int);
        assert(d == m * p);
        lemma_unshift(
            words_val(orig) as int,
            p as int,
            m as int,
            words_val(words@) as int,
            rem as int,
        );
        lemma_u64_shr_is_div(rem, shift as u64);
    }
    rem >> shift
}

/// `words = words / rhs`; returns `words % rhs`.
///
/// `rhs` must be non-zero.
pub fn div_by_word_in_place(words: &mut [Word], rhs: Word) -> (rem: Word)
    requires
        rhs != 0,
    ensures
        final(words)@.len() == old(words)@.len(),
        words_val(final(words)@) == words_val(old(words)@) / (rhs as nat),
        rem == words_val(old(words)@) % (rhs as nat),
{
    let ghost orig = words@;
    if rhs == 1 {
        proof {
            lemma_div_basics_2(words_val(orig) as int);
            lemma_fundamental_div_mod(words_val(orig) as int, 1);
            lemma_mod_bound(words_val(orig) as int, 1);
        }
        return 0;
    } else if word_is_power_of_two(rhs) {
        let shift = word_log2_exact(rhs);
        let rem = shr_in_place(words, shift);
        proof {
            lemma_pow2_pos(shift as nat);
            lemma2_to64();
            assert(shift != 0);
            let m = words_val(orig) % pow2(shift as nat);
            let pc = pow2((64 - shift) as nat);
            lemma_pow2_pos((64 - shift) as nat);
            lemma_u64_shr_is_div(rem, (64 - shift) as u64);
            lemma_div_multiples_vanish(m as int, pc as int);
            lemma_mul_is_commutative(m as int, pc as int);
        }
        return rem >> ((64 - shift) as u64);
    }
    let shift = word_leading_zeros(rhs);
    proof {
        lemma_normalize_word(rhs, shift);
    }
    let fast_div_rhs = FastDivideNormalized::new(rhs << shift);
    proof {
        lemma_pow2_pos(shift as nat);
        lemma_mod_multiples_basic(rhs as int, pow2(shift as nat) as int);
        lemma_div_multiples_vanish(rhs as int, pow2(shift as nat) as int);
        lemma_mul_is_commutative(rhs as int, pow2(shift as nat) as int);
    }
    fast_div_by_word_in_place(words, shift, &fast_div_rhs)
}

/// Remainder of the words by a prepared normalized divisor.
pub(crate) fn fast_rem_by_normalized_word(words: &[Word], fast_div_rhs: &FastDivideNormalized) -> (r:
    Word)
    requires
        words@.len() > 0,
    ensures
        r == words_val(words@) % fast_div_rhs.spec_divisor(),
{
    let ghost d = fast_div_rhs.spec_divisor();
    let n = words.len();
    let (q0, r0) = fast_div_rhs.div_rem_1by1(words[n - 1]);
    let mut rem: Word = r0;
    let mut i: usize = n - 1;
    proof {
        lemma_words_val_suffix(words@, n as int);
        assert(words@.subrange(n as int, n as int) =~= Seq::<Word>::empty());
        assert(words_val(Seq::<Word>::empty()) == 0);
        assert(words_val(words@.subrange(n as int, n as int)) == 0);
        lemma_fundamental_div_mod_converse(words[n - 1] as int, d as int, q0 as int, r0 as int);
        assert(words_val(words@.subrange(n - 1, n as int)) == words@[n - 1]);
        assert(r0 == words_val(words@.subrange(n - 1, n as int)) % d);
    }
    while i > 0
        invariant
            n == words@.len(),
            i < n,
            d == fast_div_rhs.spec_divisor(),
            d > 0,
            rem < d,
            rem == words_val(words@.subrange(i as int, n as int)) % d,
        decreases i,
    {
        let w = words[i - 1];
        let a = double_word(w, rem);
        proof {
            assert(a < d * word_base()) by {
                lemma_mul_inequality(rem as int + 1, d as int, word_base() as int);
                lemma_mul_is_distributive_add_other_way(word_base() as int, rem as int, 1);
            }
        }
        let (q, r) = fast_div_rhs.div_rem_2by1(a);
        proof {
            let v = words_val(words@.subrange(i as int, n as int)) as int;
            lemma_words_val_suffix(words@, i as int);
            lemma_fundamental_div_mod(v, d as int);
            let k = v / (d as int);
            // w + B v == (w + B rem) + d (B k)
            assert(w + word_base() * v == a + d * (word_base() * k)) by (nonlinear_arith)
                requires
                    v == d * k + rem,
                    a == rem * word_base() + w,
            ;
            lemma_mod_multiples_vanish(word_base() * k, a as int, d as int);
            lemma_mul_is_commutative(q as int, d as int);
            lemma_fundamental_div_mod_converse(a as int, d as int, q as int, r as int);
        }
        rem = r;
        i = i - 1;
    }
    proof {
        assert(words@.subrange(0, n as int) =~= words@);
    }
    rem
}

/// Remainder of the words by `rhs`.
///
/// `rhs` must be non-zero and `words` must not be empty.
pub fn rem_by_word(words: &[Word], rhs: Word) -> (r: Word)
    requires
        rhs != 0,
        words@.len() > 0,
    ensures
        r == words_val(words@) % (rhs as nat),
{
    // shortcut
    if word_is_power_of_two(rhs) {
        proof {
            crate::math::lemma_word_power_of_two(rhs);
            let k = vstd::std_specs::bits::u64_trailing_zeros(rhs) as nat;
            vstd::std_specs::bits::axiom_u64_trailing_zeros(rhs);
            lemma_u64_low_bits_mask_is_mod(words[0], k);
            lemma_words_val_low_bit(words@, k);
        }
        return words[0] & (rhs - 1);
    }
    // calculate remainder without normalizing the words
    let shift = word_leading_zeros(rhs);
    proof {
        lemma_normalize_word(rhs, shift);
    }
    let fast_div_rhs = FastDivideNormalized::new(rhs << shift);
    let rem = fast_rem_by_normalized_word(words, &fast_div_rhs);
    let ghost d = fast_div_rhs.spec_divisor();
    let ghost p = pow2(shift as nat);
    proof {
        lemma_pow2_pos(shift as nat);
        lemma_pow2_widths();
        lemma_pow2_strictly_increases(shift as nat, 64);
        lemma_mod_bound(words_val(words@) as int, d as int);
        lemma_mul_strict_inequality(rem as int, d as int, p as int);
        lemma_mul_inequality(p as int, word_base() as int, d as int);
        lemma_mul_is_commutative(p as int, d as int);
        lemma_u128_shl_is_mul(rem as u128, shift as nat);
    }
    // normalize the remainder
    let a = extend_word(rem) << shift;
    let (q, rem2) = fast_div_rhs.div_rem_2by1(a);
    proof {
        lemma_mul_is_commutative(rhs as int, p as int);
        lemma_unshift(rem as int, p as int, rhs as int, q as int, rem2 as int);
        lemma_mod_mod(words_val(words@) as int, rhs as int, p as int);
        lemma_u64_shr_is_div(rem2, shift as u64);
    }
    rem2 >> shift
}

/// The value of a suffix grows by two words.
proof fn lemma_words_val_suffix2(s: Seq<Word>, i: int)
    requires
        2 <= i <= s.len(),
    ensures
        words_val(s.subrange(i - 2, s.len() as int)) == (s[i - 1] * word_base() + s[i - 2]) + (
        word_base() * word_base()) * words_val(s.subrange(i, s.len() as int)),
{
    lemma_words_val_suffix(s, i);
    lemma_words_val_suffix(s, i - 1);
    let b = word_base() as int;
    let v = words_val(s.subrange(i, s.len() as int)) as int;
    assert(s[i - 2] + b * (s[i - 1] + b * v) == (s[i - 1] * b + s[i - 2]) + (b * b) * v)
        by (nonlinear_arith);
}

/// A normalized double word: `rhs 2^lz(rhs)` has its top bit set.
proof fn lemma_normalize_dword(rhs: DoubleWord, shift: u32)
    requires
        rhs > u64::MAX,
        shift == 128 - spec_bit_len(rhs as nat),
        spec_bit_len(rhs as nat) <= 128,
    ensures
        shift < 64,
        rhs * pow2(shift as nat) <= u128::MAX,
        rhs * pow2(shift as nat) >= 0x8000_0000_0000_0000_0000_0000_0000_0000u128,
        rhs << shift == rhs * pow2(shift as nat),
{
    let k = spec_bit_len(rhs as nat);
    lemma_bit_len_bounds(rhs as nat);
    lemma_pow2_widths();
    lemma2_to64();
    if k <= 64 {
        lemma_pow2_increases_local(k, 64);
    }
    assert(k > 64);
    lemma_pow2_adds((k - 1) as nat, shift as nat);
    lemma_pow2_adds(k, shift as nat);
    assert((k - 1) as nat + shift as nat == 127);
    assert(k + shift as nat == 128);
    lemma_pow2_adds(63, 64);
    assert(pow2(127) == 0x8000_0000_0000_0000_0000_0000_0000_0000u128) by {
        lemma2_to64_rest();
    }
    lemma_mul_inequality(pow2((k - 1) as nat) as int, rhs as int, pow2(shift as nat) as int);
    lemma_mul_strict_inequality(rhs as int, pow2(k) as int, pow2(shift as nat) as int);
    lemma_pow2_pos(shift as nat);
    lemma_u128_shl_is_mul(rhs, shift as nat);
}

/// Powers of two are monotone.
proof fn lemma_pow2_increases_local(a: nat, b: nat)
    requires
        a <= b,
    ensures
        pow2(a) <= pow2(b),
{
    if a < b {
        lemma_pow2_strictly_increases(a, b);
    }
}

/// `B^(k+2) == B^2 B^k`.
proof fn lemma_word_pow_plus2(k: nat)
    ensures
        word_pow(k + 2) == (word_base() * word_base()) * word_pow(k),
{
    lemma_word_pow(k);
    lemma_word_pow(k + 1);
    assert(k + 1 + 1 == k + 2);
    lemma_mul_is_associative(word_base() as int, word_base() as int, word_pow(k) as int);
}

/// `words = words / rhs` for a prepared divisor `rhs 2^shift` with `rhs` beyond a word;
/// returns `words % rhs`.
pub(crate) fn fast_div_by_dword_in_place(
    words: &mut [Word],
    shift: u32,
    fast_div_rhs: &FastDivideNormalized2,
) -> (rem: DoubleWord)
    requires
        old(words)@.len() >= 2,
        shift < 64,
        fast_div_rhs.spec_divisor() % pow2(shift as nat) == 0,
        fast_div_rhs.spec_divisor() / pow2(shift as nat) > u64::MAX,
    ensures
        final(words)@.len() == old(words)@.len(),
        words_val(final(words)@) == words_val(old(words)@) / (fast_div_rhs.spec_divisor() / pow2(
            shift as nat,
        )),
        rem == words_val(old(words)@) % (fast_div_rhs.spec_divisor() / pow2(shift as nat)),
{
    let ghost orig = words@;
    let ghost d = fast_div_rhs.spec_divisor();
    let ghost p = pow2(shift as nat);
    let ghost m = d / p;
    let ghost bb = word_base() * word_base();
    let n = words.len();
    let hi = shl_in_place(words, shift);
    let ghost sh = words@;
    proof {
        lemma_pow2_pos(shift as nat);
        lemma_pow2_widths();
        lemma_fundamental_div_mod(d as int, p as int);
        lemma_mul_is_commutative(m as int, p as int);
        assert(d == m * p);
        // the top three words are below the divisor
        lemma_words_val_bound(orig);
        lemma_word_pow_plus2((n - 2) as nat);
        assert((n - 2) as nat + 2 == n);
        lemma_word_pow((n - 2) as nat);
        let wk = word_pow((n - 2) as nat) as int;
        let v = words_val(orig) as int;
        lemma_words_val_div_pow_local(sh, (n - 2) as nat);
        lemma_words_val_suffix2(sh, n as int);
        assert(sh.subrange(n as int, n as int) =~= Seq::<Word>::empty());
        assert(words_val(sh.subrange(n as int, n as int)) == 0);
        let t = words_val(sh) as int / wk;
        // v p == hi B^n + val(sh) == wk (hi B^2) + val(sh)
        assert(v * p == wk * (hi * bb) + words_val(sh)) by {
            lemma_mul_is_associative(hi as int, bb as int, wk);
            lemma_mul_is_commutative(hi as int * bb, wk);
            lemma_mul_is_associative(wk, hi as int, bb as int);
        }
        lemma_div_multiples_vanish_fancy_general(words_val(sh) as int, hi * bb, wk);
        // v p < B^n p == wk (B^2 p)
        assert(v * p < wk * (bb * p)) by {
            lemma_mul_strict_inequality(v, word_pow(n as nat) as int, p as int);
            lemma_mul_is_associative(wk, bb as int, p as int);
            lemma_mul_is_commutative(wk, bb as int);
        }
        lemma_multiply_divide_lt(v * p, wk, (bb * p) as int);
        // (hi B + sh[n-1]) B <= (v p) / wk < B^2 p, so hi B + sh[n-1] < B p <= m p
        assert(hi * word_base() + sh[n - 1] < word_base() * p) by (nonlinear_arith)
            requires
                (sh[n - 1] * word_base() + sh[n - 2]) + hi * bb < bb * p,
                bb == word_base() * word_base(),
                word_base() > 0,
                sh[n - 2] >= 0,
        ;
        lemma_mul_inequality(word_base() as int, m as int, p as int);
    }
    // first divide the top words [hi, sh[n-1], sh[n-2]] by rhs
    let top_lo = words[n - 2];
    let top_hi = words[n - 1];
    let (q, r) = fast_div_rhs.div_rem_3by2(top_lo, double_word(top_hi, hi));
    words[n - 1] = 0;
    words[n - 2] = q;
    let mut rem: DoubleWord = r;
    let mut i: usize = n - 2;
    proof {
        lemma_words_val_suffix2(words@, n as int);
        assert(words@.subrange(n as int, n as int) =~= Seq::<Word>::empty());
        assert(words_val(words@.subrange(n as int, n as int)) == 0);
        lemma_word_pow(0);
        lemma_word_pow_plus2(0);
        assert(hi * bb + words_val(sh.subrange(n - 2, n as int)) == d * words_val(
            words@.subrange(n - 2, n as int),
        ) + rem) by (nonlinear_arith)
            requires
                words_val(sh.subrange(n - 2, n as int)) == (sh[n - 1] * word_base() + sh[n - 2])
                    + bb * 0,
                words_val(words@.subrange(n - 2, n as int)) == (0 * word_base() + q) + bb * 0,
                q * d + r == top_lo + (top_hi + hi * word_base()) * word_base(),
                top_lo == sh[n - 2],
                top_hi == sh[n - 1],
                bb == word_base() * word_base(),
                rem == r,
        ;
        assert((n - (n - 2)) as nat == 2);
        assert(word_pow(2) == bb);
    }
    // then divide two words at a time
    while i >= 2
        invariant
            n == words@.len(),
            sh.len() == n,
            i <= n - 2,
            d == fast_div_rhs.spec_divisor(),
            bb == word_base() * word_base(),
            rem < d,
            forall|j: int| 0 <= j < i ==> words@[j] == sh[j],
            hi * word_pow((n - i) as nat) + words_val(sh.subrange(i as int, n as int)) == d
                * words_val(words@.subrange(i as int, n as int)) + rem,
        decreases i,
    {
        let lo_word = words[i - 2];
        let hi_word = words[i - 1];
        let dword = double_word(lo_word, hi_word);
        let (q, new_rem) = fast_div_rhs.div_rem_4by2(dword, rem);
        let (new_lo, new_hi) = split_dword(q);
        let ghost before = words@;
        words[i - 2] = new_lo;
        words[i - 1] = new_hi;
        proof {
            lemma_words_val_suffix2(sh, i as int);
            lemma_words_val_suffix2(words@, i as int);
            assert(words@.subrange(i as int, n as int) =~= before.subrange(i as int, n as int));
            lemma_word_pow_plus2((n - i) as nat);
            assert((n - (i - 2)) as nat == (n - i) as nat + 2);
            lemma_long_div_step(
                hi * word_pow((n - i) as nat),
                words_val(sh.subrange(i as int, n as int)) as int,
                words_val(before.subrange(i as int, n as int)) as int,
                rem as int,
                dword as int,
                bb as int,
                q as int,
                d as int,
                new_rem as int,
            );
            lemma_mul_is_associative(hi as int, word_pow((n - i) as nat) as int, bb as int);
            lemma_mul_is_commutative(word_pow((n - i) as nat) as int, bb as int);
        }
        rem = new_rem;
        i = i - 2;
    }
    // there might be a single word left
    if i == 1 {
        let w = words[0];
        let (q, new_rem) = fast_div_rhs.div_rem_3by2(w, rem);
        let ghost before = words@;
        words[0] = q;
        proof {
            lemma_words_val_suffix(sh, 1);
            lemma_words_val_suffix(words@, 1);
            assert(words@.subrange(1, n as int) =~= before.subrange(1, n as int));
            lemma_word_pow((n - 1) as nat);
            assert((n - 0) as nat == (n - 1) as nat + 1);
            lemma_long_div_step(
                hi * word_pow((n - 1) as nat),
                words_val(sh.subrange(1, n as int)) as int,
                words_val(before.subrange(1, n as int)) as int,
                rem as int,
                w as int,
                word_base() as int,
                q as int,
                d as int,
                new_rem as int,
            );
            lemma_mul_is_associative(hi as int, word_pow((n - 1) as nat) as int, word_base() as int);
            lemma_mul_is_commutative(word_pow((n - 1) as nat) as int, word_base() as int);
            lemma_mul_is_commutative(rem as int, word_base() as int);
        }
        rem = new_rem;
        i = 0;
    }
    proof {
        assert(words@.subrange(0, n as int) =~= words@);
        assert(sh.subrange(0, n as int) =~= sh);
        lemma_unshift(
            words_val(orig) as int,
            p as int,
            m as int,
            words_val(words@) as int,
            rem as int,
        );
        lemma_u128_shr_is_div(rem, shift as u128);
    }
    rem >> shift
}

/// `val(s) / B^k` is the value of the words from `k` on.
proof fn lemma_words_val_div_pow_local(s: Seq<Word>, k: nat)
    requires
        k <= s.len(),
    ensures
        words_val(s) / word_pow(k) == words_val(s.subrange(k as int, s.len() as int)),
{
    crate::words::lemma_words_val_div_pow(s, k);
}

/// The result of dividing by `B 2^s` with shifts: `first + B (v1 mod 2^s)` is the remainder.
proof fn lemma_pow2_dword_rem(first: int, v1: int, p: int, pc: int, b: int, n1: int, n0: int, n2: int)
    requires
        p > 0,
        pc > 0,
        p * pc == b,
        0 <= first < b,
        v1 >= 0,
        n1 == first / p,
        n0 == (first % p) * pc,
        n2 == (v1 % p) * pc,
    ensures
        ((n1 + n2) * b + n0) / pc == first + b * (v1 % p),
        first + b * (v1 % p) == (first + b * v1) % (b * p),
        v1 / p == (first + b * v1) / (b * p),
{
    let m = v1 % p;
    lemma_fundamental_div_mod(first, p);
    lemma_fundamental_div_mod(v1, p);
    lemma_mod_bound(v1, p);
    lemma_mod_bound(first, p);
    let inner = first % p + p * n1 + b * m;
    assert((n1 + n2) * b + n0 == pc * inner) by (nonlinear_arith)
        requires
            p * pc == b,
            n0 == (first % p) * pc,
            n2 == m * pc,
            inner == first % p + p * n1 + b * m,
    ;
    lemma_div_multiples_vanish(inner, pc);
    lemma_mul_is_commutative(inner, pc);
    assert(inner == first + b * m);
    assert(first + b * v1 == (b * p) * (v1 / p) + (first + b * m)) by (nonlinear_arith)
        requires
            v1 == p * (v1 / p) + m,
    ;
    assert(first + b * m < b * p) by (nonlinear_arith)
        requires
            first < b,
            m < p,
            m >= 0,
            b > 0,
    ;
    lemma_mul_nonnegative(b, m);
    lemma_fundamental_div_mod_converse(first + b * v1, b * p, v1 / p, first + b * m);
}

/// `words = words / rhs`; returns `words % rhs`.
///
/// `rhs` must not fit in a word and `words` must hold at least two words.
pub fn div_by_dword_in_place(words: &mut [Word], rhs: DoubleWord) -> (rem: DoubleWord)
    requires
        rhs > u64::MAX,
        old(words)@.len() >= 2,
    ensures
        final(words)@.len() == old(words)@.len(),
        words_val(final(words)@) == words_val(old(words)@) / (rhs as nat),
        rem == words_val(old(words)@) % (rhs as nat),
{
    let ghost orig = words@;
    let (rhs_lo, rhs_hi) = split_dword(rhs);
    if rhs_lo == 0 && word_is_power_of_two(rhs_hi) {
        // rhs is B 2^shift
        let first = shr_in_place_one_word(words);
        let shift = word_log2_exact(rhs_hi);
        let ghost v1 = words_val(words@);
        proof {
            lemma_pow2_widths();
        }
        if shift == 0 {
            proof {
                lemma2_to64();
                lemma_fundamental_div_mod_converse(words_val(orig) as int, word_base() as int, v1 as int, first as int);
                lemma_mul_is_commutative(v1 as int, word_base() as int);
            }
            return extend_word(first);
        } else {
            let n2 = shr_in_place(words, shift);
            let (n1, n0) = shr_word(first, shift);
            let ghost p = pow2(shift as nat);
            let ghost pc = pow2((64 - shift) as nat);
            let k = (64 - shift) as u64;
            proof {
                lemma_pow2_pos(shift as nat);
                lemma_pow2_pos((64 - shift) as nat);
                lemma_pow2_adds(shift as nat, (64 - shift) as nat);
                assert(shift as nat + (64 - shift) as nat == 64);
                lemma_pow2_dword_rem(first as int, v1 as int, p as int, pc as int, word_base() as int,
                    n1 as int, n0 as int, n2 as int);
                // the two parts of the high word do not overlap
                lemma_u64_pow2_no_overflow(k as nat);
                lemma_u64_shl_is_mul(1, k);
                lemma_multiply_divide_lt(first as int, p as int, pc as int);
                let m = (v1 % p) as u64;
                lemma_mod_bound(v1 as int, p as int);
                assert(m * pc < p * pc) by {
                    lemma_mul_strict_inequality(m as int, p as int, pc as int);
                }
                lemma_u64_shl_is_mul(m, k);
                assert(n2 == m << k);
                lemma_u64_pow2_no_overflow(shift as nat);
                lemma_u64_shl_is_mul(1, shift as u64);
                let sh64 = shift as u64;
                assert(sh64 == 64 - k);
                assert(m < (1u64 << sh64));
                assert(n1 < (1u64 << k));
                assert(0 < k < 64 && n1 < (1u64 << k) && m < (1u64 << sh64) && sh64 == 64 - k ==> (n1 | (m << k))
                    == n1 + (m << k)) by (bit_vector);
                lemma_fundamental_div_mod_converse(words_val(orig) as int, word_base() as int, v1 as int, first as int);
                lemma_mul_is_commutative(v1 as int, word_base() as int);
                lemma_mul_is_commutative(p as int, word_base() as int);
            }
            let x = double_word(n0, n1 | n2);
            proof {
                lemma_u128_shr_is_div(x, k as u128);
            }
            return x >> k;
        }
    }
    let shift = crate::primitive::dword_leading_zeros(rhs);
    proof {
        lemma_normalize_dword(rhs, shift);
    }
    let fast_div_rhs = FastDivideNormalized2::new(rhs << shift);
    proof {
        lemma_pow2_pos(shift as nat);
        lemma_mod_multiples_basic(rhs as int, pow2(shift as nat) as int);
        lemma_div_multiples_vanish(rhs as int, pow2(shift as nat) as int);
        lemma_mul_is_commutative(rhs as int, pow2(shift as nat) as int);
    }
    fast_div_by_dword_in_place(words, shift, &fast_div_rhs)
}

/// Masking the low `k` bits of a double word is the remainder by `2^k`.
proof fn lemma_dword_low_bits(x: DoubleWord, k: u128)
    requires
        k < 128,
    ensures
        (1u128 << k) == pow2(k as nat),
        x & (((1u128 << k) - 1) as u128) == (x as nat) % pow2(k as nat),
{
    lemma_pow2_widths();
    lemma_pow2_strictly_increases(k as nat, 128);
    lemma_pow2_pos(k as nat);
    lemma_u128_shl_is_mul(1, k as nat);
    let y = x >> k;
    lemma_u128_shr_is_div(x, k);
    assert(y <= x);
    assert((y << k) + (x & (((1u128 << k) - 1) as u128)) == x) by (bit_vector)
        requires
            k < 128,
            y == x >> k,
    ;
    assert(x & (((1u128 << k) - 1) as u128) < (1u128 << k)) by (bit_vector)
        requires
            k < 128,
    ;
    // y 2^k fits, as it is at most x
    lemma_fundamental_div_mod(x as int, pow2(k as nat) as int);
    lemma_mul_is_commutative(y as int, pow2(k as nat) as int);
    lemma_mod_bound(x as int, pow2(k as nat) as int);
    lemma_u128_shl_is_mul(y, k as nat);
    lemma_fundamental_div_mod_converse(
        x as int,
        pow2(k as nat) as int,
        y as int,
        (x & (((1u128 << k) - 1) as u128)) as int,
    );
}

/// Remainder of the words by a prepared normalized double word divisor.
pub(crate) fn fast_rem_by_normalized_dword(words: &[Word], fast_div_rhs: &FastDivideNormalized2) -> (r:
    DoubleWord)
    requires
        words@.len() >= 2,
    ensures
        r == words_val(words@) % fast_div_rhs.spec_divisor(),
{
    let ghost d = fast_div_rhs.spec_divisor();
    let ghost bb = word_base() * word_base();
    let n = words.len();
    // first calculate the highest remainder
    let top = double_word(words[n - 2], words[n - 1]);
    let (q0, r0) = fast_div_rhs.div_rem_2by2(top);
    let mut rem: DoubleWord = r0;
    let mut i: usize = n - 2;
    proof {
        lemma_words_val_suffix2(words@, n as int);
        assert(words@.subrange(n as int, n as int) =~= Seq::<Word>::empty());
        assert(words_val(words@.subrange(n as int, n as int)) == 0);
        assert(words_val(words@.subrange(n - 2, n as int)) == top) by {
            lemma_mul_basics(bb as int);
        }
        lemma_fundamental_div_mod_converse(top as int, d as int, q0 as int, r0 as int);
    }
    // then iterate through the words, two at a time
    while i >= 2
        invariant
            n == words@.len(),
            i <= n - 2,
            d == fast_div_rhs.spec_divisor(),
            d > 0,
            bb == word_base() * word_base(),
            rem < d,
            rem == words_val(words@.subrange(i as int, n as int)) % d,
        decreases i,
    {
        let dword = double_word(words[i - 2], words[i - 1]);
        let (q, r) = fast_div_rhs.div_rem_4by2(dword, rem);
        proof {
            let v = words_val(words@.subrange(i as int, n as int)) as int;
            lemma_words_val_suffix2(words@, i as int);
            lemma_fundamental_div_mod(v, d as int);
            let k = v / (d as int);
            assert(dword + bb * v == (dword + rem * bb) + d * (bb * k)) by (nonlinear_arith)
                requires
                    v == d * k + rem,
            ;
            lemma_mod_multiples_vanish(bb * k, dword + rem * bb, d as int);
            lemma_fundamental_div_mod_converse(dword + rem * bb, d as int, q as int, r as int);
        }
        rem = r;
        i = i - 2;
    }
    // there might be a single word left
    if i == 1 {
        let w = words[0];
        let (q, r) = fast_div_rhs.div_rem_3by2(w, rem);
        proof {
            let v = words_val(words@.subrange(1, n as int)) as int;
            lemma_words_val_suffix(words@, 1);
            lemma_fundamental_div_mod(v, d as int);
            let k = v / (d as int);
            assert(w + word_base() * v == (w + rem * word_base()) + d * (word_base() * k))
                by (nonlinear_arith)
                requires
                    v == d * k + rem,
            ;
            lemma_mod_multiples_vanish(word_base() * k, w + rem * word_base(), d as int);
            lemma_fundamental_div_mod_converse(w + rem * word_base(), d as int, q as int, r as int);
        }
        rem = r;
        i = 0;
    }
    proof {
        assert(words@.subrange(0, n as int) =~= words@);
    }
    rem
}

/// Remainder of the words by `rhs`.
///
/// `rhs` must not fit in a word and `words` must hold at least two words.
pub fn rem_by_dword(words: &[Word], rhs: DoubleWord) -> (r: DoubleWord)
    requires
        rhs > u64::MAX,
        words@.len() >= 2,
    ensures
        r == words_val(words@) % (rhs as nat),
{
    let (rhs_lo, rhs_hi) = split_dword(rhs);
    if rhs_lo == 0 && word_is_power_of_two(rhs_hi) {
        // rhs is 2^(64 + t)
        let ghost t = vstd::std_specs::bits::u64_trailing_zeros(rhs_hi) as nat;
        let low = crate::primitive::lowest_dword(words);
        proof {
            crate::math::lemma_word_power_of_two(rhs_hi);
            vstd::std_specs::bits::axiom_u64_trailing_zeros(rhs_hi);
            lemma_pow2_widths();
            lemma_pow2_adds(64, t);
            assert(rhs == pow2(64 + t));
            lemma_dword_low_bits(low, (64 + t) as u128);
            crate::words::lemma_words_val_div_pow(words@, 2);
            lemma_word_pow(1);
            lemma_word_pow(0);
            lemma_word_pow_plus2(0);
            lemma_words_val_suffix2(words@.subrange(0, 2), 2);
            assert(words@.subrange(0, 2).subrange(2, 2) =~= Seq::<Word>::empty());
            assert(words_val(Seq::<Word>::empty()) == 0);
            assert(words@.subrange(0, 2).subrange(0, 2) =~= words@.subrange(0, 2));
            // rhs divides B^2
            lemma_pow2_adds(64 + t, (64 - t) as nat);
            assert(64 + t + (64 - t) as nat == 128);
            lemma_pow2_pos((64 - t) as nat);
            lemma_pow2_pos(64 + t);
            lemma_mod_mod(words_val(words@) as int, rhs as int, pow2((64 - t) as nat) as int);
        }
        return low & (rhs - 1);
    }
    // calculate remainder without normalizing the words
    let shift = crate::primitive::dword_leading_zeros(rhs);
    proof {
        lemma_normalize_dword(rhs, shift);
    }
    let fast_div_rhs = FastDivideNormalized2::new(rhs << shift);
    let rem = fast_rem_by_normalized_dword(words, &fast_div_rhs);
    let ghost d = fast_div_rhs.spec_divisor();
    let ghost p = pow2(shift as nat);
    // normalize the remainder
    let (a0, a1, a2) = crate::math::shl_dword(rem, shift);
    let a_hi = double_word(a1, a2);
    proof {
        lemma_pow2_pos(shift as nat);
        lemma_pow2_widths();
        lemma_pow2_strictly_increases(shift as nat, 64);
        lemma_mod_bound(words_val(words@) as int, d as int);
        // a_hi B <= rem p < d p <= d B
        lemma_mul_strict_inequality(rem as int, d as int, p as int);
        lemma_mul_inequality(p as int, word_base() as int, d as int);
        lemma_mul_is_commutative(p as int, d as int);
        assert(a_hi * word_base() <= rem * p) by (nonlinear_arith)
            requires
                a0 + a1 * word_base() + a2 * word_base() * word_base() == rem * p,
                a_hi == a2 * word_base() + a1,
                a0 >= 0,
        ;
        assert(a_hi < d) by (nonlinear_arith)
            requires
                a_hi * word_base() < d * word_base(),
                word_base() > 0,
        ;
    }
    let (q, rem2) = fast_div_rhs.div_rem_3by2(a0, a_hi);
    proof {
        lemma_mul_is_commutative(rhs as int, p as int);
        assert(a0 + a_hi * word_base() == rem * p) by (nonlinear_arith)
            requires
                a0 + a1 * word_base() + a2 * word_base() * word_base() == rem * p,
                a_hi == a2 * word_base() + a1,
        ;
        lemma_unshift(rem as int, p as int, rhs as int, q as int, rem2 as int);
        lemma_mod_mod(words_val(words@) as int, rhs as int, p as int);
        lemma_u128_shr_is_div(rem2, shift as u128);
    }
    rem2 >> shift
}

/// Normalize a divisor of at least two words in place, shifting it left until the top bit is
/// set. Returns the shift and the top two words prepared for estimating quotient words.
pub(crate) fn normalize(words: &mut [Word]) -> (r: (u32, FastDivideNormalized2))
    requires
        old(words)@.len() >= 2,
        old(words)@.last() != 0,
    ensures
        final(words)@.len() == old(words)@.len(),
        r.0 < 64,
        words_val(final(words)@) == words_val(old(words)@) * pow2(r.0 as nat),
        simple::is_prepared_divisor(final(words)@, r.1.spec_divisor()),
{
    let n = words.len();
    let ghost orig = words@;
    let shift = word_leading_zeros(words[n - 1]);
    proof {
        lemma_bit_len_bounds(orig.last() as nat);
    }
    let carry = shl_in_place(words, shift);
    proof {
        let x = words_val(orig);
        let bl = spec_bit_len(x);
        crate::bits::lemma_words_bit_len(orig);
        lemma_bit_len_bounds(x);
        lemma_pow2_adds(bl, shift as nat);
        assert(bl + shift == 64 * n);
        lemma_pow2_pos(shift as nat);
        lemma_mul_strict_inequality(x as int, pow2(bl) as int, pow2(shift as nat) as int);
        lemma_word_pow(n as nat);
        // nothing is shifted out of the top word
        if carry > 0 {
            lemma_mul_inequality(1, carry as int, word_pow(n as nat) as int);
        }
        lemma_mul_basics(word_pow(n as nat) as int);
        // the top bit is set now
        lemma_pow2_adds((bl - 1) as nat, shift as nat);
        lemma_mul_inequality(pow2((bl - 1) as nat) as int, x as int, pow2(shift as nat) as int);
        let s = words@;
        lemma_words_val_split(s, n - 1);
        assert(s.subrange(n - 1, n as int) =~= seq![s[n - 1]]);
        crate::words::lemma_words_val_single(s[n - 1]);
        crate::words::lemma_words_val_bound(s.subrange(0, n - 1));
        lemma_word_pow((n - 1) as nat);
        lemma_pow2_adds(64 * (n - 1) as nat, 63);
        lemma_pow2_widths();
        lemma2_to64_rest();
        if s[n - 1] < 0x8000_0000_0000_0000u64 {
            lemma_mul_inequality(s[n - 1] as int, 0x7fff_ffff_ffff_ffff, word_pow((n - 1) as nat) as int);
            lemma_mul_is_commutative(s[n - 1] as int, word_pow((n - 1) as nat) as int);
        }
    }
    let top_words = crate::primitive::highest_dword(words);
    proof {
        lemma_pow2_widths();
    }
    (shift, FastDivideNormalized2::new(top_words))
}

/// Divide `lhs`, not yet shifted, by the normalized divisor `rhs`, which is the unshifted
/// divisor moved left by `shift` bits: `lhs` shifted by `shift` is divided in place, its low
/// `rhs.len()` words become the shifted remainder and the words above them the low words of
/// the quotient, whose top word is returned.
pub(crate) fn div_rem_unshifted_in_place(
    lhs: &mut [Word],
    rhs: &[Word],
    shift: u32,
    fast_div_rhs_top: &FastDivideNormalized2,
) -> (q_top: Word)
    requires
        simple::is_prepared_divisor(rhs@, fast_div_rhs_top.spec_divisor()),
        shift < 64,
        old(lhs)@.len() >= rhs@.len(),
        pow2(shift as nat) * word_pow((rhs@.len() - 1) as nat) <= words_val(rhs@),
    ensures
        final(lhs)@.len() == old(lhs)@.len(),
        words_val(old(lhs)@) * pow2(shift as nat) == (window_val(
            final(lhs)@,
            rhs@.len() as int,
            old(lhs)@.len() - rhs@.len(),
        ) + q_top * word_pow((old(lhs)@.len() - rhs@.len()) as nat)) * words_val(rhs@)
            + window_val(final(lhs)@, 0, rhs@.len() as int),
        window_val(final(lhs)@, 0, rhs@.len() as int) < words_val(rhs@),
{
    let n = rhs.len();
    let l = lhs.len();
    let ghost orig = lhs@;
    let ghost big_b = words_val(rhs@) as int;
    let ghost p = pow2(shift as nat) as int;
    let lhs_carry = shl_in_place(lhs, shift);
    let ghost s1 = lhs@;
    proof {
        lemma_word_pow((l - n) as nat);
        lemma_word_pow((n - 1) as nat);
        crate::words::lemma_words_val_bound(orig);
        lemma_pow2_pos(shift as nat);
    }
    let q_top: Word = if lhs_carry > 0 {
        proof {
            // the top words with the carry are below the divisor
            let t = window_val(s1, l - n + 1, n - 1) as int;
            let e = word_pow((l - n + 1) as nat) as int;
            crate::words::lemma_window_split(s1, 0, l - n + 1, n - 1);
            assert(s1.subrange(0, l as int) =~= s1);
            crate::words::lemma_word_pow_adds((l - n + 1) as nat, (n - 1) as nat);
            lemma_mul_strict_inequality(words_val(orig) as int, word_pow(l as nat) as int, p);
            assert((t + lhs_carry * word_pow((n - 1) as nat)) * e < (p * word_pow((n - 1) as nat))
                * e) by (nonlinear_arith)
                requires
                    window_val(s1, 0, l as int) == window_val(s1, 0, l - n + 1) + e * t,
                    window_val(s1, 0, l as int) + lhs_carry * word_pow(l as nat) == words_val(orig)
                        * p,
                    words_val(orig) * p < word_pow(l as nat) * p,
                    word_pow(l as nat) == e * word_pow((n - 1) as nat),
                    window_val(s1, 0, l - n + 1) >= 0,
            ;
            crate::words::lemma_word_pow(( l - n + 1) as nat);
            lemma_mul_strict_inequality_converse(
                t + lhs_carry * word_pow((n - 1) as nat),
                p * word_pow((n - 1) as nat),
                e,
            );
        }
        simple::div_rem_highest_word(lhs_carry, lhs, rhs, fast_div_rhs_top)
    } else {
        0
    };
    let ghost s2 = lhs@;
    proof {
        // the value changed by the top window only
        crate::words::lemma_words_val_window(s1, s2, l - n, n as int);
        crate::words::lemma_word_pow_adds((l - n) as nat, n as nat);
        assert(words_val(orig) * p == words_val(s2) + q_top * big_b * word_pow((l - n) as nat)) by (
        nonlinear_arith)
            requires
                words_val(s1) + lhs_carry * word_pow(l as nat) == words_val(orig) * p,
                words_val(s2) - words_val(s1) == word_pow((l - n) as nat) * (window_val(
                    s2,
                    l - n,
                    n as int,
                ) - window_val(s1, l - n, n as int)),
                lhs_carry > 0 ==> window_val(s1, l - n, n as int) + lhs_carry * word_pow(n as nat)
                    == q_top * big_b + window_val(s2, l - n, n as int),
                lhs_carry == 0 ==> q_top == 0 && s2 == s1,
                word_pow(l as nat) == word_pow((l - n) as nat) * word_pow(n as nat),
        ;
    }
    let overflow = simple::div_rem_in_place(lhs, rhs, fast_div_rhs_top);
    proof {
        if overflow {
            assert(lhs_carry == 0);
        }
        let x = window_val(lhs@, n as int, l - n);
        let w = word_pow((l - n) as nat);
        assert(words_val(orig) * p == (x + (q_top + (if overflow { 1int } else { 0 })) * w) * big_b
            + window_val(lhs@, 0, n as int)) by (nonlinear_arith)
            requires
                words_val(orig) * p == words_val(s2) + q_top * big_b * w,
                words_val(s2) == (x + (if overflow { w } else { 0 })) * big_b + window_val(
                    lhs@,
                    0,
                    n as int,
                ),
        ;
    }
    q_top + if overflow { 1 } else { 0 }
}

} // verus!
