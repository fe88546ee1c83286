//! Exact division and divisibility tests: Hensel (2-adic) division, which finds the quotient
//! from the lowest word up with the inverse of the divisor modulo `2^64`.
use vstd::prelude::*;
use vstd::arithmetic::div_mod::*;
use crate::arch::word::{DoubleWord, Word};
use crate::buffer::spec_max_capacity;
use crate::div::{rem_by_word, rem_by_dword};
use crate::ibig::{IBig, spec_abs};
use crate::primitive::{shrink_dword, extend_word};
use crate::ubig::UBig;
use crate::words::{words_val, word_pow, window_val, is_normalized, lemma_word_pow, lemma_word_pow_adds, lemma_words_val_split, lemma_words_val_window, lemma_words_val_bound, lemma_words_val_lower, lemma_words_val_zero_iff, lemma_words_val_push};
use crate::primitive::word_base;
use crate::add::sub_word_at;
use crate::mul::sub_mul_word_same_len_at;
use vstd::arithmetic::power2::*;
use vstd::arithmetic::mul::*;

verus! {

/// `2^64`, the modulus of word arithmetic.
spec fn word_modulus() -> int {
    0x1_0000_0000_0000_0000
}

/// An odd number squared is one more than a multiple of eight.
proof fn lemma_odd_square(d: int)
    requires
        d % 2 == 1,
    ensures
        (d * d) % 8 == 1,
{
    let u = d / 8;
    let r = d % 8;
    lemma_fundamental_div_mod(d, 8);
    assert(d * d == 8 * (8 * u * u + 2 * u * r) + r * r) by (nonlinear_arith)
        requires
            d == 8 * u + r,
    ;
    lemma_mod_multiples_vanish(8 * u * u + 2 * u * r, r * r, 8);
    assert(r == 1 || r == 3 || r == 5 || r == 7);
}

/// One Newton step for the inverse modulo a power of two: if `d x == 1 (mod 2^k)`, then
/// `x' = x (2 - d x)`, computed modulo `2^64`, has `d x' == 1 (mod 2^j)` for any `j <= 2k`
/// up to 64.
proof fn lemma_newton_inverse_step(d: int, x: int, y: int, z: int, x2: int, k: nat, j: nat)
    requires
        1 <= k,
        1 <= j <= 64,
        j <= 2 * k,
        (d * x) % (pow2(k) as int) == 1,
        y == (d * x) % word_modulus(),
        z % word_modulus() == (2 - y) % word_modulus(),
        x2 == (x * z) % word_modulus(),
    ensures
        (d * x2) % (pow2(j) as int) == 1,
{
    let w = word_modulus();
    let p = pow2(j) as int;
    let m = pow2(k) as int;
    lemma2_to64();
    lemma2_to64_rest();
    lemma_pow2_pos(j);
    lemma_pow2_pos(k);
    lemma_pow2_adds(j, (64 - j) as nat);
    assert(w == p * pow2((64 - j) as nat));
    let cw = pow2((64 - j) as nat) as int;
    lemma_pow2_pos((64 - j) as nat);
    // reductions modulo w are reductions modulo p
    lemma_mod_mod(x * z, p, cw);
    lemma_mod_mod(d * x, p, cw);
    lemma_mod_mod(z, p, cw);
    lemma_mod_mod(2 - y, p, cw);
    lemma_mul_mod_noop_general(d, x * z, p);
    lemma_mul_mod_noop_general(d, x2, p);
    lemma_mul_is_associative(d, x, z);
    lemma_mul_mod_noop_general(d * x, z, p);
    lemma_mul_mod_noop_general(d * x, 2 - d * x, p);
    lemma_sub_mod_noop(2, y, p);
    lemma_sub_mod_noop(2, d * x, p);
    // d x == 1 + t 2^k, so (d x)(2 - d x) == 1 - t^2 2^(2k)
    let t = (d * x) / m;
    lemma_fundamental_div_mod(d * x, m);
    lemma_pow2_adds(j, (2 * k - j) as nat);
    lemma_pow2_adds(k, k);
    let c = pow2((2 * k - j) as nat) as int;
    assert(m * m == p * c);
    assert((d * x) * (2 - d * x) == p * (-(t * t * c)) + 1) by (nonlinear_arith)
        requires
            d * x == m * t + 1,
            m * m == p * c,
    ;
    lemma_mod_multiples_vanish(-(t * t * c), 1, p);
    lemma_small_mod(1, p as nat);
}

/// The inverse of an odd word modulo `2^64`, by Newton's iteration from `d` itself (which is
/// its own inverse modulo 8): each step doubles the number of correct low bits.
fn word_inverse(d: Word) -> (di: Word)
    requires
        d % 2 == 1,
    ensures
        (d * di) % word_modulus() == 1,
{
    proof {
        lemma_odd_square(d as int);
        lemma2_to64();
    }
    let mut x: Word = d;
    let mut k: u32 = 3;
    while k < 64
        invariant
            d % 2 == 1,
            3 <= k <= 64,
            (d * x) % (pow2(k as nat) as int) == 1,
        decreases 64 - k,
    {
        let y = d.wrapping_mul(x);
        let z = 2u64.wrapping_sub(y);
        let x2 = x.wrapping_mul(z);
        let j: u32 = if k >= 32 { 64 } else { 2 * k };
        proof {
            lemma_mod_multiples_vanish(1, 2 - y, word_modulus());
            lemma_newton_inverse_step(d as int, x as int, y as int, z as int, x2 as int, k as nat, j as nat);
        }
        x = x2;
        k = j;
    }
    proof {
        lemma2_to64_rest();
    }
    x
}

/// An odd factor does not help a power of two divide: `2^k | x d` with `d` odd gives `2^k | x`.
proof fn lemma_pow2_divides_odd_product(x: int, d: int, k: nat)
    requires
        d % 2 == 1,
        (x * d) % (pow2(k) as int) == 0,
    ensures
        x % (pow2(k) as int) == 0,
    decreases k,
{
    lemma2_to64();
    lemma_pow2_pos(k);
    if k > 0 {
        let m1 = pow2((k - 1) as nat) as int;
        lemma_pow2_pos((k - 1) as nat);
        lemma_pow2_adds(1, (k - 1) as nat);
        assert(pow2(k) as int == 2 * m1);
        lemma_mod_mod(x * d, 2, m1);
        lemma_mul_mod_noop_general(x, d, 2);
        lemma_mod_bound(x, 2);
        assert(x % 2 == 0) by {
            if x % 2 == 1 {
                assert((x % 2) * (d % 2) == 1);
            }
        }
        let x1 = x / 2;
        lemma_fundamental_div_mod(x, 2);
        let t = (x * d) / (2 * m1);
        lemma_fundamental_div_mod(x * d, 2 * m1);
        assert(x1 * d == m1 * t) by (nonlinear_arith)
            requires
                x == 2 * x1 + 0,
                x * d == (2 * m1) * t + 0,
        ;
        lemma_mod_multiples_basic(t, m1);
        lemma_mul_is_commutative(t, m1);
        lemma_pow2_divides_odd_product(x1, d, (k - 1) as nat);
        let u = x1 / m1;
        lemma_fundamental_div_mod(x1, m1);
        assert(x == (2 * m1) * u) by (nonlinear_arith)
            requires
                x == 2 * x1,
                x1 == m1 * u + 0,
        ;
        lemma_mod_multiples_basic(u, 2 * m1);
        lemma_mul_is_commutative(u, 2 * m1);
    }
}

/// The 2-adic digits of a quotient are forced: if the odd `d` divides
/// `a == qi d + r 2^(64 i)` with `r >= 0`, then `r` is a non-negative multiple of `d`.
proof fn lemma_hensel_rest(a: int, d: int, qi: int, r: int, i: nat) -> (kk: int)
    requires
        d % 2 == 1,
        d > 0,
        a % d == 0,
        a == qi * d + r * word_pow(i),
        r >= 0,
    ensures
        kk >= 0,
        r == kk * d,
{
    let wi = word_pow(i) as int;
    lemma_word_pow(i);
    let q = a / d;
    lemma_fundamental_div_mod(a, d);
    assert((q - qi) * d == r * wi) by (nonlinear_arith)
        requires
            a == d * q + 0,
            a == qi * d + r * wi,
    ;
    lemma_mod_multiples_basic(r, wi);
    lemma_pow2_divides_odd_product(q - qi, d, 64 * i);
    let kk = (q - qi) / wi;
    lemma_fundamental_div_mod(q - qi, wi);
    assert(r == kk * d && kk >= 0) by (nonlinear_arith)
        requires
            (q - qi) * d == r * wi,
            q - qi == wi * kk + 0,
            wi > 0,
            r >= 0,
            d > 0,
    ;
    kk
}

/// The lowest word of a number: `words_val(s) mod 2^64 == s[0]`.
proof fn lemma_words_val_low_word(s: Seq<Word>)
    requires
        s.len() > 0,
    ensures
        words_val(s) == s[0] + word_base() * words_val(s.subrange(1, s.len() as int)),
        (words_val(s) as int) % (word_base() as int) == s[0],
{
    let rest = words_val(s.subrange(1, s.len() as int)) as int;
    lemma_mod_multiples_vanish(rest, s[0] as int, word_base() as int);
    lemma_small_mod(s[0] as nat, word_base());
}

/// The words from `i` on: the word at `i`, then those from `i + 1` on.
proof fn lemma_words_from_step(s: Seq<Word>, i: int)
    requires
        0 <= i < s.len(),
    ensures
        words_val(s.subrange(i, s.len() as int)) == s[i] + word_base() * words_val(
            s.subrange(i + 1, s.len() as int),
        ),
        words_val(s.subrange(0, i + 1)) == words_val(s.subrange(0, i)) + s[i] * word_pow(i as nat),
{
    let t = s.subrange(i, s.len() as int);
    assert(t.subrange(1, t.len() as int) =~= s.subrange(i + 1, s.len() as int));
    lemma_words_val_low_word(t);
    assert(s.subrange(0, i + 1) =~= s.subrange(0, i).push(s[i]));
    lemma_words_val_push(s.subrange(0, i), s[i]);
}

/// The quotient word that Hensel division takes is the lowest word of the true quotient: if
/// `hi == kk d` with `kk >= 0` and `q == (hi mod 2^64) di mod 2^64` where `d di == 1
/// (mod 2^64)`, then `kk == q (mod 2^64)`, so `hi >= q d`.
proof fn lemma_hensel_digit(hi: int, kk: int, d: int, q: int, r0: int, di: int)
    requires
        hi == kk * d,
        kk >= 0,
        d > 0,
        r0 == hi % word_modulus(),
        q == (r0 * di) % word_modulus(),
        (d * di) % word_modulus() == 1,
    ensures
        hi >= q * d,
{
    let w = word_modulus();
    lemma_mul_mod_noop_general(hi, di, w);
    lemma_mul_is_associative(kk, d, di);
    lemma_mul_mod_noop_general(kk, d * di, w);
    lemma_mul_basics(kk);
    assert(q == kk % w);
    lemma_mod_bound(kk, w);
    lemma_fundamental_div_mod(kk, w);
    lemma_div_pos_is_pos(kk, w);
    assert(kk >= q) by (nonlinear_arith)
        requires
            kk == w * (kk / w) + kk % w,
            kk / w >= 0,
            q == kk % w,
            w > 0,
    ;
    lemma_mul_inequality(q, kk, d);
}

/// Hensel (2-adic) exact division in place by the odd `divisor` of `m` words, given `di`, the
/// inverse of its lowest word modulo `2^64`: returns whether the divisor divides the number;
/// then the words hold the quotient.
///
/// Each quotient word is `w[i] di mod 2^64`, which clears the lowest word of what is left when
/// `q divisor` is taken from it; a borrow that runs off the top, or a non-zero rest above the
/// quotient, means that the division is not exact.
fn hensel_div_exact(w: &mut Vec<Word>, divisor: &[Word], di: Word) -> (exact: bool)
    requires
        old(w)@.len() >= divisor@.len() >= 1,
        is_normalized(divisor@),
        divisor@[0] % 2 == 1,
        (divisor@[0] * di) % word_modulus() == 1,
    ensures
        final(w)@.len() == old(w)@.len(),
        exact == (words_val(old(w)@) % words_val(divisor@) == 0),
        exact ==> words_val(final(w)@) == words_val(old(w)@) / words_val(divisor@),
{
    let ghost a = words_val(w@) as int;
    let ghost dd = words_val(divisor@) as int;
    let n = w.len();
    let m = divisor.len();
    let qn = n - m + 1;
    proof {
        lemma_words_val_lower(divisor@);
        lemma_word_pow((m - 1) as nat);
        lemma_words_val_low_word(divisor@);
        lemma_fundamental_div_mod(dd, 2);
        lemma_mod_mod(dd, 2, 0x8000_0000_0000_0000);
        assert(dd % 2 == 1);
        assert(w@.subrange(0, 0) =~= Seq::<Word>::empty());
        assert(w@.subrange(0, n as int) =~= w@);
        lemma_word_pow(0);
        assert(words_val(Seq::<Word>::empty()) == 0);
        lemma_mul_basics(dd);
        lemma_mul_basics(a);
    }
    let mut i: usize = 0;
    while i < qn
        invariant
            n == w@.len(),
            m == divisor@.len(),
            qn == n - m + 1,
            1 <= m <= n,
            i <= qn,
            n == old(w)@.len(),
            a == words_val(old(w)@),
            is_normalized(divisor@),
            dd == words_val(divisor@),
            dd > 0,
            dd % 2 == 1,
            dd % word_modulus() == divisor@[0],
            (divisor@[0] * di) % word_modulus() == 1,
            a == words_val(w@.subrange(0, i as int)) * dd + words_val(w@.subrange(i as int, n as int))
                * word_pow(i as nat),
        decreases qn - i,
    {
        let ghost w0 = w@;
        let ghost lo = words_val(w0.subrange(0, i as int)) as int;
        let ghost hi = words_val(w0.subrange(i as int, n as int)) as int;
        let r0 = w[i];
        let q = r0.wrapping_mul(di);
        proof {
            lemma_words_from_step(w0, i as int);
            lemma_words_val_split(w0, i as int);
            lemma_word_pow(i as nat);
            lemma_words_val_bound(w0.subrange(0, i as int));
        }
        let b = sub_mul_word_same_len_at(w.as_mut_slice(), i, q, divisor);
        let ghost w1 = w@;
        proof {
            lemma_words_val_window(w0, w1, i as int, m as int);
            lemma_word_pow_adds(i as nat, m as nat);
            lemma_word_pow(m as nat);
        }
        let mut ran_off = false;
        if b != 0 {
            if i + m < n {
                ran_off = sub_word_at(w.as_mut_slice(), i + m, b);
            } else {
                ran_off = true;
            }
        }
        let ghost w2 = w@;
        if ran_off {
            proof {
                // what is left went below zero: hi < q d, which a multiple of d cannot give
                lemma_words_val_bound(w1);
                lemma_words_val_bound(w2);
                lemma_words_val_split(w1, i as int);
                assert(hi < q * dd) by (nonlinear_arith)
                    requires
                        words_val(w1) - words_val(w0) == word_pow(i as nat) * (b * word_pow(m as nat) - q * dd),
                        words_val(w0) == lo + word_pow(i as nat) * hi,
                        lo >= 0,
                        word_pow(i as nat) > 0,
                        b >= 1,
                        i + m >= n ==> words_val(w1) < word_pow(n as nat) && word_pow((i + m) as nat) >= word_pow(n as nat),
                        i + m < n ==> words_val(w2) - word_pow(n as nat) == words_val(w1) - b * word_pow((i + m) as nat),
                        words_val(w2) < word_pow(n as nat),
                        words_val(w2) >= 0,
                        word_pow((i + m) as nat) == word_pow(i as nat) * word_pow(m as nat),
                ;
                if a % dd == 0 {
                    let kk = lemma_hensel_rest(a, dd, lo, hi, i as nat);
                    lemma_mod_multiples_vanish(words_val(w0.subrange(i + 1, n as int)) as int, r0 as int, word_modulus());
                    lemma_small_mod(r0 as nat, word_modulus() as nat);
                    lemma_mul_mod_noop_general(dd, di as int, word_modulus());
                    lemma_hensel_digit(hi, kk, dd, q as int, r0 as int, di as int);
                }
            }
            return false;
        }
        proof {
            // the words below i are untouched, and the rest is hi - q d, with its lowest word zero
            assert(words_val(w2) == words_val(w0) - q * dd * word_pow(i as nat)) by (nonlinear_arith)
                requires
                    words_val(w1) - words_val(w0) == word_pow(i as nat) * (b * word_pow(m as nat) - q * dd),
                    b == 0 ==> w2 == w1,
                    b != 0 ==> words_val(w2) == words_val(w1) - b * word_pow((i + m) as nat),
                    word_pow((i + m) as nat) == word_pow(i as nat) * word_pow(m as nat),
            ;
            assert(w2.subrange(0, i as int) =~= w0.subrange(0, i as int));
            lemma_words_val_split(w2, i as int);
            let hi2 = words_val(w2.subrange(i as int, n as int)) as int;
            assert(hi2 == hi - q * dd) by (nonlinear_arith)
                requires
                    words_val(w2) == words_val(w0) - q * dd * word_pow(i as nat),
                    words_val(w0) == lo + word_pow(i as nat) * hi,
                    words_val(w2) == lo + word_pow(i as nat) * hi2,
                    word_pow(i as nat) > 0,
            ;
            // hi and q d agree modulo 2^64
            let wm = word_modulus();
            lemma_mod_multiples_vanish(words_val(w0.subrange(i + 1, n as int)) as int, r0 as int, wm);
            lemma_small_mod(r0 as nat, wm as nat);
            lemma_mul_mod_noop_general(r0 * di, dd, wm);
            lemma_mul_is_associative(r0 as int, di as int, dd);
            lemma_mul_is_commutative(di as int, dd);
            lemma_mul_mod_noop_general(r0 as int, di * dd, wm);
            lemma_mul_mod_noop_general(dd, di as int, wm);
            lemma_mul_is_commutative(dd, di as int);
            lemma_mul_basics(r0 as int);
            assert((q * dd) % wm == r0);
            lemma_sub_mod_noop(hi, q * dd, wm);
            assert(hi2 % wm == 0);
            lemma_words_from_step(w2, i as int);
            lemma_mod_multiples_vanish(words_val(w2.subrange(i + 1, n as int)) as int, w2[i as int] as int, wm);
            lemma_small_mod(w2[i as int] as nat, wm as nat);
            assert(w2[i as int] == 0);
        }
        w.set(i, q);
        proof {
            let w3 = w@;
            assert(w3.subrange(0, i as int) =~= w0.subrange(0, i as int));
            assert(w3.subrange(i + 1, n as int) =~= w2.subrange(i + 1, n as int));
            lemma_words_from_step(w3, i as int);
            lemma_word_pow(i as nat);
            let hi3 = words_val(w3.subrange(i + 1, n as int)) as int;
            assert(a == (lo + q * word_pow(i as nat)) * dd + hi3 * word_pow((i + 1) as nat)) by (nonlinear_arith)
                requires
                    a == lo * dd + hi * word_pow(i as nat),
                    hi - q * dd == 0 + word_base() * hi3,
                    word_pow((i + 1) as nat) == word_base() * word_pow(i as nat),
            ;
        }
        i = i + 1;
    }
    let ghost lo_f = words_val(w@.subrange(0, qn as int)) as int;
    let ghost rest = w@.subrange(qn as int, n as int);
    let mut j: usize = qn;
    let mut zero = true;
    while j < n
        invariant
            n == w@.len(),
            qn <= j <= n,
            rest == w@.subrange(qn as int, n as int),
            zero == (forall|k: int| qn <= k < j ==> w@[k] == 0),
        decreases n - j,
    {
        if w[j] != 0 {
            zero = false;
        }
        j = j + 1;
    }
    proof {
        lemma_words_val_zero_iff(rest);
        lemma_words_val_split(w@, qn as int);
        lemma_word_pow(qn as nat);
        if zero {
            assert forall|k: int| 0 <= k < rest.len() implies rest[k] == 0 by {
                assert(w@[qn + k] == 0);
            }
            assert(words_val(rest) == 0);
            lemma_mul_basics(word_pow(qn as nat) as int);
            lemma_mul_is_commutative(lo_f, dd);
            assert(a == dd * lo_f + 0);
            lemma_fundamental_div_mod_converse(a, dd, lo_f, 0);
        } else {
            assert(words_val(rest) != 0) by {
                let k = choose|k: int| qn <= k < n && w@[k] != 0;
                assert(rest[k - qn] != 0);
            }
            lemma_words_val_bound(rest);
            assert(rest.len() == m - 1);
            if a % dd == 0 {
                let kk = lemma_hensel_rest(a, dd, lo_f, words_val(rest) as int, qn as nat);
                assert(false) by (nonlinear_arith)
                    requires
                        words_val(rest) == kk * dd,
                        kk >= 0,
                        words_val(rest) > 0,
                        words_val(rest) < word_pow((m - 1) as nat),
                        dd >= word_pow((m - 1) as nat),
                ;
            }
        }
    }
    zero
}

/// Is the number given by the words (more than two of them) a multiple of the non-zero double
/// word `d`?
fn is_multiple_of_dword(words: &[Word], d: DoubleWord) -> (r: bool)
    requires
        d != 0,
        words@.len() > 2,
    ensures
        r == (words_val(words@) % (d as nat) == 0),
{
    if let Some(word) = shrink_dword(d) {
        rem_by_word(words, word) == 0
    } else {
        rem_by_dword(words, d) == 0
    }
}

impl UBig {
    /// Determine whether the integer is perfectly divisible by the divisor.
    ///
    /// Zero is a multiple of every divisor.
    ///
    /// # Panics
    ///
    /// Panics if the divisor is zero.
    pub fn is_multiple_of(&self, divisor: &UBig) -> (r: bool)
        requires
            divisor@ != 0,
        ensures
            r == (self@ % divisor@ == 0),
    {
        match (self.as_dword(), divisor.as_dword()) {
            (Some(n), Some(d)) => n % d == 0,
            (Some(n), None) => {
                // a non-zero number below the divisor is not a multiple of it
                proof {
                    if n != 0 {
                        lemma_small_mod(n as nat, divisor@);
                    } else {
                        lemma_small_mod(0, divisor@);
                    }
                }
                n == 0
            },
            (None, Some(d)) => is_multiple_of_dword(self.as_words(), d),
            // the exactness test of the exact division is the divisibility test
            (None, None) => self.div_exact(divisor).is_some(),
        }
    }

    /// A remainder based version of [UBig::is_multiple_of], which only accepts
    /// [DoubleWord] divisors.
    ///
    /// # Panics
    ///
    /// Panics if the divisor is zero.
    pub fn is_multiple_of_const(&self, divisor: DoubleWord) -> (r: bool)
        requires
            divisor != 0,
        ensures
            r == (self@ % (divisor as nat) == 0),
    {
        if let Some(w) = shrink_dword(divisor) {
            match self.as_dword() {
                Some(dword) => dword % extend_word(w) == 0,
                None => rem_by_word(self.as_words(), w) == 0,
            }
        } else {
            match self.as_dword() {
                Some(dword) => dword % divisor == 0,
                None => rem_by_dword(self.as_words(), divisor) == 0,
            }
        }
    }
}

impl IBig {
    /// Determine whether the integer is perfectly divisible by the divisor.
    ///
    /// # Panics
    ///
    /// Panics if the divisor is zero.
    pub fn is_multiple_of(&self, divisor: &IBig) -> (r: bool)
        requires
            divisor@ != 0,
        ensures
            r == (spec_abs(self@) % spec_abs(divisor@) == 0),
    {
        self.magnitude().is_multiple_of(divisor.magnitude())
    }

    /// A remainder based version of [IBig::is_multiple_of], which only accepts
    /// [DoubleWord] divisors.
    ///
    /// # Panics
    ///
    /// Panics if the divisor is zero.
    pub fn is_multiple_of_const(&self, divisor: DoubleWord) -> (r: bool)
        requires
            divisor != 0,
        ensures
            r == (spec_abs(self@) % (divisor as nat) == 0),
    {
        self.magnitude().is_multiple_of_const(divisor)
    }
}

/// The quotient of double words when the division is exact.
fn div_exact_dword(lhs: DoubleWord, rhs: DoubleWord) -> (r: Option<UBig>)
    ensures
        r is Some <==> rhs != 0 && lhs % rhs == 0,
        r matches Some(q) ==> q@ == lhs / rhs,
{
    if rhs == 0 {
        None
    } else if rhs == 1 {
        Some(UBig::from_dword(lhs))
    } else if lhs % rhs == 0 {
        Some(UBig::from_dword(lhs / rhs))
    } else {
        None
    }
}

/// From this many words on, a divisor is divided out by the general division rather than by
/// the Hensel division.
const THRESHOLD_DIV_EXACT: usize = 180;

/// `2^s` divides `x > 0`, so `2^s <= x`, and `s` is below the number of bits of the words.
proof fn lemma_pow2_divides_bound(x: nat, s: nat, len: nat)
    requires
        x > 0,
        x % pow2(s) == 0,
        x < word_pow(len),
    ensures
        pow2(s) <= x,
        s / 64 < len,
{
    lemma_pow2_pos(s);
    lemma_fundamental_div_mod(x as int, pow2(s) as int);
    let k = x / pow2(s);
    assert(x == pow2(s) * k);
    if k == 0 {
        assert(x == 0);
    }
    lemma_mul_inequality(1, k as int, pow2(s) as int);
    lemma_mul_is_commutative(k as int, pow2(s) as int);
    if s >= 64 * len {
        lemma_pow2_strictly_increases_or_equal_le(64 * len, s);
    }
}

/// `2^a <= 2^b` for `a <= b`.
proof fn lemma_pow2_strictly_increases_or_equal_le(a: nat, b: nat)
    requires
        a <= b,
    ensures
        pow2(a) <= pow2(b),
{
    if a < b {
        lemma_pow2_strictly_increases(a, b);
    }
}

/// Scaling both sides by `c > 0` keeps divisibility and the quotient.
proof fn lemma_scaled_division(a: int, d: int, c: int)
    requires
        a >= 0,
        d > 0,
        c > 0,
    ensures
        ((a * c) % (d * c) == 0) == (a % d == 0),
        (a * c) / (d * c) == a / d,
{
    let q = a / d;
    let r = a % d;
    lemma_fundamental_div_mod(a, d);
    lemma_mod_bound(a, d);
    assert(a * c == (d * c) * q + r * c && 0 <= r * c < d * c) by (nonlinear_arith)
        requires
            a == d * q + r,
            0 <= r < d,
            c > 0,
    ;
    lemma_mul_strictly_positive(d, c);
    lemma_fundamental_div_mod_converse(a * c, d * c, q, r * c);
    assert((r * c == 0) == (r == 0)) by (nonlinear_arith)
        requires
            c > 0,
    ;
}

/// Exact division by a non-zero divisor of more than two words or of a number of more than
/// two words, by the Hensel division: the factors of two common to both are shifted out (the
/// number must have at least as many as the divisor), and the odd rest of the divisor is
/// divided out of the rest of the number.
fn div_exact_hensel(x: &UBig, d: &UBig) -> (r: Option<UBig>)
    requires
        x@ > 0,
        d@ > 0,
    ensures
        r is Some <==> x@ % d@ == 0,
        r matches Some(q) ==> q@ == x@ / d@,
{
    let xw = x.as_words();
    let dw = d.as_words();
    let s = match d.trailing_zeros() {
        Some(t) => t,
        None => 0,
    };
    proof {
        lemma_words_val_bound(xw@);
        lemma_words_val_bound(dw@);
        lemma_pow2_divides_bound(d@, s as nat, dw@.len());
        lemma_pow2_pos(s as nat);
    }
    if x.are_low_bits_nonzero(s) {
        proof {
            // 2^s divides d, so a multiple of d is a multiple of 2^s
            if x@ % d@ == 0 {
                lemma_fundamental_div_mod(x@ as int, d@ as int);
                lemma_fundamental_div_mod(d@ as int, pow2(s as nat) as int);
                let k = ((x@ / d@) * (d@ / pow2(s as nat))) as int;
                assert(x@ as int == pow2(s as nat) * k) by (nonlinear_arith)
                    requires
                        x@ as int == d@ * (x@ / d@) + 0,
                        d@ as int == pow2(s as nat) * (d@ / pow2(s as nat)) + 0,
                        k == (x@ / d@) * (d@ / pow2(s as nat)),
                ;
                lemma_mod_multiples_basic(k, pow2(s as nat) as int);
                lemma_mul_is_commutative(k, pow2(s as nat) as int);
            }
        }
        return None;
    }
    proof {
        lemma_pow2_divides_bound(x@, s as nat, xw@.len());
    }
    let mut xs = crate::gcd_ops::shr_bits(xw, s);
    let ds = crate::gcd_ops::shr_bits(dw, s);
    let ghost xv = words_val(xs@) as int;
    let ghost dv = words_val(ds@) as int;
    let ghost p = pow2(s as nat) as int;
    proof {
        lemma_fundamental_div_mod(x@ as int, p);
        lemma_fundamental_div_mod(d@ as int, p);
        assert(x@ as int == xv * p) by {
            lemma_mul_is_commutative(p, xv);
        }
        assert(d@ as int == dv * p) by {
            lemma_mul_is_commutative(p, dv);
        }
        lemma_scaled_division(xv, dv, p);
        if xv == 0 {
            lemma_mul_basics(p);
        }
        if dv == 0 {
            lemma_mul_basics(p);
        }
        crate::ubig::lemma_zero_iff_empty(ds@);
        crate::ubig::lemma_zero_iff_empty(xs@);
    }
    if xs.len() < ds.len() {
        proof {
            crate::words::lemma_normalized_len(xs@, ds@);
            lemma_small_mod(xv as nat, dv as nat);
        }
        return None;
    }
    let d0 = ds[0];
    proof {
        lemma_words_val_low_word(ds@);
        lemma_mod_mod(dv, 2, 0x8000_0000_0000_0000);
        assert(word_base() == 2 * 0x8000_0000_0000_0000);
        lemma_small_mod(d0 as nat, word_base());
    }
    let di = word_inverse(d0);
    let exact = hensel_div_exact(&mut xs, ds.as_slice(), di);
    if exact {
        Some(UBig::from_vec(xs))
    } else {
        None
    }
}

impl UBig {
    /// Exact division: `Some(self / rhs)` when `rhs` divides `self`, and `None` otherwise
    /// (also when `rhs` is zero, which divides nothing).
    pub fn div_exact(&self, rhs: &UBig) -> (r: Option<UBig>)
        ensures
            r is Some <==> rhs@ != 0 && self@ % rhs@ == 0,
            r matches Some(q) ==> q@ == self@ / rhs@,
    {
        match (self.as_dword(), rhs.as_dword()) {
            (Some(a), Some(b)) => div_exact_dword(a, b),
            _ => {
                if rhs.is_zero() {
                    None
                } else if self.is_zero() {
                    proof {
                        lemma_small_mod(0, rhs@);
                        lemma_basic_div(0, rhs@ as int);
                    }
                    Some(UBig::zero())
                } else if rhs.len() > THRESHOLD_DIV_EXACT {
                    // for a long divisor the general division is the faster way
                    let (q, r) = self.div_rem(rhs);
                    if r.is_zero() {
                        Some(q)
                    } else {
                        None
                    }
                } else {
                    div_exact_hensel(self, rhs)
                }
            },
        }
    }

    /// In-place exact division by a double word: `self` becomes `self / divisor` when
    /// `divisor` divides `self`, and is left unchanged otherwise. Returns whether the
    /// division was exact.
    pub fn div_exact_assign_dword(&mut self, divisor: DoubleWord) -> (r: bool)
        ensures
            r == (divisor != 0 && old(self)@ % (divisor as nat) == 0),
            r ==> final(self)@ == old(self)@ / (divisor as nat),
            !r ==> final(self)@ == old(self)@,
    {
        if divisor == 0 {
            return false;
        }
        if self.is_zero() || divisor == 1 {
            proof {
                lemma_small_mod(0, divisor as nat);
                lemma_basic_div(0, divisor as int);
                lemma_div_basics(self@ as int);
                lemma_fundamental_div_mod(self@ as int, 1);
            }
            return true;
        }
        let d = UBig::from_dword(divisor);
        let (q, r) = self.div_rem(&d);
        if r.is_zero() {
            *self = q;
            true
        } else {
            false
        }
    }

    /// In-place exact division: `self` becomes `self / rhs` when `rhs` divides `self`, and is
    /// left unchanged otherwise. Returns whether the division was exact.
    pub fn div_exact_assign(&mut self, rhs: &UBig) -> (r: bool)
        ensures
            r == (rhs@ != 0 && old(self)@ % rhs@ == 0),
            r ==> final(self)@ == old(self)@ / rhs@,
            !r ==> final(self)@ == old(self)@,
    {
        if let Some(dword) = rhs.as_dword() {
            return self.div_exact_assign_dword(dword);
        }
        match self.div_exact(rhs) {
            Some(q) => {
                *self = q;
                true
            },
            None => false,
        }
    }
}

impl IBig {
    /// Exact division: `Some(self / rhs)` when `rhs` divides `self`, the quotient's sign
    /// being the product of the signs, and `None` otherwise (also when `rhs` is zero).
    pub fn div_exact(&self, rhs: &IBig) -> (r: Option<IBig>)
        ensures
            r is Some <==> rhs@ != 0 && spec_abs(self@) % spec_abs(rhs@) == 0,
            r matches Some(q) ==> q@ * rhs@ == self@,
    {
        let sign0 = self.sign();
        let sign1 = rhs.sign();
        match self.magnitude().div_exact(rhs.magnitude()) {
            Some(q) => {
                let ghost m = q@;
                let r = IBig::from_parts(sign0.times(sign1), q);
                proof {
                    lemma_fundamental_div_mod(spec_abs(self@) as int, spec_abs(rhs@) as int);
                    vstd::arithmetic::mul::lemma_mul_is_commutative(spec_abs(rhs@) as int, m as int);
                    vstd::arithmetic::mul::lemma_mul_unary_negation(m as int, spec_abs(rhs@) as int);
                    vstd::arithmetic::mul::lemma_mul_cancels_negatives(m as int, spec_abs(rhs@) as int);
                    vstd::arithmetic::mul::lemma_mul_is_commutative(m as int, -(spec_abs(rhs@) as int));
                    vstd::arithmetic::mul::lemma_mul_basics(spec_abs(rhs@) as int);
                }
                Some(r)
            },
            None => None,
        }
    }

    /// In-place exact division: `self` becomes the quotient when `rhs` divides `self`, and is
    /// left unchanged otherwise. Returns whether the division was exact.
    pub fn div_exact_assign(&mut self, rhs: &IBig) -> (r: bool)
        ensures
            r == (rhs@ != 0 && spec_abs(old(self)@) % spec_abs(rhs@) == 0),
            r ==> final(self)@ * rhs@ == old(self)@,
            !r ==> final(self)@ == old(self)@,
    {
        match self.div_exact(rhs) {
            Some(q) => {
                *self = q;
                true
            },
            None => false,
        }
    }
}

} // verus!
