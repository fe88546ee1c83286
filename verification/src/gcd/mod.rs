//! Greatest common divisor.
use vstd::prelude::*;
use vstd::arithmetic::power2::*;
use vstd::arithmetic::div_mod::*;
use vstd::arithmetic::mul::*;
use dashu_base::{ExtendedGcd, Gcd};
use crate::arch::word::{DoubleWord, SignedDoubleWord, SignedWord, Word};
use crate::add::{add_word_in_place, add_dword_in_place};
use crate::div::{div_by_word_in_place, div_by_dword_in_place};
use crate::ibig::{spec_abs, signed_value};
use crate::mul::{mul_word_in_place, mul_dword_in_place};
use crate::primitive::{shrink_dword, extend_word};
use crate::sign::Sign;
use crate::words::{words_val, word_pow, lemma_word_pow, lemma_words_val_bound};

pub mod lehmer;

verus! {

/// The greatest common divisor by Euclid's recursion; `gcd(0, 0) == 0`.
pub open spec fn spec_gcd(a: nat, b: nat) -> nat
    decreases b,
{
    if b == 0 {
        a
    } else {
        spec_gcd(b, a % b)
    }
}

/// `d` is a positive divisor of `x`.
pub open spec fn divides(d: nat, x: nat) -> bool {
    d > 0 && x % d == 0
}

/// `g` is the greatest common divisor of `a` and `b`: a common divisor that every common divisor
/// divides.
pub open spec fn is_gcd(a: nat, b: nat, g: nat) -> bool {
    &&& divides(g, a)
    &&& divides(g, b)
    &&& forall|d: nat| #[trigger] divides(d, a) && divides(d, b) ==> divides(d, g)
}

/// A multiple of a multiple is a multiple: `d | x` and `d | y` give `d | x q + y`.
pub(crate) proof fn lemma_divides_lin(d: nat, x: nat, y: nat, q: nat)
    requires
        divides(d, x),
        divides(d, y),
    ensures
        divides(d, x * q + y),
{
    lemma_fundamental_div_mod(x as int, d as int);
    lemma_fundamental_div_mod(y as int, d as int);
    let i = x / d;
    let j = y / d;
    assert(x * q + y == d * (i * q + j)) by (nonlinear_arith)
        requires
            x == d * i,
            y == d * j,
    ;
    lemma_mod_multiples_basic((i * q + j) as int, d as int);
    lemma_mul_is_commutative(d as int, (i * q + j) as int);
}

/// `d | x` and `d | y` give `d | x - y q` when that is not negative.
pub(crate) proof fn lemma_divides_sub(d: nat, x: nat, y: nat, q: nat)
    requires
        divides(d, x),
        divides(d, y),
        x >= y * q,
    ensures
        divides(d, (x - y * q) as nat),
{
    lemma_fundamental_div_mod(x as int, d as int);
    lemma_fundamental_div_mod(y as int, d as int);
    let i = x / d;
    let j = y / d;
    let k = i - j * q;
    assert(x - y * q == d * k) by (nonlinear_arith)
        requires
            x == d * i,
            y == d * j,
            k == i - j * q,
    ;
    lemma_mod_multiples_basic(k, d as int);
    lemma_mul_is_commutative(d as int, k);
}

/// Two positive numbers that divide each other are equal.
proof fn lemma_divides_antisym(a: nat, b: nat)
    requires
        divides(a, b),
        divides(b, a),
    ensures
        a == b,
{
    lemma_fundamental_div_mod(a as int, b as int);
    lemma_fundamental_div_mod(b as int, a as int);
    let i = a / b;
    let j = b / a;
    assert(a == b) by (nonlinear_arith)
        requires
            a == b * i,
            b == a * j,
            a > 0,
            b > 0,
    ;
}

/// Every positive number divides zero and itself.
pub(crate) proof fn lemma_divides_trivial(d: nat)
    requires
        d > 0,
    ensures
        divides(d, 0),
        divides(d, d),
{
    lemma_mod_self_0(d as int);
    lemma_small_mod(0, d);
}

/// Euclid's recursion computes the greatest common divisor.
pub proof fn lemma_gcd_is_gcd(a: nat, b: nat)
    requires
        a > 0 || b > 0,
    ensures
        is_gcd(a, b, spec_gcd(a, b)),
        spec_gcd(a, b) > 0,
    decreases b,
{
    if b == 0 {
        lemma_divides_trivial(a);
    } else {
        let r = a % b;
        lemma_gcd_is_gcd(b, r);
        let g = spec_gcd(b, r);
        lemma_fundamental_div_mod(a as int, b as int);
        let q = a / b;
        assert(a == b * q + r);
        lemma_mul_is_commutative(b as int, q as int);
        lemma_divides_lin(g, b, r, q);
        assert forall|d: nat| #[trigger] divides(d, a) && divides(d, b) implies divides(d, g) by {
            lemma_divides_sub(d, a, b, q);
            assert((a - b * q) as nat == r);
        }
    }
}

/// The greatest common divisor is unique.
pub proof fn lemma_gcd_unique(a: nat, b: nat, g: nat)
    requires
        is_gcd(a, b, g),
    ensures
        g == spec_gcd(a, b),
{
    assert(a > 0 || b > 0) by {
        if a == 0 && b == 0 {
            lemma_divides_trivial(g + 1);
            assert(divides(g + 1, a) && divides(g + 1, b));
            assert(divides(g + 1, g));
            lemma_small_mod(g, g + 1);
        }
    }
    lemma_gcd_is_gcd(a, b);
    let h = spec_gcd(a, b);
    assert(divides(g, h));
    assert(divides(h, g));
    lemma_divides_antisym(g, h);
}

/// `gcd(a, b) == gcd(b, a)`.
pub proof fn lemma_gcd_comm(a: nat, b: nat)
    ensures
        spec_gcd(a, b) == spec_gcd(b, a),
{
    if a > 0 || b > 0 {
        lemma_gcd_is_gcd(a, b);
        let g = spec_gcd(a, b);
        assert forall|d: nat| #[trigger] divides(d, b) && divides(d, a) implies divides(d, g) by {
            assert(divides(d, a) && divides(d, b));
        }
        lemma_gcd_unique(b, a, g);
    } else {
        assert(spec_gcd(0, 0) == 0);
    }
}

/// `gcd(a, 0) == a` and `gcd(0, b) == b`.
pub proof fn lemma_gcd_zero(a: nat)
    ensures
        spec_gcd(a, 0) == a,
        spec_gcd(0, a) == a,
{
    lemma_gcd_comm(0, a);
}

/// The Bézout coefficients that dashu-base's `ExtendedGcd::gcd_ext` returns for two words.
pub uninterp spec fn word_bezout(a: u64, b: u64) -> (i64, i64);

/// The Bézout coefficients that dashu-base's `ExtendedGcd::gcd_ext` returns for two double words.
pub uninterp spec fn dword_bezout(a: u128, b: u128) -> (i128, i128);

/// dashu-base's `Gcd::gcd` on two words: their greatest common divisor (it runs the binary
/// algorithm, and panics when both are zero).
#[verifier::external_body]
pub(crate) fn word_gcd(a: Word, b: Word) -> (g: Word)
    requires
        a != 0 || b != 0,
    ensures
        g == spec_gcd(a as nat, b as nat),
{
    a.gcd(b)
}

/// dashu-base's `Gcd::gcd` on two double words: their greatest common divisor (it runs the
/// binary algorithm, and panics when both are zero).
#[verifier::external_body]
pub(crate) fn dword_gcd(a: DoubleWord, b: DoubleWord) -> (g: DoubleWord)
    requires
        a != 0 || b != 0,
    ensures
        g == spec_gcd(a as nat, b as nat),
{
    a.gcd(b)
}

/// dashu-base's `ExtendedGcd::gcd_ext` on two words: the greatest common divisor `g` and
/// Bézout coefficients `(s, t)` with `a s + b t == g`, as its documentation states.
///
/// The coefficients are those of the Euclidean recurrence in the source (after the common
/// factors of two are removed, and with shortcuts that return `(0, 1)` or `(1, 0)`), so they
/// have opposite signs or one of them is zero, and for non-zero operands `|s| g <= b` and
/// `|t| g <= a`; with a zero operand the source returns `(b, 0, 1)` or `(a, 1, 0)` at once.
/// For distinct non-zero operands the recurrence stops at a remainder that divides the one
/// before it at least twice (or at a shortcut whose other operand is at least twice the gcd),
/// so `2 |s| g <= b` and `2 |t| g <= a`.
#[verifier::external_body]
pub(crate) fn word_gcd_ext(a: Word, b: Word) -> (r: (Word, SignedWord, SignedWord))
    requires
        a != 0 || b != 0,
    ensures
        r.0 == spec_gcd(a as nat, b as nat),
        a == 0 ==> r.1 == 0 && r.2 == 1,
        b == 0 ==> r.1 == 1 && r.2 == 0,
        (r.1, r.2) == word_bezout(a, b),
        a * r.1 + b * r.2 == r.0,
        r.1 * r.2 <= 0,
        a > 0 && b > 0 ==> spec_abs(r.1 as int) * r.0 <= b && spec_abs(r.2 as int) * r.0 <= a,
        a > 0 && b > 0 && a != b ==> 2 * spec_abs(r.1 as int) * r.0 <= b && 2 * spec_abs(
            r.2 as int,
        ) * r.0 <= a,
{
    a.gcd_ext(b)
}

/// dashu-base's `ExtendedGcd::gcd_ext` on two double words: the greatest common divisor `g`
/// and Bézout coefficients `(s, t)` with `a s + b t == g`, as its documentation states.
///
/// The coefficients are those of the Euclidean recurrence in the source (also where it finishes
/// on single words), so they have opposite signs or one of them is zero, and for non-zero
/// operands `|s| g <= b` and `|t| g <= a`. With a zero operand the source returns `(b, 0, 1)`
/// or `(a, 1, 0)` at once, and for equal non-zero operands its first Euclidean step (or its
/// shortcut for an odd part of one) gives `(a, 0, 1)`. For distinct non-zero operands the
/// recurrence stops at a remainder that divides the one before it at least twice (or at a
/// shortcut whose other operand is at least twice the gcd), so `2 |s| g <= b` and
/// `2 |t| g <= a`.
#[verifier::external_body]
pub(crate) fn dword_gcd_ext(a: DoubleWord, b: DoubleWord) -> (r: (
    DoubleWord,
    SignedDoubleWord,
    SignedDoubleWord,
))
    requires
        a != 0 || b != 0,
    ensures
        r.0 == spec_gcd(a as nat, b as nat),
        a == 0 ==> r.1 == 0 && r.2 == 1,
        b == 0 ==> r.1 == 1 && r.2 == 0,
        a == b && a != 0 ==> r.1 == 0 && r.2 == 1,
        (r.1, r.2) == dword_bezout(a, b),
        a * r.1 + b * r.2 == r.0,
        r.1 * r.2 <= 0,
        a > 0 && b > 0 ==> spec_abs(r.1 as int) * r.0 <= b && spec_abs(r.2 as int) * r.0 <= a,
        a > 0 && b > 0 && a != b ==> 2 * spec_abs(r.1 as int) * r.0 <= b && 2 * spec_abs(
            r.2 as int,
        ) * r.0 <= a,
{
    a.gcd_ext(b)
}

/// Magnitude of a signed word.
pub fn word_unsigned_abs(x: SignedWord) -> (r: Word)
    ensures
        r == spec_abs(x as int),
{
    if x >= 0 {
        x as Word
    } else {
        (-(x as i128)) as Word
    }
}

/// Magnitude of a signed double word.
pub fn dword_unsigned_abs(x: SignedDoubleWord) -> (r: DoubleWord)
    ensures
        r == spec_abs(x as int),
{
    if x >= 0 {
        x as DoubleWord
    } else if x == i128::MIN {
        0x8000_0000_0000_0000_0000_0000_0000_0000u128
    } else {
        (-x) as DoubleWord
    }
}

/// Set the words to the number one.
fn set_one(words: &mut [Word])
    requires
        old(words)@.len() > 0,
    ensures
        final(words)@.len() == old(words)@.len(),
        words_val(final(words)@) == 1,
{
    let n = words.len();
    words[0] = 1;
    let mut i: usize = 1;
    while i < n
        invariant
            n == words@.len(),
            1 <= i <= n,
            words@[0] == 1,
            forall|j: int| 1 <= j < i ==> words@[j] == 0,
        decreases n - i,
    {
        words[i] = 0;
        i = i + 1;
    }
    proof {
        let z = Seq::new((n - 1) as nat, |j: int| 0u64);
        assert(words@ =~= seq![1u64] + z);
        crate::words::lemma_words_val_append(seq![1u64], z);
        crate::words::lemma_words_val_zeros((n - 1) as nat);
        crate::words::lemma_words_val_single(1);
    }
}

/// The sign of the coefficient `s - q t` of a Bézout pair of opposite signs.
fn bezout_sign(s_negative: bool, s_zero: bool, t_positive: bool) -> (r: Sign)
    ensures
        r == (if s_negative || (s_zero && t_positive) { Sign::Negative } else { Sign::Positive }),
{
    if s_negative || (s_zero && t_positive) {
        Sign::Negative
    } else {
        Sign::Positive
    }
}

/// The coefficient `s - q t` has magnitude `q |t| + |s|` and the sign chosen by [bezout_sign].
proof fn lemma_bezout_combine(s: int, t: int, q: nat)
    requires
        s * t <= 0,
    ensures
        signed_value(
            if s < 0 || (s == 0 && t > 0) { Sign::Negative } else { Sign::Positive },
            q * spec_abs(t) + spec_abs(s),
        ) == s - q * t,
{
    if t > 0 {
        assert(s <= 0) by (nonlinear_arith)
            requires
                s * t <= 0,
                t > 0,
        ;
    } else if t < 0 {
        assert(s >= 0) by (nonlinear_arith)
            requires
                s * t <= 0,
                t < 0,
        ;
    }
    assert(q * spec_abs(t) == if t >= 0 { q * t } else { -(q * t) }) by (nonlinear_arith);
}

/// Extended greatest common divisor between a large number and a non-zero word.
///
/// If `g = gcd(lhs, rhs)` and `lhs * a + rhs * b = g`, then b (unsigned) is stored in
/// **lhs**, and the returned tuple is (g, a, sign of b).
pub fn gcd_ext_word(lhs: &mut [Word], rhs: Word) -> (r: (Word, SignedWord, Sign))
    requires
        rhs != 0,
        old(lhs)@.len() > 0,
    ensures
        final(lhs)@.len() == old(lhs)@.len(),
        r.0 == spec_gcd(words_val(old(lhs)@), rhs as nat),
        words_val(old(lhs)@) * r.1 + rhs * signed_value(r.2, words_val(final(lhs)@)) == r.0,
        words_val(old(lhs)@) % (rhs as nat) == 0 ==> r.0 == rhs && r.1 == 0 && r.2 == Sign::Positive
            && words_val(final(lhs)@) == 1,
{
    let ghost l = words_val(lhs@);
    let ghost n = lhs@.len();
    proof {
        crate::words::lemma_words_val_bound(lhs@);
    }
    let rem = div_by_word_in_place(lhs, rhs);
    let ghost q = words_val(lhs@);
    proof {
        crate::words::lemma_words_val_bound(lhs@);
        vstd::arithmetic::div_mod::lemma_fundamental_div_mod(l as int, rhs as int);
    }
    if rem == 0 {
        set_one(lhs);
        proof {
            assert(spec_gcd(rhs as nat, 0) == rhs);
            assert(words_val(lhs@) == 1);
            assert(signed_value(Sign::Positive, 1) == 1);
            assert(l * 0 + rhs * 1 == rhs);
        }
        (rhs, 0, Sign::Positive)
    } else {
        // a = t, b = s - t * q
        let (g, s, t) = word_gcd_ext(rhs, rem);
        let s_sign = bezout_sign(s < 0, s == 0, t > 0);
        let s_mag = word_unsigned_abs(s);
        let t_mag = word_unsigned_abs(t);
        proof {
            lemma_gcd_is_gcd(rhs as nat, rem as nat);
            assert(g >= 1);
            // q |t| + |s| <= q rhs + rem == l < B^n
            assert(q * t_mag + s_mag <= l) by (nonlinear_arith)
                requires
                    t_mag * g <= rhs,
                    s_mag * g <= rem,
                    g >= 1,
                    l == rhs * q + rem,
                    q >= 0,
            ;
            assert(q * t_mag <= q * t_mag + s_mag);
            lemma_mul_is_commutative(q as int, t_mag as int);
        }
        let carry = mul_word_in_place(lhs, t_mag);
        proof {
            lemma_word_pow(n);
            if carry > 0 {
                lemma_mul_inequality(1, carry as int, word_pow(n) as int);
            }
        }
        let carry2 = add_word_in_place(lhs, s_mag);
        proof {
            lemma_bezout_combine(s as int, t as int, q);
            assert(l * t + rhs * (s - q * t) == g) by (nonlinear_arith)
                requires
                    rhs * s + rem * t == g,
                    l == rhs * q + rem,
            ;
            assert(words_val(lhs@) == q * t_mag + s_mag);
            assert(signed_value(s_sign, words_val(lhs@)) == s - q * t);
        }
        (g, t, s_sign)
    }
}

/// Extended greatest common divisor between a large number and a double word beyond a word.
///
/// If `g = gcd(lhs, rhs)` and `lhs * a + rhs * b = g`, then b (unsigned) is stored in
/// **lhs**, and the returned tuple is (g, a, sign of b).
pub fn gcd_ext_dword(lhs: &mut [Word], rhs: DoubleWord) -> (r: (DoubleWord, SignedDoubleWord, Sign))
    requires
        rhs > u64::MAX,
        old(lhs)@.len() >= 2,
    ensures
        final(lhs)@.len() == old(lhs)@.len(),
        r.0 == spec_gcd(words_val(old(lhs)@), rhs as nat),
        words_val(old(lhs)@) * r.1 + rhs * signed_value(r.2, words_val(final(lhs)@)) == r.0,
        words_val(old(lhs)@) % (rhs as nat) == 0 ==> r.0 == rhs && r.1 == 0 && r.2 == Sign::Positive
            && words_val(final(lhs)@) == 1,
{
    let ghost l = words_val(lhs@);
    let ghost n = lhs@.len();
    proof {
        crate::words::lemma_words_val_bound(lhs@);
    }
    let rem = div_by_dword_in_place(lhs, rhs);
    let ghost q = words_val(lhs@);
    proof {
        crate::words::lemma_words_val_bound(lhs@);
        vstd::arithmetic::div_mod::lemma_fundamental_div_mod(l as int, rhs as int);
    }
    if rem == 0 {
        set_one(lhs);
        proof {
            assert(spec_gcd(rhs as nat, 0) == rhs);
            assert(words_val(lhs@) == 1);
            assert(signed_value(Sign::Positive, 1) == 1);
            assert(l * 0 + rhs * 1 == rhs);
        }
        (rhs, 0, Sign::Positive)
    } else {
        // a = t, b = s - t * q
        let (g, s, t) = dword_gcd_ext(rhs, rem);
        let s_sign = bezout_sign(s < 0, s == 0, t > 0);
        let s_mag = dword_unsigned_abs(s);
        let t_mag = dword_unsigned_abs(t);
        proof {
            lemma_gcd_is_gcd(rhs as nat, rem as nat);
            assert(g >= 1);
            assert(q * t_mag + s_mag <= l) by (nonlinear_arith)
                requires
                    t_mag * g <= rhs,
                    s_mag * g <= rem,
                    g >= 1,
                    l == rhs * q + rem,
                    q >= 0,
            ;
            assert(q * t_mag <= q * t_mag + s_mag);
            lemma_mul_is_commutative(q as int, t_mag as int);
            lemma_word_pow(n);
        }
        let carry = if let Some(st) = shrink_dword(t_mag) {
            let c = mul_word_in_place(lhs, st);
            proof {
                assert(st == t_mag);
                assert(words_val(lhs@) + c * word_pow(n) == q * t_mag);
            }
            extend_word(c)
        } else {
            mul_dword_in_place(lhs, t_mag)
        };
        proof {
            assert(words_val(lhs@) + carry * word_pow(n) == q * t_mag);
        }
        proof {
            if carry > 0 {
                lemma_mul_inequality(1, carry as int, word_pow(n) as int);
            }
        }
        proof {
            assert(carry == 0);
            assert(carry * word_pow(n) == 0) by (nonlinear_arith)
                requires
                    carry == 0,
            ;
            assert(words_val(lhs@) == q * t_mag);
            assert(words_val(lhs@) + s_mag < word_pow(n));
        }
        let carry2 = add_dword_in_place(lhs, s_mag);
        proof {
            assert(!carry2);
            lemma_bezout_combine(s as int, t as int, q);
            assert(l * t + rhs * (s - q * t) == g) by (nonlinear_arith)
                requires
                    rhs * s + rem * t == g,
                    l == rhs * q + rem,
            ;
            assert(words_val(lhs@) == q * t_mag + s_mag);
            assert(signed_value(s_sign, words_val(lhs@)) == s - q * t);
        }
        (g, t, s_sign)
    }
}

} // verus!
