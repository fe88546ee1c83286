//! Lehmer's greatest common divisor: the leading words of the two numbers decide several
//! Euclidean steps at once, which are then applied to the whole numbers in one pass.
use vstd::prelude::*;
use vstd::arithmetic::div_mod::*;
use vstd::arithmetic::mul::*;
use vstd::arithmetic::power2::*;
use crate::arch::word::{DoubleWord, SignedDoubleWord, SignedWord, Word};
use crate::primitive::{
    highest_dword, extend_word, split_dword, double_word, dword_leading_zeros, spec_bit_len, word_base,
    lemma_pow2_widths, lemma_u128_shl_is_mul, lemma_bit_len_bounds,
};
use crate::words::{
    words_val, word_pow, is_normalized, lemma_word_pow, lemma_words_val_bound, lemma_words_val_div_pow,
};
use vstd::slice::slice_to_vec;
use crate::buffer::spec_max_capacity;
use crate::cmp::words_less;
use crate::div::{rem_by_word, rem_by_dword, div_by_word_in_place};
use crate::sign::Sign;
use crate::ibig::{signed_value, spec_abs};
use crate::gcd::{
    word_gcd_ext, word_unsigned_abs,
    spec_gcd, divides, is_gcd, lemma_gcd_is_gcd, lemma_gcd_unique, lemma_divides_lin,
    lemma_divides_sub, lemma_divides_trivial, lemma_gcd_comm, word_gcd, dword_gcd,
};
use crate::gcd_ops::trim_zeros;
use crate::ubig::UBig;

verus! {

/// The largest coefficient of a guess, so that the coefficients fit in signed words.
pub const COEFF_LIMIT: Word = 0x7fff_ffff_ffff_ffff;

/// `d` divides `x a`.
proof fn lemma_divides_mul(d: nat, x: nat, a: nat)
    requires
        divides(d, x),
    ensures
        divides(d, x * a),
{
    lemma_divides_trivial(d);
    lemma_divides_lin(d, x, 0, a);
}

/// `d` divides `x p + y q` when it divides `x` and `y`.
proof fn lemma_divides_comb(d: nat, x: nat, y: nat, p: nat, q: nat)
    requires
        divides(d, x),
        divides(d, y),
    ensures
        divides(d, x * p + y * q),
{
    lemma_divides_mul(d, y, q);
    lemma_divides_lin(d, x, y * q, p);
}

/// A step by a matrix of determinant one keeps the greatest common divisor:
/// with `a d - b c == 1`, `gcd(a x - b y, d y - c x) == gcd(x, y)` when both are
/// non-negative, since `x == d u + b v` and `y == c u + a v` for the new pair `(u, v)`.
pub proof fn lemma_unimodular_gcd(x: nat, y: nat, a: nat, b: nat, c: nat, d: nat)
    requires
        a * d - b * c == 1,
        a * x >= b * y,
        d * y >= c * x,
    ensures
        spec_gcd((a * x - b * y) as nat, (d * y - c * x) as nat) == spec_gcd(x, y),
{
    let u = (a * x - b * y) as nat;
    let v = (d * y - c * x) as nat;
    assert(x == u * d + v * b && y == u * c + v * a) by (nonlinear_arith)
        requires
            a * d - b * c == 1,
            u == a * x - b * y,
            v == d * y - c * x,
    ;
    if x > 0 || y > 0 {
        lemma_gcd_is_gcd(x, y);
        let g = spec_gcd(x, y);
        lemma_divides_mul(g, x, a);
        lemma_divides_mul(g, x, c);
        lemma_mul_is_commutative(a as int, x as int);
        lemma_mul_is_commutative(b as int, y as int);
        lemma_mul_is_commutative(d as int, y as int);
        lemma_mul_is_commutative(c as int, x as int);
        lemma_divides_sub(g, x * a, y, b);
        lemma_divides_mul(g, y, d);
        lemma_divides_sub(g, y * d, x, c);
        assert forall|e: nat| #[trigger] divides(e, u) && divides(e, v) implies divides(e, g) by {
            lemma_divides_comb(e, u, v, d, b);
            lemma_divides_comb(e, u, v, c, a);
        }
        lemma_gcd_unique(u, v, g);
    } else {
        assert(u == 0 && v == 0) by (nonlinear_arith)
            requires
                x == 0,
                y == 0,
                u == a * x - b * y,
                v == d * y - c * x,
        ;
    }
}

/// `x == d xr + b yr` and `y == c xr + a yr` with `xr, yr >= 0`: the coefficients
/// `r == (a, b, c, d)` reduce `(x, y)` to the non-negative pair `(xr, yr)`.
#[verifier::opaque]
pub open spec fn lehmer_remainders(x: int, y: int, r: (Word, Word, Word, Word), xr: int, yr: int) -> bool {
    &&& xr >= 0
    &&& yr >= 0
    &&& x == r.3 * xr + r.1 * yr
    &&& y == r.2 * xr + r.0 * yr
}

/// The first Euclidean step on `(x, y)` passes the checks of the guess: with `q = x / y`, the
/// quotient is at most [COEFF_LIMIT] and the remainder is at least `q` and below `y`.
pub open spec fn lehmer_first_step_fits(x: int, y: int) -> bool {
    &&& y != 0
    &&& x / y <= COEFF_LIMIT
    &&& x % y >= x / y
    &&& x % y + 1 <= y
}

/// The state of Euclid's algorithm on `(x, y)` after `k` steps, run in place as the guess runs
/// it: `(u, v, a, b, c, d)` with the two latest remainders `(u, v)` and the cofactors, so that
/// `x == d u + b v` and `y == c u + a v`. Step `k` replaces `u` by `u mod v` when `k` is even
/// and `v` by `v mod u` when it is odd (a zero divisor leaves the state as it is).
pub open spec fn euclid_state(x: int, y: int, k: nat) -> (int, int, int, int, int, int)
    decreases k,
{
    if k == 0 {
        (x, y, 1, 0, 0, 1)
    } else {
        let (u, v, a, b, c, d) = euclid_state(x, y, (k - 1) as nat);
        if (k - 1) % 2 == 0 {
            if v == 0 {
                (u, v, a, b, c, d)
            } else {
                let q = u / v;
                (u - q * v, v, a + q * c, b + q * d, c, d)
            }
        } else {
            if u == 0 {
                (u, v, a, b, c, d)
            } else {
                let q = v / u;
                (u, v - q * u, a, b, c + q * a, d + q * b)
            }
        }
    }
}

/// `r == (a, b, c, d)` are the cofactors of the first `k` steps of Euclid's algorithm on
/// `(x, y)`.
pub open spec fn is_euclid_cofactors(x: int, y: int, r: (Word, Word, Word, Word), k: nat) -> bool {
    let st = euclid_state(x, y, k);
    st.2 == r.0 && st.3 == r.1 && st.4 == r.2 && st.5 == r.3
}

/// Estimate the Bézout coefficients from the leading words `xbar >= ybar` of two numbers:
/// returns `(a, b, c, d)` of determinant `a d - b c == 1`, all at most [COEFF_LIMIT], such
/// that `(a x - b y, d y - c x)` continues the Euclidean remainder sequence of `(x, y)`: they
/// are the cofactors of the first `k` steps of Euclid's algorithm on `(xbar, ybar)`, for the
/// largest `k` whose quotients, cofactors and remainders pass the checks.
///
/// If the guess has failed, then `b` is zero (no step is taken).
pub fn lehmer_guess(xbar: Word, ybar: Word) -> (r: (Word, Word, Word, Word))
    requires
        xbar >= ybar,
    ensures
        r.0 * r.3 - r.1 * r.2 == 1,
        r.0 <= COEFF_LIMIT,
        r.1 <= COEFF_LIMIT,
        r.2 <= COEFF_LIMIT,
        r.3 <= COEFF_LIMIT,
        r.1 == 0 ==> r.0 == 1 && r.2 == 0 && r.3 == 1,
        exists|xr: int, yr: int| lehmer_remainders(xbar as int, ybar as int, r, xr, yr),
        lehmer_first_step_fits(xbar as int, ybar as int) ==> r.1 != 0,
        exists|k: nat| is_euclid_cofactors(xbar as int, ybar as int, r, k),
{
    let ghost x0 = xbar as int;
    let ghost y0 = ybar as int;
    let ghost mut k: nat = 0;
    proof {
        reveal(lehmer_remainders);
    }
    let mut xbar = xbar;
    let mut ybar = ybar;
    let mut a: Word = 1;
    let mut b: Word = 0;
    let mut c: Word = 0;
    let mut d: Word = 1;
    while ybar != 0
        invariant_except_break
            xbar >= ybar,
            k % 2 == 0,
        invariant
            a * d - b * c == 1,
            a <= COEFF_LIMIT,
            b <= COEFF_LIMIT,
            c <= COEFF_LIMIT,
            d <= COEFF_LIMIT,
            x0 == d * xbar + b * ybar,
            y0 == c * xbar + a * ybar,
            0 <= x0 <= u64::MAX,
            0 <= y0 <= u64::MAX,
            d >= 1,
            b == 0 ==> a == 1 && c == 0 && d == 1 && xbar == x0 && ybar == y0,
            euclid_state(x0, y0, k) == (xbar as int, ybar as int, a as int, b as int, c as int, d as int),
        ensures
            euclid_state(x0, y0, k) == (xbar as int, ybar as int, a as int, b as int, c as int, d as int),
            a * d - b * c == 1,
            a <= COEFF_LIMIT,
            b <= COEFF_LIMIT,
            c <= COEFF_LIMIT,
            d <= COEFF_LIMIT,
            x0 == d * xbar + b * ybar,
            y0 == c * xbar + a * ybar,
            b == 0 ==> a == 1 && c == 0 && d == 1,
            b == 0 ==> !lehmer_first_step_fits(x0, y0),
        decreases xbar + ybar,
    {
        let q = xbar / ybar;
        if q > COEFF_LIMIT {
            break;
        }
        proof {
            // (a + q c) ybar <= y0 and (b + q d) ybar <= x0, with ybar >= 1
            lemma_fundamental_div_mod(xbar as int, ybar as int);
            lemma_mod_bound(xbar as int, ybar as int);
            lemma_div_non_zero(xbar as int, ybar as int);
            lemma_mul_is_commutative(ybar as int, q as int);
            assert((a + q * c) * ybar <= y0 && (b + q * d) * ybar <= x0) by (nonlinear_arith)
                requires
                    x0 == d * xbar + b * ybar,
                    y0 == c * xbar + a * ybar,
                    q * ybar <= xbar,
                    c >= 0,
                    d >= 0,
            ;
            lemma_mul_inequality(1, ybar as int, (a + q * c) as int);
            lemma_mul_inequality(1, ybar as int, (b + q * d) as int);
            lemma_mul_is_commutative(ybar as int, (a + q * c) as int);
            lemma_mul_is_commutative(ybar as int, (b + q * d) as int);
            lemma_mul_nonnegative(q as int, c as int);
            lemma_mul_nonnegative(q as int, d as int);
        }
        let r = a + q * c;
        let s = b + q * d;
        let t = xbar - q * ybar;
        proof {
            if b == 0 && lehmer_first_step_fits(x0, y0) {
                lemma_mul_basics(q as int);
                assert(r == 1 && s == q && c == 0);
                assert(t as int == x0 % y0);
            }
        }
        if r > COEFF_LIMIT || s > COEFF_LIMIT {
            break;
        }
        if (t as DoubleWord) < (s as DoubleWord) || (t as DoubleWord) + (r as DoubleWord) + (
        c as DoubleWord) > (ybar as DoubleWord) {
            break;
        }
        proof {
            assert(r * d - s * c == 1 && x0 == d * t + s * ybar && y0 == c * t + r * ybar) by (
            nonlinear_arith)
                requires
                    a * d - b * c == 1,
                    x0 == d * xbar + b * ybar,
                    y0 == c * xbar + a * ybar,
                    r == a + q * c,
                    s == b + q * d,
                    t == xbar - q * ybar,
            ;
        }
        proof {
            lemma_mul_inequality(1, q as int, d as int);
        }
        proof {
            assert(euclid_state(x0, y0, k + 1) == (t as int, ybar as int, r as int, s as int, c as int, d as int));
        }
        a = r;
        b = s;
        xbar = t;
        proof {
            k = k + 1;
        }
        if xbar == b {
            break;
        }
        // now xbar > b >= 0
        let q = ybar / xbar;
        if q > COEFF_LIMIT {
            break;
        }
        proof {
            lemma_fundamental_div_mod(ybar as int, xbar as int);
            lemma_mod_bound(ybar as int, xbar as int);
            lemma_mul_is_commutative(xbar as int, q as int);
            assert((d + q * b) * xbar <= x0 && (c + q * a) * xbar <= y0) by (nonlinear_arith)
                requires
                    x0 == d * xbar + b * ybar,
                    y0 == c * xbar + a * ybar,
                    q * xbar <= ybar,
                    a >= 0,
                    b >= 0,
            ;
            lemma_mul_inequality(1, xbar as int, (d + q * b) as int);
            lemma_mul_inequality(1, xbar as int, (c + q * a) as int);
            lemma_mul_is_commutative(xbar as int, (d + q * b) as int);
            lemma_mul_is_commutative(xbar as int, (c + q * a) as int);
            lemma_mul_nonnegative(q as int, a as int);
            lemma_mul_nonnegative(q as int, b as int);
        }
        let r = d + q * b;
        let s = c + q * a;
        let t = ybar - q * xbar;
        if r > COEFF_LIMIT || s > COEFF_LIMIT {
            break;
        }
        if (t as DoubleWord) < (s as DoubleWord) || (t as DoubleWord) + (r as DoubleWord) + (
        c as DoubleWord) > (xbar as DoubleWord) {
            break;
        }
        proof {
            assert(a * r - b * s == 1 && x0 == r * xbar + b * t && y0 == s * xbar + a * t) by (
            nonlinear_arith)
                requires
                    a * d - b * c == 1,
                    x0 == d * xbar + b * ybar,
                    y0 == c * xbar + a * ybar,
                    r == d + q * b,
                    s == c + q * a,
                    t == ybar - q * xbar,
            ;
        }
        proof {
            assert(k % 2 == 1);
            assert(euclid_state(x0, y0, k + 1) == (xbar as int, t as int, a as int, b as int, s as int, r as int));
        }
        d = r;
        c = s;
        ybar = t;
        proof {
            k = k + 1;
        }
        if ybar == c {
            break;
        }
    }
    proof {
        assert(lehmer_remainders(x0, y0, (a, b, c, d), xbar as int, ybar as int));
        assert(is_euclid_cofactors(x0, y0, (a, b, c, d), k));
    }
    (a, b, c, d)
}

/// Whether `t + r + c > bound`, computed without overflow.
fn exceeds(t: DoubleWord, r: DoubleWord, c: DoubleWord, bound: DoubleWord) -> (e: bool)
    ensures
        e == (t + r + c > bound),
{
    if c > bound {
        true
    } else {
        let m = bound - c;
        r > m || t > m - r
    }
}

/// Same as [lehmer_guess], from the leading double words `xbar >= ybar` of two numbers:
/// returns `(a, b, c, d)` of determinant `a d - b c == 1`, all at most [COEFF_LIMIT], such
/// that `(a x - b y, d y - c x)` continues the Euclidean remainder sequence of `(x, y)`: they
/// are the cofactors of the first `k` steps of Euclid's algorithm on `(xbar, ybar)`.
///
/// If the guess has failed, then `b` is zero (no step is taken).
pub fn lehmer_guess_dword(xbar: DoubleWord, ybar: DoubleWord) -> (r: (Word, Word, Word, Word))
    requires
        xbar >= ybar,
    ensures
        r.0 * r.3 - r.1 * r.2 == 1,
        r.0 <= COEFF_LIMIT,
        r.1 <= COEFF_LIMIT,
        r.2 <= COEFF_LIMIT,
        r.3 <= COEFF_LIMIT,
        r.1 == 0 ==> r.0 == 1 && r.2 == 0 && r.3 == 1,
        exists|xr: int, yr: int| lehmer_remainders(xbar as int, ybar as int, r, xr, yr),
        lehmer_first_step_fits(xbar as int, ybar as int) ==> r.1 != 0,
        exists|k: nat| is_euclid_cofactors(xbar as int, ybar as int, r, k),
{
    let ghost x0 = xbar as int;
    let ghost y0 = ybar as int;
    let ghost mut k: nat = 0;
    proof {
        reveal(lehmer_remainders);
    }
    let mut xbar = xbar;
    let mut ybar = ybar;
    let mut a: DoubleWord = 1;
    let mut b: DoubleWord = 0;
    let mut c: DoubleWord = 0;
    let mut d: DoubleWord = 1;
    while ybar != 0
        invariant_except_break
            xbar >= ybar,
            k % 2 == 0,
        invariant
            a * d - b * c == 1,
            a <= COEFF_LIMIT,
            b <= COEFF_LIMIT,
            c <= COEFF_LIMIT,
            d <= COEFF_LIMIT,
            x0 == d * xbar + b * ybar,
            y0 == c * xbar + a * ybar,
            0 <= x0 <= u128::MAX,
            0 <= y0 <= u128::MAX,
            d >= 1,
            b == 0 ==> a == 1 && c == 0 && d == 1 && xbar == x0 && ybar == y0,
            euclid_state(x0, y0, k) == (xbar as int, ybar as int, a as int, b as int, c as int, d as int),
        ensures
            euclid_state(x0, y0, k) == (xbar as int, ybar as int, a as int, b as int, c as int, d as int),
            a * d - b * c == 1,
            a <= COEFF_LIMIT,
            b <= COEFF_LIMIT,
            c <= COEFF_LIMIT,
            d <= COEFF_LIMIT,
            x0 == d * xbar + b * ybar,
            y0 == c * xbar + a * ybar,
            b == 0 ==> a == 1 && c == 0 && d == 1,
            b == 0 ==> !lehmer_first_step_fits(x0, y0),
        decreases xbar + ybar,
    {
        let q = xbar / ybar;
        if q > COEFF_LIMIT as DoubleWord {
            break;
        }
        proof {
            // (a + q c) ybar <= y0 and (b + q d) ybar <= x0, with ybar >= 1
            lemma_fundamental_div_mod(xbar as int, ybar as int);
            lemma_mod_bound(xbar as int, ybar as int);
            lemma_div_non_zero(xbar as int, ybar as int);
            lemma_mul_is_commutative(ybar as int, q as int);
            assert((a + q * c) * ybar <= y0 && (b + q * d) * ybar <= x0) by (nonlinear_arith)
                requires
                    x0 == d * xbar + b * ybar,
                    y0 == c * xbar + a * ybar,
                    q * ybar <= xbar,
                    c >= 0,
                    d >= 0,
            ;
            lemma_mul_inequality(1, ybar as int, (a + q * c) as int);
            lemma_mul_inequality(1, ybar as int, (b + q * d) as int);
            lemma_mul_is_commutative(ybar as int, (a + q * c) as int);
            lemma_mul_is_commutative(ybar as int, (b + q * d) as int);
            lemma_mul_nonnegative(q as int, c as int);
            lemma_mul_nonnegative(q as int, d as int);
        }
        let r = a + q * c;
        let s = b + q * d;
        let t = xbar - q * ybar;
        if r > COEFF_LIMIT as DoubleWord || s > COEFF_LIMIT as DoubleWord {
            break;
        }
        if t < s || exceeds(t, r, c, ybar) {
            break;
        }
        proof {
            assert(r * d - s * c == 1 && x0 == d * t + s * ybar && y0 == c * t + r * ybar) by (
            nonlinear_arith)
                requires
                    a * d - b * c == 1,
                    x0 == d * xbar + b * ybar,
                    y0 == c * xbar + a * ybar,
                    r == a + q * c,
                    s == b + q * d,
                    t == xbar - q * ybar,
            ;
        }
        proof {
            lemma_mul_inequality(1, q as int, d as int);
        }
        proof {
            assert(euclid_state(x0, y0, k + 1) == (t as int, ybar as int, r as int, s as int, c as int, d as int));
        }
        a = r;
        b = s;
        xbar = t;
        proof {
            k = k + 1;
        }
        if xbar == b {
            break;
        }
        // now xbar > b >= 0
        let q = ybar / xbar;
        if q > COEFF_LIMIT as DoubleWord {
            break;
        }
        proof {
            lemma_fundamental_div_mod(ybar as int, xbar as int);
            lemma_mod_bound(ybar as int, xbar as int);
            lemma_mul_is_commutative(xbar as int, q as int);
            assert((d + q * b) * xbar <= x0 && (c + q * a) * xbar <= y0) by (nonlinear_arith)
                requires
                    x0 == d * xbar + b * ybar,
                    y0 == c * xbar + a * ybar,
                    q * xbar <= ybar,
                    a >= 0,
                    b >= 0,
            ;
            lemma_mul_inequality(1, xbar as int, (d + q * b) as int);
            lemma_mul_inequality(1, xbar as int, (c + q * a) as int);
            lemma_mul_is_commutative(xbar as int, (d + q * b) as int);
            lemma_mul_is_commutative(xbar as int, (c + q * a) as int);
            lemma_mul_nonnegative(q as int, a as int);
            lemma_mul_nonnegative(q as int, b as int);
        }
        let r = d + q * b;
        let s = c + q * a;
        let t = ybar - q * xbar;
        if r > COEFF_LIMIT as DoubleWord || s > COEFF_LIMIT as DoubleWord {
            break;
        }
        if t < s || exceeds(t, r, c, xbar) {
            break;
        }
        proof {
            assert(a * r - b * s == 1 && x0 == r * xbar + b * t && y0 == s * xbar + a * t) by (
            nonlinear_arith)
                requires
                    a * d - b * c == 1,
                    x0 == d * xbar + b * ybar,
                    y0 == c * xbar + a * ybar,
                    r == d + q * b,
                    s == c + q * a,
                    t == ybar - q * xbar,
            ;
        }
        proof {
            assert(k % 2 == 1);
            assert(euclid_state(x0, y0, k + 1) == (xbar as int, t as int, a as int, b as int, s as int, r as int));
        }
        d = r;
        c = s;
        ybar = t;
        proof {
            k = k + 1;
        }
        if ybar == c {
            break;
        }
    }
    // by now, the coefficients are at most COEFF_LIMIT, so they fit in words
    let res = (a as Word, b as Word, c as Word, d as Word);
    proof {
        assert(lehmer_remainders(x0, y0, res, xbar as int, ybar as int));
        assert(is_euclid_cofactors(x0, y0, res, k));
    }
    res
}

/// The words from `n - 2` on, as a double word: `y / B^(n-2)` for a number of at most `n`
/// words, given as the top two words, the top word alone, or zero.
proof fn lemma_top_two_words(y: Seq<Word>, n: nat)
    requires
        n >= 2,
        y.len() <= n,
    ensures
        y.len() == n ==> words_val(y) / word_pow((n - 2) as nat) == y[n - 1] * word_base() + y[n - 2],
        y.len() == n - 1 ==> words_val(y) / word_pow((n - 2) as nat) == y[n - 2],
        y.len() < n - 1 ==> words_val(y) / word_pow((n - 2) as nat) == 0,
{
    let k = (n - 2) as nat;
    lemma_word_pow(k);
    if y.len() >= k {
        lemma_words_val_div_pow(y, k);
        let t = y.subrange(k as int, y.len() as int);
        if y.len() == n {
            crate::shift::lemma_words_val_suffix(y, n as int);
            crate::shift::lemma_words_val_suffix(y, n - 1);
            assert(y.subrange(n as int, n as int) =~= Seq::<Word>::empty());
            assert(words_val(Seq::<Word>::empty()) == 0);
        } else if y.len() == n - 1 {
            assert(t =~= seq![y[n - 2]]);
            crate::words::lemma_words_val_single(y[n - 2]);
        } else {
            assert(t =~= Seq::<Word>::empty());
            assert(words_val(Seq::<Word>::empty()) == 0);
        }
    } else {
        lemma_words_val_bound(y);
        crate::words::lemma_word_pow_monotone(y.len(), k);
        lemma_basic_div(words_val(y) as int, word_pow(k) as int);
    }
}

/// Get the highest bits of `x` and `y` with the width of a word, aligned at the top bit of
/// `x`: with `s` the number of leading zeros of the top word of `x`, the top word of
/// `x 2^s / B^(n-1)` and the same of `y`, for `n` the number of words of `x`.
fn highest_word_normalized(x: &[Word], y: &[Word]) -> (r: (Word, Word))
    requires
        x@.len() >= 2,
        x@.last() != 0,
        y@.len() <= x@.len(),
        words_val(y@) <= words_val(x@),
    ensures
        r.0 == (words_val(x@) / word_pow((x@.len() - 2) as nat)) * pow2(
            (64 - spec_bit_len(x@.last() as nat)) as nat,
        ) / word_base(),
        r.1 == (words_val(y@) / word_pow((x@.len() - 2) as nat)) * pow2(
            (64 - spec_bit_len(x@.last() as nat)) as nat,
        ) / word_base(),
        x@.len() - y@.len() >= 2 ==> r.1 == 0,
{
    let n = x.len();
    let x_hi2 = highest_dword(x);
    let y_hi2 = if x.len() == y.len() {
        highest_dword(y)
    } else if x.len() - y.len() == 1 {
        extend_word(y[y.len() - 1])
    } else {
        0
    };
    let shift = dword_leading_zeros(x_hi2);
    let ghost k = (n - 2) as nat;
    proof {
        lemma_pow2_widths();
        lemma_top_two_words(x@, n as nat);
        lemma_top_two_words(y@, n as nat);
        lemma_word_pow(k);
        vstd::arithmetic::div_mod::lemma_div_is_ordered(words_val(y@) as int, words_val(x@) as int, word_pow(k) as int);
        // the top double word of x has 64 more bits than its top word
        crate::bits::lemma_bit_len_shifted(x@[n - 1] as nat, x@[n - 2] as nat, 64);
        lemma_bit_len_bounds(x_hi2 as nat);
        lemma_bit_len_bounds(x@[n - 1] as nat);
        lemma_pow2_adds(spec_bit_len(x_hi2 as nat), shift as nat);
        lemma_pow2_pos(shift as nat);
        lemma_mul_strict_inequality(x_hi2 as int, pow2(spec_bit_len(x_hi2 as nat)) as int, pow2(shift as nat) as int);
        lemma_mul_inequality(y_hi2 as int, x_hi2 as int, pow2(shift as nat) as int);
        lemma_u128_shl_is_mul(x_hi2, shift as nat);
        lemma_u128_shl_is_mul(y_hi2, shift as nat);
    }
    let (_, x_hi) = split_dword(x_hi2 << shift);
    let (_, y_hi) = split_dword(y_hi2 << shift);
    proof {
        let p = pow2(shift as nat) as int;
        lemma_fundamental_div_mod_converse((x_hi2 * pow2(shift as nat)) as int, word_base() as int, x_hi as int, ((x_hi2 << shift) % 0x1_0000_0000_0000_0000u128) as int);
        lemma_fundamental_div_mod_converse((y_hi2 * pow2(shift as nat)) as int, word_base() as int, y_hi as int, ((y_hi2 << shift) % 0x1_0000_0000_0000_0000u128) as int);
        if x.len() - y.len() >= 2 {
            lemma_mul_basics(p);
        }
    }
    (x_hi, y_hi)
}

/// The words from `n - 3` on, as three words `(top, middle and low)`: `y / B^(n-3)` for a
/// number of at most `n` words.
proof fn lemma_top_three_words(y: Seq<Word>, n: nat)
    requires
        n >= 3,
        y.len() <= n,
    ensures
        y.len() == n ==> words_val(y) / word_pow((n - 3) as nat) == y[n - 1] * (word_base()
            * word_base()) + (y[n - 2] * word_base() + y[n - 3]),
        y.len() == n - 1 ==> words_val(y) / word_pow((n - 3) as nat) == y[n - 2] * word_base()
            + y[n - 3],
        y.len() == n - 2 ==> words_val(y) / word_pow((n - 3) as nat) == y[n - 3],
        y.len() < n - 2 ==> words_val(y) / word_pow((n - 3) as nat) == 0,
{
    let k = (n - 3) as nat;
    lemma_word_pow(k);
    if y.len() >= k {
        lemma_words_val_div_pow(y, k);
        let t = y.subrange(k as int, y.len() as int);
        if y.len() >= k + 1 {
            crate::shift::lemma_words_val_suffix(y, (k + 1) as int);
        }
        if y.len() >= k + 2 {
            crate::shift::lemma_words_val_suffix(y, (k + 2) as int);
        }
        if y.len() >= k + 3 {
            crate::shift::lemma_words_val_suffix(y, (k + 3) as int);
        }
        assert(y.subrange(y.len() as int, y.len() as int) =~= Seq::<Word>::empty());
        assert(words_val(Seq::<Word>::empty()) == 0);
        assert(words_val(y.subrange(k as int, y.len() as int)) == words_val(t));
        let bb = word_base() as int;
        if y.len() == n {
            assert(words_val(t) == y[n - 3] + bb * (y[n - 2] + bb * (y[n - 1] + bb * 0)));
            assert(y[n - 3] + bb * (y[n - 2] + bb * (y[n - 1] + bb * 0)) == y[n - 1] * (bb * bb)
                + (y[n - 2] * bb + y[n - 3])) by (nonlinear_arith);
        }
    } else {
        lemma_words_val_bound(y);
        crate::words::lemma_word_pow_monotone(y.len(), k);
        lemma_basic_div(words_val(y) as int, word_pow(k) as int);
    }
}

/// Same as [highest_word_normalized] with the width of a double word: with `s` the number of
/// leading zeros of the top word of `x`, the top double word of `x 2^s / B^(n-2)` and the same
/// of `y`, for `n >= 3` the number of words of `x`.
fn highest_dword_normalized(x: &[Word], y: &[Word]) -> (r: (DoubleWord, DoubleWord))
    requires
        x@.len() >= 3,
        x@.last() != 0,
        y@.len() <= x@.len(),
        words_val(y@) <= words_val(x@),
    ensures
        r.0 == (words_val(x@) / word_pow((x@.len() - 3) as nat)) * pow2(
            (64 - spec_bit_len(x@.last() as nat)) as nat,
        ) / word_base(),
        r.1 == (words_val(y@) / word_pow((x@.len() - 3) as nat)) * pow2(
            (64 - spec_bit_len(x@.last() as nat)) as nat,
        ) / word_base(),
        x@.len() - y@.len() >= 3 ==> r.1 == 0,
{
    let n = x.len();
    let x0 = x[n - 1];
    let x12 = double_word(x[n - 3], x[n - 2]);
    let (y0, y12) = if x.len() == y.len() {
        (y[n - 1], double_word(y[n - 3], y[n - 2]))
    } else if x.len() - y.len() == 1 {
        (0, double_word(y[n - 3], y[n - 2]))
    } else if x.len() - y.len() == 2 {
        (0, extend_word(y[n - 3]))
    } else {
        (0, 0)
    };
    let shift = crate::primitive::word_leading_zeros(x0);
    let ghost k = (n - 3) as nat;
    let ghost bb = word_base() as int;
    proof {
        lemma_pow2_widths();
        lemma_top_three_words(x@, n as nat);
        lemma_top_three_words(y@, n as nat);
        lemma_word_pow(k);
        vstd::arithmetic::div_mod::lemma_div_is_ordered(words_val(y@) as int, words_val(x@) as int, word_pow(k) as int);
        lemma_bit_len_bounds(x0 as nat);
        let xv = words_val(x@) / word_pow(k);
        let yv = words_val(y@) / word_pow(k);
        assert(y0 <= x0) by (nonlinear_arith)
            requires
                yv <= xv,
                xv == x0 * (bb * bb) + x12,
                yv == y0 * (bb * bb) + y12,
                x12 < bb * bb,
                y12 >= 0,
                bb > 0,
        ;
        lemma_pow2_adds(spec_bit_len(x0 as nat), shift as nat);
        lemma_mul_inequality(y0 as int, x0 as int, pow2(shift as nat) as int);
        lemma_pow2_pos(shift as nat);
        lemma_mul_strict_inequality(x0 as int, pow2(spec_bit_len(x0 as nat)) as int, pow2(shift as nat) as int);
        lemma_shifted_top(x0, x12, shift);
        lemma_shifted_top(y0, y12, shift);
    }
    let x_hi = extend_word(x0) << (shift + 64) | x12 >> (64 - shift);
    let y_hi = extend_word(y0) << (shift + 64) | y12 >> (64 - shift);
    proof {
        let yv = words_val(y@) / word_pow(k);
        let xv = words_val(x@) / word_pow(k);
        assert(xv == x0 * (bb * bb) + x12);
        assert(yv == y0 * (bb * bb) + y12);
        assert(x_hi == (xv * pow2(shift as nat)) / word_base());
        assert(y_hi == (yv * pow2(shift as nat)) / word_base());
        if x.len() - y.len() >= 3 {
            lemma_mul_basics(pow2(shift as nat) as int);
        }
    }
    (x_hi, y_hi)
}

/// Shifting three words left by `s < 64` bits, the top two words come from the top word
/// shifted by `s + 64` and the middle double word shifted right by `64 - s`.
proof fn lemma_shifted_top(w0: Word, w12: DoubleWord, s: u32)
    requires
        s < 64,
        w0 * pow2(s as nat) < 0x1_0000_0000_0000_0000,
    ensures
        ((w0 as u128) << ((s + 64) as u32)) | (w12 >> ((64 - s) as u32)) == ((w0 * (word_base() * word_base())
            + w12) * pow2(s as nat)) / (word_base() as int),
{
    lemma_pow2_widths();
    let sh = s as nat;
    lemma_pow2_pos(sh);
    lemma_pow2_pos((64 - sh) as nat);
    lemma_pow2_adds(sh, 64);
    lemma_pow2_adds(sh, (64 - sh) as nat);
    assert((w0 as u128) * pow2(sh + 64) < pow2(128)) by {
        lemma_pow2_adds(64, 64);
        lemma_mul_strict_inequality((w0 * pow2(sh)) as int, 0x1_0000_0000_0000_0000, pow2(64) as int);
        lemma_mul_is_associative(w0 as int, pow2(sh) as int, pow2(64) as int);
    }
    lemma_u128_shl_is_mul(w0 as u128, sh + 64);
    let hi = (w0 as u128) << ((s + 64) as u32);
    let lo = w12 >> ((64 - s) as u32);
    vstd::bits::lemma_u128_shr_is_div(w12, (64 - s) as u128);
    // the low bits of hi are zero, and lo is below 2^(s + 64)
    assert(hi | lo == hi + lo) by (bit_vector)
        requires
            s < 64,
            hi == (w0 as u128) << ((s + 64) as u32),
            lo == w12 >> ((64 - s) as u32),
    ;
    let p = pow2(sh) as int;
    let q = pow2((64 - sh) as nat) as int;
    // (w0 B^2 + w12) 2^s / B == w0 B 2^s + w12 / 2^(64 - s)
    assert(word_base() == p * q);
    let t = (w0 * (word_base() * word_base()) + w12) * p;
    let bb = word_base() as int;
    assert(t == w12 * p + bb * (w0 * (bb * p))) by (nonlinear_arith)
        requires
            t == (w0 * (bb * bb) + w12) * p,
    ;
    crate::words::lemma_div_multiples_vanish_fancy_general(w12 * p, w0 * (bb * p), bb);
    lemma_div_denominator(w12 * p, p, q);
    lemma_div_multiples_vanish(w12 as int, p);
    lemma_mul_is_commutative(w12 as int, p);
    assert(w0 * (word_base() * p) == (w0 as u128) * pow2(sh + 64)) by (nonlinear_arith)
        requires
            word_base() == pow2(64),
            pow2(sh + 64) == p * pow2(64),
    ;
}

/// Split a signed double word into its low word and its signed high word.
fn split_signed_dword(v: SignedDoubleWord) -> (r: (Word, SignedWord))
    ensures
        v == r.1 * word_base() + r.0,
{
    let lo = v as Word;
    let hi = (v >> 64u32) as SignedWord;
    proof {
        assert(v == (((v >> 64u32) as i64) as i128) * 0x1_0000_0000_0000_0000i128 + ((v as u64) as i128)) by (bit_vector);
    }
    (lo, hi)
}

/// One step of the signed carry chains of [lehmer_step].
proof fn lemma_signed_chain_step(vn: int, vo: int, carry: int, lo: int, hi: int, val: int, p: int, b: int, t: int)
    by (nonlinear_arith)
    requires
        vo + carry * p == t,
        val + carry == hi * b + lo,
    ensures
        (vo + lo * p) + hi * (b * p) == t + val * p,
{
}

/// Calculate `(x, y) = (a x - b y, d y - c x)` in a single pass, where `x` has as many words
/// as `y` or one more. Returns whether both results are non-negative and fit in the words of
/// `x` and `y`; only then do the words hold them.
pub(crate) fn lehmer_step(x: &mut [Word], y: &mut [Word], a: Word, b: Word, c: Word, d: Word) -> (ok: bool)
    requires
        old(x)@.len() >= old(y)@.len(),
        old(x)@.len() - old(y)@.len() <= 1,
        a <= COEFF_LIMIT,
        b <= COEFF_LIMIT,
        c <= COEFF_LIMIT,
        d <= COEFF_LIMIT,
    ensures
        final(x)@.len() == old(x)@.len(),
        final(y)@.len() == old(y)@.len(),
        ok == (0 <= a * words_val(old(x)@) - b * words_val(old(y)@) < word_pow(old(x)@.len())
            && 0 <= d * words_val(old(y)@) - c * words_val(old(x)@) < word_pow(old(y)@.len())),
        ok ==> words_val(final(x)@) == a * words_val(old(x)@) - b * words_val(old(y)@),
        ok ==> words_val(final(y)@) == d * words_val(old(y)@) - c * words_val(old(x)@),
{
    let ghost ox = x@;
    let ghost oy = y@;
    let n = y.len();
    let lx = x.len();
    let sa = a as SignedDoubleWord;
    let sb = b as SignedDoubleWord;
    let sc = c as SignedDoubleWord;
    let sd = d as SignedDoubleWord;
    let mut x_carry: SignedWord = 0;
    let mut y_carry: SignedWord = 0;
    let mut i: usize = 0;
    proof {
        lemma_word_pow(0);
        assert(x@.subrange(0, 0) =~= Seq::<Word>::empty());
        assert(y@.subrange(0, 0) =~= Seq::<Word>::empty());
        assert(ox.subrange(0, 0) =~= Seq::<Word>::empty());
        assert(oy.subrange(0, 0) =~= Seq::<Word>::empty());
        assert(words_val(Seq::<Word>::empty()) == 0);
        lemma_mul_basics(a as int);
        lemma_mul_basics(b as int);
        lemma_mul_basics(c as int);
        lemma_mul_basics(d as int);
    }
    while i < n
        invariant
            n == oy.len(),
            lx == ox.len(),
            x@.len() == lx,
            y@.len() == n,
            n <= lx <= n + 1,
            i <= n,
            sa == a,
            sb == b,
            sc == c,
            sd == d,
            a <= COEFF_LIMIT,
            b <= COEFF_LIMIT,
            c <= COEFF_LIMIT,
            d <= COEFF_LIMIT,
            forall|j: int| i <= j < lx ==> x@[j] == ox[j],
            forall|j: int| i <= j < n ==> y@[j] == oy[j],
            words_val(x@.subrange(0, i as int)) + x_carry * word_pow(i as nat) == a * words_val(
                ox.subrange(0, i as int),
            ) - b * words_val(oy.subrange(0, i as int)),
            words_val(y@.subrange(0, i as int)) + y_carry * word_pow(i as nat) == d * words_val(
                oy.subrange(0, i as int),
            ) - c * words_val(ox.subrange(0, i as int)),
        decreases n - i,
    {
        let sx = x[i] as SignedDoubleWord;
        let sy = y[i] as SignedDoubleWord;
        proof {
            lemma_mul_upper_bound(a as int, COEFF_LIMIT as int, sx as int, u64::MAX as int);
            lemma_mul_upper_bound(b as int, COEFF_LIMIT as int, sy as int, u64::MAX as int);
            lemma_mul_upper_bound(c as int, COEFF_LIMIT as int, sx as int, u64::MAX as int);
            lemma_mul_upper_bound(d as int, COEFF_LIMIT as int, sy as int, u64::MAX as int);
            lemma_mul_nonnegative(a as int, sx as int);
            lemma_mul_nonnegative(b as int, sy as int);
            lemma_mul_nonnegative(c as int, sx as int);
            lemma_mul_nonnegative(d as int, sy as int);
        }
        let (x_new, cx) = split_signed_dword(sa * sx - sb * sy + x_carry as SignedDoubleWord);
        let (y_new, cy) = split_signed_dword(sd * sy - sc * sx + y_carry as SignedDoubleWord);
        let ghost bx = x@;
        let ghost by_ = y@;
        x[i] = x_new;
        y[i] = y_new;
        proof {
            let p = word_pow(i as nat) as int;
            lemma_word_pow(i as nat);
            crate::shift::lemma_words_val_prefix(x@, i as int);
            crate::shift::lemma_words_val_prefix(y@, i as int);
            crate::shift::lemma_words_val_prefix(ox, i as int);
            crate::shift::lemma_words_val_prefix(oy, i as int);
            assert(x@.subrange(0, i as int) =~= bx.subrange(0, i as int));
            assert(y@.subrange(0, i as int) =~= by_.subrange(0, i as int));
            let xo = words_val(ox.subrange(0, i as int)) as int;
            let yo = words_val(oy.subrange(0, i as int)) as int;
            lemma_signed_chain_step(
                0,
                words_val(bx.subrange(0, i as int)) as int,
                x_carry as int,
                x_new as int,
                cx as int,
                a * sx - b * sy,
                p,
                word_base() as int,
                a * xo - b * yo,
            );
            lemma_signed_chain_step(
                0,
                words_val(by_.subrange(0, i as int)) as int,
                y_carry as int,
                y_new as int,
                cy as int,
                d * sy - c * sx,
                p,
                word_base() as int,
                d * yo - c * xo,
            );
            assert((a * xo - b * yo) + (a * sx - b * sy) * p == a * (xo + sx * p) - b * (yo + sy
                * p)) by (nonlinear_arith);
            assert((d * yo - c * xo) + (d * sy - c * sx) * p == d * (yo + sy * p) - c * (xo + sx
                * p)) by (nonlinear_arith);
            assert(word_base() * p == word_pow((i + 1) as nat));
        }
        x_carry = cx;
        y_carry = cy;
        i = i + 1;
    }
    let ghost xn = words_val(x@.subrange(0, n as int)) as int;
    let ghost yn = words_val(y@.subrange(0, n as int)) as int;
    proof {
        assert(oy.subrange(0, n as int) =~= oy);
        assert(y@.subrange(0, n as int) =~= y@);
        crate::words::lemma_words_val_bound(x@.subrange(0, n as int));
        crate::words::lemma_words_val_bound(y@);
        lemma_word_pow(n as nat);
    }
    if lx == n {
        proof {
            assert(ox.subrange(0, n as int) =~= ox);
            assert(x@.subrange(0, n as int) =~= x@);
            lemma_carry_in_range(xn, x_carry as int, word_pow(n as nat) as int);
            lemma_carry_in_range(yn, y_carry as int, word_pow(n as nat) as int);
        }
        x_carry == 0 && y_carry == 0
    } else {
        // the extra top word of x
        let x_top = x[n];
        proof {
            lemma_mul_upper_bound(a as int, COEFF_LIMIT as int, x_top as int, u64::MAX as int);
            lemma_mul_upper_bound(c as int, COEFF_LIMIT as int, x_top as int, u64::MAX as int);
            lemma_mul_nonnegative(a as int, x_top as int);
            lemma_mul_nonnegative(c as int, x_top as int);
        }
        let (x_new, cx) = split_signed_dword(sa * (x_top as SignedDoubleWord) + x_carry as SignedDoubleWord);
        let ghost bx = x@;
        x[n] = x_new;
        proof {
            let p = word_pow(n as nat) as int;
            let bb = word_base() as int;
            lemma_pow2_widths();
            crate::words::lemma_words_val_split(ox, n as int);
            crate::words::lemma_words_val_split(x@, n as int);
            assert(ox.subrange(n as int, lx as int) =~= seq![x_top]);
            assert(x@.subrange(n as int, lx as int) =~= seq![x_new]);
            assert(x@.subrange(0, n as int) =~= bx.subrange(0, n as int));
            crate::words::lemma_words_val_single(x_top);
            crate::words::lemma_words_val_single(x_new);
            lemma_word_pow(lx as nat);
            let xo = words_val(ox.subrange(0, n as int)) as int;
            assert(a * (xo + p * x_top) - b * words_val(oy) == xn + (x_new + cx * bb) * p) by (
            nonlinear_arith)
                requires
                    xn + x_carry * p == a * xo - b * words_val(oy),
                    x_new + cx * bb == a * x_top + x_carry,
            ;
            assert(d * words_val(oy) - c * (xo + p * x_top) == yn + (y_carry - c * x_top) * p) by (
            nonlinear_arith)
                requires
                    yn + y_carry * p == d * words_val(oy) - c * xo,
            ;
            assert(xn + x_new * p < bb * p) by {
                lemma_mul_inequality(x_new + 1, bb, p);
                lemma_mul_is_distributive_add_other_way(p, x_new as int, 1);
            }
            assert(xn + x_new * p >= 0) by {
                lemma_mul_nonnegative(x_new as int, p);
            }
            lemma_carry_in_range(xn + x_new * p, cx as int, bb * p);
            lemma_carry_in_range(yn, y_carry - c * x_top, p);
            assert((xn + (x_new + cx * bb) * p) == (xn + x_new * p) + cx * (bb * p)) by (nonlinear_arith);
            assert(words_val(x@) == xn + x_new * p) by {
                lemma_mul_is_commutative(p, x_new as int);
            }
            assert(words_val(ox) == xo + p * x_top);
            if cx == 0 {
                lemma_mul_basics(bb * p);
            }
        }
        cx == 0 && (y_carry as SignedDoubleWord) == sc * (x_top as SignedDoubleWord)
    }
}

/// A value `v + carry P` with `0 <= v < P` is in `[0, P)` exactly when the carry is zero.
proof fn lemma_carry_in_range(v: int, carry: int, p: int)
    requires
        0 <= v < p,
    ensures
        (0 <= v + carry * p < p) == (carry == 0),
{
    if carry >= 1 {
        lemma_mul_inequality(1, carry, p);
    } else if carry <= -1 {
        lemma_mul_inequality(carry, -1, p);
    } else {
        lemma_mul_basics(p);
    }
}

/// Minimum number of words for guessing the Lehmer coefficients from double words.
pub const MIN_DWORD_GUESS_LEN: usize = 300;

/// The coefficients of a Lehmer step, guessed from the leading words of `x >= y`.
fn guess(x: &Vec<Word>, y: &Vec<Word>) -> (r: (Word, Word, Word, Word))
    requires
        x@.len() >= 2,
        is_normalized(x@),
        y@.len() <= x@.len(),
        words_val(y@) <= words_val(x@),
    ensures
        r.0 * r.3 - r.1 * r.2 == 1,
        r.0 <= COEFF_LIMIT,
        r.1 <= COEFF_LIMIT,
        r.2 <= COEFF_LIMIT,
        r.3 <= COEFF_LIMIT,
{
    let ghost p = pow2((64 - spec_bit_len(x@.last() as nat)) as nat) as int;
    proof {
        lemma_pow2_pos((64 - spec_bit_len(x@.last() as nat)) as nat);
        lemma_word_pow((x@.len() - 2) as nat);
        lemma_word_pow((x@.len() - 3) as nat);
    }
    if x.len() < MIN_DWORD_GUESS_LEN {
        let (x_hi, y_hi) = highest_word_normalized(x.as_slice(), y.as_slice());
        proof {
            lemma_scaled_ordered(words_val(y@), words_val(x@), word_pow((x@.len() - 2) as nat), p);
        }
        lehmer_guess(x_hi, y_hi)
    } else {
        let (x_hi, y_hi) = highest_dword_normalized(x.as_slice(), y.as_slice());
        proof {
            lemma_scaled_ordered(words_val(y@), words_val(x@), word_pow((x@.len() - 3) as nat), p);
        }
        lehmer_guess_dword(x_hi, y_hi)
    }
}

/// Scaling keeps the order: `y <= x` gives `(y / k) p / B <= (x / k) p / B`.
proof fn lemma_scaled_ordered(y: nat, x: nat, k: nat, p: int)
    requires
        y <= x,
        k > 0,
        p > 0,
    ensures
        (y / k) * p / (word_base() as int) <= (x / k) * p / (word_base() as int),
{
    lemma_div_is_ordered(y as int, x as int, k as int);
    lemma_mul_inequality((y / k) as int, (x / k) as int, p);
    lemma_div_is_ordered((y / k) * p, (x / k) * p, word_base() as int);
}

/// Greatest common divisor of two numbers `lhs >= rhs` given by their words, by Lehmer's
/// algorithm: while `rhs` has more than two words, the
/// coefficients guessed from the leading words take several Euclidean steps at once; when the
/// guess fails, or its step would not give two non-negative numbers, one Euclidean step is
/// taken.
pub fn gcd_in_place(lhs: Vec<Word>, rhs: Vec<Word>) -> (r: UBig)
    requires
        is_normalized(lhs@),
        is_normalized(rhs@),
        words_val(lhs@) >= words_val(rhs@),
        lhs@.len() <= spec_max_capacity(),
    ensures
        r@ == spec_gcd(words_val(lhs@), words_val(rhs@)),
{
    let ghost g = spec_gcd(words_val(lhs@), words_val(rhs@));
    let mut x = lhs;
    let mut y = rhs;
    proof {
        crate::words::lemma_normalized_len(x@, y@);
    }
    while y.len() > 2
        invariant
            is_normalized(x@),
            is_normalized(y@),
            words_val(x@) >= words_val(y@),
            y@.len() <= x@.len(),
            x@.len() <= spec_max_capacity(),
            spec_gcd(words_val(x@), words_val(y@)) == g,
        decreases words_val(x@) + words_val(y@),
    {
        let ghost xv = words_val(x@);
        let ghost yv = words_val(y@);
        proof {
            crate::ubig::lemma_zero_iff_empty(y@);
        }
        let (a, b, c, d) = guess(&x, &y);
        let mut stepped = false;
        if b != 0 && x.len() - y.len() <= 1 {
            let mut nx = slice_to_vec(x.as_slice());
            let mut ny = slice_to_vec(y.as_slice());
            if lehmer_step(nx.as_mut_slice(), ny.as_mut_slice(), a, b, c, d) {
                trim_zeros(&mut nx);
                trim_zeros(&mut ny);
                proof {
                    lemma_unimodular_gcd(xv, yv, a as nat, b as nat, c as nat, d as nat);
                    lemma_lehmer_decreases(xv, yv, a as int, b as int, c as int, d as int);
                }
                if words_less(ny.as_slice(), nx.as_slice()) {
                    x = nx;
                    y = ny;
                } else {
                    proof {
                        lemma_gcd_comm(words_val(nx@), words_val(ny@));
                    }
                    x = ny;
                    y = nx;
                }
                proof {
                    crate::words::lemma_normalized_len(x@, y@);
                }
                stepped = true;
            }
        }
        if !stepped {
            // a Euclidean step: (x, y) = (y, x % y)
            let r = crate::div_ops::rem_large(x.as_slice(), y.as_slice());
            let rv = slice_to_vec(r.as_words());
            proof {
                vstd::arithmetic::div_mod::lemma_mod_bound(xv as int, yv as int);
            }
            x = y;
            y = rv;
            proof {
                crate::words::lemma_normalized_len(x@, y@);
            }
        }
    }
    if y.len() == 0 {
        proof {
            crate::ubig::lemma_zero_iff_empty(y@);
            assert(spec_gcd(words_val(x@), 0) == words_val(x@));
        }
        UBig::from_vec(x)
    } else if y.len() == 1 {
        let y_word = y[0];
        proof {
            assert(y@ =~= seq![y_word]);
            crate::words::lemma_words_val_single(y_word);
            crate::words::lemma_normalized_len(y@, x@);
        }
        let x_word = rem_by_word(x.as_slice(), y_word);
        proof {
            lemma_gcd_comm(x_word as nat, y_word as nat);
        }
        UBig::from_word(word_gcd(x_word, y_word))
    } else {
        let y_dword = crate::primitive::highest_dword(y.as_slice());
        proof {
            crate::shift::lemma_words_val_suffix(y@, 2);
            crate::shift::lemma_words_val_suffix(y@, 1);
            assert(y@.subrange(0, 2) =~= y@);
            assert(y@.subrange(2, 2) =~= Seq::<Word>::empty());
            assert(words_val(Seq::<Word>::empty()) == 0);
            lemma_pow2_widths();
            assert(y_dword > u64::MAX) by (nonlinear_arith)
                requires
                    y_dword == y@[1] * word_base() + y@[0],
                    y@[1] != 0,
                    word_base() == 0x1_0000_0000_0000_0000int,
            ;
        }
        let x_dword = rem_by_dword(x.as_slice(), y_dword);
        proof {
            lemma_gcd_comm(x_dword as nat, y_dword as nat);
        }
        UBig::from_dword(dword_gcd(x_dword, y_dword))
    }
}

/// A Lehmer step with `b >= 1` decreases the sum of the pair: `x == d u + b v >= u + v` for
/// the new pair `(u, v)`, and `y > 0`.
proof fn lemma_lehmer_decreases(x: nat, y: nat, a: int, b: int, c: int, d: int)
    requires
        a * d - b * c == 1,
        a >= 0,
        b >= 1,
        c >= 0,
        d >= 0,
        y > 0,
        a * x - b * y >= 0,
        d * y - c * x >= 0,
    ensures
        (a * x - b * y) + (d * y - c * x) < x + y,
        (a * x - b * y) + (d * y - c * x) <= x,
{
    let u = a * x - b * y;
    let v = d * y - c * x;
    assert(x == u * d + v * b) by (nonlinear_arith)
        requires
            a * d - b * c == 1,
            u == a * x - b * y,
            v == d * y - c * x,
    ;
    // d >= 1 as a d == 1 + b c >= 1
    lemma_mul_nonnegative(b, c);
    if d == 0 {
        lemma_mul_basics(a);
    }
    lemma_mul_inequality(1, d, u);
    lemma_mul_inequality(1, b, v);
    lemma_mul_is_commutative(u, d);
    lemma_mul_is_commutative(v, b);
}

/// One step of the unsigned carry chains of [lehmer_ext_step].
proof fn lemma_unsigned_chain_step(vo: int, carry: int, lo: int, hi: int, val: int, p: int, b: int, t: int)
    by (nonlinear_arith)
    requires
        vo + carry * p == t,
        val + carry == hi * b + lo,
    ensures
        (vo + lo * p) + hi * (b * p) == t + val * p,
{
}

/// Calculate `(x, y) = (a x + b y, c x + d y)` on the low `len` words of `x` and `y` in a
/// single pass; returns the carry words.
fn lehmer_ext_step(x: &mut [Word], y: &mut [Word], len: usize, a: Word, b: Word, c: Word, d: Word) -> (r: (Word, Word))
    requires
        len <= old(x)@.len(),
        len <= old(y)@.len(),
        a <= COEFF_LIMIT,
        b <= COEFF_LIMIT,
        c <= COEFF_LIMIT,
        d <= COEFF_LIMIT,
    ensures
        final(x)@.len() == old(x)@.len(),
        final(y)@.len() == old(y)@.len(),
        forall|j: int| len <= j < old(x)@.len() ==> final(x)@[j] == old(x)@[j],
        forall|j: int| len <= j < old(y)@.len() ==> final(y)@[j] == old(y)@[j],
        words_val(final(x)@.subrange(0, len as int)) + r.0 * word_pow(len as nat) == a * words_val(
            old(x)@.subrange(0, len as int),
        ) + b * words_val(old(y)@.subrange(0, len as int)),
        words_val(final(y)@.subrange(0, len as int)) + r.1 * word_pow(len as nat) == c * words_val(
            old(x)@.subrange(0, len as int),
        ) + d * words_val(old(y)@.subrange(0, len as int)),
{
    let ghost ox = x@;
    let ghost oy = y@;
    let ea = extend_word(a);
    let eb = extend_word(b);
    let ec = extend_word(c);
    let ed = extend_word(d);
    let mut x_carry: Word = 0;
    let mut y_carry: Word = 0;
    let mut i: usize = 0;
    proof {
        lemma_word_pow(0);
        assert(x@.subrange(0, 0) =~= Seq::<Word>::empty());
        assert(y@.subrange(0, 0) =~= Seq::<Word>::empty());
        assert(ox.subrange(0, 0) =~= Seq::<Word>::empty());
        assert(oy.subrange(0, 0) =~= Seq::<Word>::empty());
        assert(words_val(Seq::<Word>::empty()) == 0);
        lemma_mul_basics(a as int);
        lemma_mul_basics(b as int);
        lemma_mul_basics(c as int);
        lemma_mul_basics(d as int);
    }
    while i < len
        invariant
            len <= ox.len(),
            len <= oy.len(),
            x@.len() == ox.len(),
            y@.len() == oy.len(),
            i <= len,
            ea == a,
            eb == b,
            ec == c,
            ed == d,
            a <= COEFF_LIMIT,
            b <= COEFF_LIMIT,
            c <= COEFF_LIMIT,
            d <= COEFF_LIMIT,
            forall|j: int| i <= j < ox.len() ==> x@[j] == ox[j],
            forall|j: int| i <= j < oy.len() ==> y@[j] == oy[j],
            words_val(x@.subrange(0, i as int)) + x_carry * word_pow(i as nat) == a * words_val(
                ox.subrange(0, i as int),
            ) + b * words_val(oy.subrange(0, i as int)),
            words_val(y@.subrange(0, i as int)) + y_carry * word_pow(i as nat) == c * words_val(
                ox.subrange(0, i as int),
            ) + d * words_val(oy.subrange(0, i as int)),
        decreases len - i,
    {
        let sx = extend_word(x[i]);
        let sy = extend_word(y[i]);
        proof {
            lemma_mul_upper_bound(a as int, COEFF_LIMIT as int, sx as int, u64::MAX as int);
            lemma_mul_upper_bound(b as int, COEFF_LIMIT as int, sy as int, u64::MAX as int);
            lemma_mul_upper_bound(c as int, COEFF_LIMIT as int, sx as int, u64::MAX as int);
            lemma_mul_upper_bound(d as int, COEFF_LIMIT as int, sy as int, u64::MAX as int);
        }
        let (x_new, cx) = split_dword(ea * sx + eb * sy + extend_word(x_carry));
        let (y_new, cy) = split_dword(ec * sx + ed * sy + extend_word(y_carry));
        let ghost bx = x@;
        let ghost by_ = y@;
        x[i] = x_new;
        y[i] = y_new;
        proof {
            let p = word_pow(i as nat) as int;
            lemma_word_pow(i as nat);
            crate::shift::lemma_words_val_prefix(x@, i as int);
            crate::shift::lemma_words_val_prefix(y@, i as int);
            crate::shift::lemma_words_val_prefix(ox, i as int);
            crate::shift::lemma_words_val_prefix(oy, i as int);
            assert(x@.subrange(0, i as int) =~= bx.subrange(0, i as int));
            assert(y@.subrange(0, i as int) =~= by_.subrange(0, i as int));
            let xo = words_val(ox.subrange(0, i as int)) as int;
            let yo = words_val(oy.subrange(0, i as int)) as int;
            lemma_unsigned_chain_step(
                words_val(bx.subrange(0, i as int)) as int,
                x_carry as int,
                x_new as int,
                cx as int,
                a * sx + b * sy,
                p,
                word_base() as int,
                a * xo + b * yo,
            );
            lemma_unsigned_chain_step(
                words_val(by_.subrange(0, i as int)) as int,
                y_carry as int,
                y_new as int,
                cy as int,
                c * sx + d * sy,
                p,
                word_base() as int,
                c * xo + d * yo,
            );
            assert((a * xo + b * yo) + (a * sx + b * sy) * p == a * (xo + sx * p) + b * (yo + sy
                * p)) by (nonlinear_arith);
            assert((c * xo + d * yo) + (c * sx + d * sy) * p == c * (xo + sx * p) + d * (yo + sy
                * p)) by (nonlinear_arith);
            assert(word_base() * p == word_pow((i + 1) as nat));
        }
        x_carry = cx;
        y_carry = cy;
        i = i + 1;
    }
    (x_carry, y_carry)
}

/// The coefficients after a Lehmer step: `(a t0 + b t1, c t0 + d t1)`, for coefficients not
/// above `bound`, whose length leaves room for one more word.
fn ext_step_coeffs(t0: &UBig, t1: &UBig, a: Word, b: Word, c: Word, d: Word, bound: &UBig) -> (r: (UBig, UBig))
    requires
        t0@ <= bound@,
        t1@ <= bound@,
        bound.spec_words().len() < spec_max_capacity(),
        a <= COEFF_LIMIT,
        b <= COEFF_LIMIT,
        c <= COEFF_LIMIT,
        d <= COEFF_LIMIT,
    ensures
        r.0@ == a * t0@ + b * t1@,
        r.1@ == c * t0@ + d * t1@,
{
    let w0 = t0.as_words();
    let w1 = t1.as_words();
    let bw = bound.as_words();
    proof {
        crate::words::lemma_normalized_len(bw@, w0@);
        crate::words::lemma_normalized_len(bw@, w1@);
    }
    let n = if w0.len() > w1.len() { w0.len() } else { w1.len() };
    let mut v0 = slice_to_vec(w0);
    let mut v1 = slice_to_vec(w1);
    while v0.len() < n
        invariant
            v0@.len() <= n,
            words_val(v0@) == t0@,
        decreases n - v0@.len(),
    {
        proof {
            crate::words::lemma_words_val_push(v0@, 0u64);
        }
        v0.push(0);
    }
    while v1.len() < n
        invariant
            v1@.len() <= n,
            words_val(v1@) == t1@,
        decreases n - v1@.len(),
    {
        proof {
            crate::words::lemma_words_val_push(v1@, 0u64);
        }
        v1.push(0);
    }
    proof {
        assert(v0@.subrange(0, n as int) =~= v0@);
        assert(v1@.subrange(0, n as int) =~= v1@);
    }
    let (c0, c1) = lehmer_ext_step(v0.as_mut_slice(), v1.as_mut_slice(), n, a, b, c, d);
    proof {
        assert(v0@.subrange(0, n as int) =~= v0@);
        assert(v1@.subrange(0, n as int) =~= v1@);
        crate::words::lemma_words_val_push(v0@, c0);
        crate::words::lemma_words_val_push(v1@, c1);
    }
    v0.push(c0);
    v1.push(c1);
    proof {
        lemma_mul_is_commutative(c0 as int, word_pow(n as nat) as int);
        lemma_mul_is_commutative(c1 as int, word_pow(n as nat) as int);
    }
    (UBig::from_vec(v0), UBig::from_vec(v1))
}

/// The coefficient of `R` as a signed number: positive when `positive`, else negative.
spec fn signed_coeff(positive: bool, t: nat) -> int {
    if positive { t as int } else { -(t as int) }
}

/// Extended greatest common divisor of two numbers `lhs > rhs` (`rhs` of more than one word)
/// by Lehmer's algorithm. Only the coefficients of `rhs` are kept, as their magnitudes
/// `t0, t1` (with `x == ±t0 rhs` and `y == ∓t1 rhs` modulo `lhs`); when `y` is down to one word,
/// a single-word extended gcd finishes.
///
/// Returns `g = gcd(lhs, rhs)` and the magnitude and sign of `b` with `lhs a + rhs b == g`
/// for some `a` of the other sign.
pub fn gcd_ext_in_place(lhs: Vec<Word>, rhs: Vec<Word>) -> (r: (UBig, UBig, Sign))
    requires
        rhs@.len() > 1,
        is_normalized(lhs@),
        is_normalized(rhs@),
        words_val(lhs@) > words_val(rhs@),
        lhs@.len() < spec_max_capacity(),
    ensures
        r.0@ == spec_gcd(words_val(lhs@), words_val(rhs@)),
        r.1@ <= words_val(lhs@),
        exists|a: int|
            #![trigger words_val(lhs@) * a]
            words_val(lhs@) * a + words_val(rhs@) * signed_value(r.2, r.1@) == r.0@ && (r.2
                == Sign::Positive ==> a <= 0) && (r.2 == Sign::Negative ==> a >= 0),
{
    let ghost l = words_val(lhs@) as int;
    let ghost rr = words_val(rhs@) as int;
    let ghost g = spec_gcd(words_val(lhs@), words_val(rhs@));
    let bound = UBig::from_words(lhs.as_slice());
    proof {
        lemma_trim_len_is_len(lhs@);
        assert(bound.spec_words() =~= lhs@);
    }
    let mut x = lhs;
    let mut y = rhs;
    let mut t0 = UBig::zero();
    let mut t1 = UBig::one();
    let mut swapped = false;
    let ghost mut ga0: int = 1;
    let ghost mut ga1: int = 0;
    proof {
        crate::words::lemma_normalized_len(x@, y@);
        lemma_mul_basics(l);
        lemma_mul_basics(rr);
    }
    while y.len() > 1
        invariant
            is_normalized(x@),
            is_normalized(y@),
            words_val(x@) >= words_val(y@),
            y@.len() <= x@.len(),
            x@.len() <= bound.spec_words().len(),
            bound@ == l,
            bound.spec_words().len() < spec_max_capacity(),
            rr >= 0,
            spec_gcd(words_val(x@), words_val(y@)) == g,
            t1@ * words_val(x@) + t0@ * words_val(y@) == l,
            t0@ <= l,
            t1@ <= l,
            words_val(x@) == ga0 * l + signed_coeff(swapped, t0@) * rr,
            words_val(y@) == ga1 * l + signed_coeff(!swapped, t1@) * rr,
            swapped ==> ga0 <= 0 && ga1 >= 0,
            !swapped ==> ga0 >= 0 && ga1 <= 0,
        decreases words_val(x@) + words_val(y@),
    {
        let ghost xv = words_val(x@) as int;
        let ghost yv = words_val(y@) as int;
        proof {
            crate::ubig::lemma_zero_iff_empty(y@);
            crate::ubig::lemma_zero_iff_empty(x@);
            // both coefficients are at most l, as x, y >= 1
            lemma_mul_inequality(1, xv, t1@ as int);
            lemma_mul_inequality(1, yv, t0@ as int);
            lemma_mul_is_commutative(xv, t1@ as int);
            lemma_mul_is_commutative(yv, t0@ as int);
            lemma_mul_nonnegative(t1@ as int, xv);
            lemma_mul_nonnegative(t0@ as int, yv);
        }
        let (a, b, c, d) = guess(&x, &y);
        let ghost old_x = x@;
        let mut stepped = false;
        if b != 0 && x.len() - y.len() <= 1 {
            let mut nx = slice_to_vec(x.as_slice());
            let mut ny = slice_to_vec(y.as_slice());
            let step_ok = lehmer_step(nx.as_mut_slice(), ny.as_mut_slice(), a, b, c, d);
            let mut accepted = false;
            let mut nt0 = UBig::zero();
            let mut nt1 = UBig::zero();
            if step_ok {
                let (s0, s1) = ext_step_coeffs(&t0, &t1, a, b, c, d, &bound);
                // the coefficient magnitudes never exceed lhs
                accepted = !words_less(bound.as_words(), s0.as_words())
                    && !words_less(bound.as_words(), s1.as_words());
                nt0 = s0;
                nt1 = s1;
            }
            if accepted {
                trim_zeros(&mut nx);
                trim_zeros(&mut ny);
                let ghost na0 = a * ga0 - b * ga1;
                let ghost na1 = d * ga1 - c * ga0;
                proof {
                    lemma_unimodular_gcd(xv as nat, yv as nat, a as nat, b as nat, c as nat, d as nat);
                    lemma_lehmer_decreases(xv as nat, yv as nat, a as int, b as int, c as int, d as int);
                    lemma_lehmer_ext_coeffs(
                        l, rr, xv, yv, a as int, b as int, c as int, d as int, t0@ as int, t1@ as int,
                        ga0, ga1, swapped,
                    );
                }
                if words_less(ny.as_slice(), nx.as_slice()) {
                    x = nx;
                    y = ny;
                    t0 = nt0;
                    t1 = nt1;
                    proof {
                        ga0 = na0;
                        ga1 = na1;
                    }
                } else {
                    proof {
                        lemma_gcd_comm(words_val(nx@), words_val(ny@));
                    }
                    x = ny;
                    y = nx;
                    t0 = nt1;
                    t1 = nt0;
                    swapped = !swapped;
                    proof {
                        ga0 = na1;
                        ga1 = na0;
                    }
                }
                proof {
                    crate::words::lemma_normalized_len(x@, y@);
                    crate::words::lemma_normalized_len(x@, old_x);
                }
                stepped = true;
            }
        }
        if !stepped {
            // a Euclidean step: (x, y) = (y, x % y), t0 += q t1, and swap
            let (q, r) = crate::div_ops::div_rem_large(x.as_slice(), y.as_slice());
            proof {
                lemma_fundamental_div_mod(xv, yv);
                lemma_mod_bound(xv, yv);
                lemma_mul_is_commutative(yv, q@ as int);
                lemma_euclid_ext_coeffs(l, rr, xv, yv, q@ as int, r@ as int, t0@ as int, t1@ as int, ga0, ga1, swapped);
                lemma_mul_inequality(1, yv, (t0@ + q@ * t1@) as int);
                lemma_mul_is_commutative(yv, (t0@ + q@ * t1@) as int);
                lemma_mul_nonnegative(t1@ as int, r@ as int);
                lemma_mul_nonnegative(q@ as int, t1@ as int);
            }
            let nt = crate::gcd_ops::add_mul(&t0, &q, &t1, &bound);
            let rv = slice_to_vec(r.as_words());
            proof {
                let (o0, o1) = (ga0, ga1);
                ga0 = o1;
                ga1 = o0 - q@ * o1;
            }
            x = y;
            y = rv;
            t0 = t1;
            t1 = nt;
            swapped = !swapped;
            proof {
                crate::words::lemma_normalized_len(x@, y@);
            }
        }
    }
    proof {
        crate::ubig::lemma_zero_iff_empty(y@);
        crate::ubig::lemma_zero_iff_empty(x@);
    }
    if y.len() == 0 {
        let sign = if swapped { Sign::Positive } else { Sign::Negative };
        proof {
            assert(spec_gcd(words_val(x@), 0) == words_val(x@));
            lemma_signed_coeff_value(swapped, t0@);
            lemma_mul_is_commutative(l, ga0);
            assert(l * ga0 + rr * signed_value(sign, t0@) == words_val(x@)) by {
                lemma_mul_is_commutative(rr, signed_coeff(swapped, t0@));
            }
        }
        let gx = UBig::from_vec(x);
        return (gx, t0, sign);
    }
    // y is a single word: reduce x by it and finish with a single-word extended gcd
    let y_word = y[0];
    let ghost xv = words_val(x@) as int;
    proof {
        assert(y@ =~= seq![y_word]);
        crate::words::lemma_words_val_single(y_word);
        lemma_mul_inequality(1, xv, t1@ as int);
        lemma_mul_is_commutative(xv, t1@ as int);
        lemma_mul_nonnegative(t0@ as int, y_word as int);
    }
    let mut xq = x;
    let x_word = div_by_word_in_place(xq.as_mut_slice(), y_word);
    let q = UBig::from_vec(xq);
    proof {
        lemma_fundamental_div_mod(xv, y_word as int);
        lemma_mul_is_commutative(y_word as int, q@ as int);
        lemma_euclid_ext_coeffs(l, rr, xv, y_word as int, q@ as int, x_word as int, t0@ as int, t1@ as int, ga0, ga1, swapped);
        lemma_mul_inequality(1, y_word as int, (t0@ + q@ * t1@) as int);
        lemma_mul_is_commutative(y_word as int, (t0@ + q@ * t1@) as int);
        lemma_mul_nonnegative(t1@ as int, x_word as int);
        lemma_mul_nonnegative(q@ as int, t1@ as int);
    }
    let nt0 = crate::gcd_ops::add_mul(&t0, &q, &t1, &bound);
    let (g_word, cx, cy) = word_gcd_ext(x_word, y_word);
    let cxm = word_unsigned_abs(cx);
    let cym = word_unsigned_abs(cy);
    proof {
        lemma_gcd_comm(x_word as nat, y_word as nat);
        lemma_gcd_is_gcd(x_word as nat, y_word as nat);
        assert(spec_gcd(words_val(x@), y_word as nat) == spec_gcd(y_word as nat, x_word as nat));
        lemma_final_coeff_bound(l, x_word as int, y_word as int, nt0@ as int, t1@ as int, g_word as int, cx as int, cy as int);
    }
    let zero = UBig::zero();
    let m1 = crate::gcd_ops::add_mul(&zero, &UBig::from_word(cxm), &nt0, &bound);
    let bmag = crate::gcd_ops::add_mul(&m1, &UBig::from_word(cym), &t1, &bound);
    let flip = cy > 0;
    let sign = if swapped != flip { Sign::Positive } else { Sign::Negative };
    proof {
        lemma_final_coeffs(
            l, rr, x_word as int, y_word as int, g_word as int, cx as int, cy as int,
            ga0 - q@ * ga1, ga1, nt0@ as int, t1@ as int, swapped, sign, bmag@ as int,
        );
    }
    (UBig::from_word(g_word), bmag, sign)
}

/// A combination of two combinations of `l` and `r`.
proof fn lemma_comb(a: int, b: int, x: int, y: int, p: int, q: int, u: int, v: int, l: int, r: int)
    requires
        x == p * l + u * r,
        y == q * l + v * r,
    ensures
        a * x + b * y == (a * p + b * q) * l + (a * u + b * v) * r,
{
    lemma_mul_is_distributive_add(a, p * l, u * r);
    lemma_mul_is_distributive_add(b, q * l, v * r);
    lemma_mul_is_associative(a, p, l);
    lemma_mul_is_associative(a, u, r);
    lemma_mul_is_associative(b, q, l);
    lemma_mul_is_associative(b, v, r);
    lemma_mul_is_distributive_add_other_way(l, a * p, b * q);
    lemma_mul_is_distributive_add_other_way(r, a * u, b * v);
}

/// With determinant one, `(c t0 + d t1)(a x - b y) + (a t0 + b t1)(d y - c x) == t1 x + t0 y`.
proof fn lemma_det_identity(a: int, b: int, c: int, d: int, x: int, y: int, t0: int, t1: int)
    requires
        a * d - b * c == 1,
    ensures
        (c * t0 + d * t1) * (a * x - b * y) + (a * t0 + b * t1) * (d * y - c * x) == t1 * x + t0
            * y,
{
    let xx = a * x - b * y;
    let yy = d * y - c * x;
    assert(c * xx + a * yy == (a * d - b * c) * y) by (nonlinear_arith)
        requires
            xx == a * x - b * y,
            yy == d * y - c * x,
    ;
    assert(d * xx + b * yy == (a * d - b * c) * x) by (nonlinear_arith)
        requires
            xx == a * x - b * y,
            yy == d * y - c * x,
    ;
    lemma_mul_is_distributive_add_other_way(xx, c * t0, d * t1);
    lemma_mul_is_distributive_add_other_way(yy, a * t0, b * t1);
    lemma_mul_is_distributive_add(t0, c * xx, a * yy);
    lemma_mul_is_distributive_add(t1, d * xx, b * yy);
    lemma_mul_is_associative(c, t0, xx);
    lemma_mul_is_associative(d, t1, xx);
    lemma_mul_is_associative(a, t0, yy);
    lemma_mul_is_associative(b, t1, yy);
    lemma_mul_is_associative(t0, c, xx);
    lemma_mul_is_associative(t0, a, yy);
    lemma_mul_is_associative(t1, d, xx);
    lemma_mul_is_associative(t1, b, yy);
    lemma_mul_is_commutative(c, t0);
    lemma_mul_is_commutative(d, t1);
    lemma_mul_is_commutative(a, t0);
    lemma_mul_is_commutative(b, t1);
    lemma_mul_is_commutative(t0, y);
    lemma_mul_is_commutative(t1, x);
}

/// A Lehmer step on the pair and on the coefficient magnitudes keeps the relations of
/// [gcd_ext_in_place]: `t1 x + t0 y == l`, and `x`, `y` as combinations of `l` and `r` with
/// coefficients of opposite signs.
proof fn lemma_lehmer_ext_coeffs(
    l: int,
    r: int,
    x: int,
    y: int,
    a: int,
    b: int,
    c: int,
    d: int,
    t0: int,
    t1: int,
    ga0: int,
    ga1: int,
    swapped: bool,
)
    requires
        a * d - b * c == 1,
        a >= 0,
        b >= 0,
        c >= 0,
        d >= 0,
        t0 >= 0,
        t1 >= 0,
        t1 * x + t0 * y == l,
        x == ga0 * l + signed_coeff(swapped, t0 as nat) * r,
        y == ga1 * l + signed_coeff(!swapped, t1 as nat) * r,
        swapped ==> ga0 <= 0 && ga1 >= 0,
        !swapped ==> ga0 >= 0 && ga1 <= 0,
    ensures
        (c * t0 + d * t1) * (a * x - b * y) + (a * t0 + b * t1) * (d * y - c * x) == l,
        a * x - b * y == (a * ga0 - b * ga1) * l + signed_coeff(swapped, (a * t0 + b * t1) as nat)
            * r,
        d * y - c * x == (d * ga1 - c * ga0) * l + signed_coeff(!swapped, (c * t0 + d * t1) as nat)
            * r,
        swapped ==> a * ga0 - b * ga1 <= 0 && d * ga1 - c * ga0 >= 0,
        !swapped ==> a * ga0 - b * ga1 >= 0 && d * ga1 - c * ga0 <= 0,
{
    lemma_mul_nonnegative(a, t0);
    lemma_mul_nonnegative(b, t1);
    lemma_mul_nonnegative(c, t0);
    lemma_mul_nonnegative(d, t1);
    lemma_det_identity(a, b, c, d, x, y, t0, t1);
    if swapped {
        lemma_mul_nonnegative(a, -ga0);
        lemma_mul_nonnegative(c, -ga0);
        lemma_mul_nonnegative(b, ga1);
        lemma_mul_nonnegative(d, ga1);
    } else {
        lemma_mul_nonnegative(b, -ga1);
        lemma_mul_nonnegative(d, -ga1);
        lemma_mul_nonnegative(a, ga0);
        lemma_mul_nonnegative(c, ga0);
    }
    lemma_mul_unary_negation(a, ga0);
    lemma_mul_unary_negation(b, ga1);
    lemma_mul_unary_negation(c, ga0);
    lemma_mul_unary_negation(d, ga1);
    lemma_mul_is_commutative(a, -ga0);
    lemma_mul_is_commutative(b, -ga1);
    lemma_mul_is_commutative(c, -ga0);
    lemma_mul_is_commutative(d, -ga1);
    if swapped {
        lemma_comb(a, -b, x, y, ga0, ga1, t0, -t1, l, r);
        lemma_comb(d, -c, y, x, ga1, ga0, -t1, t0, l, r);
        lemma_mul_unary_negation(b, y);
        lemma_mul_unary_negation(c, x);
        assert(a * t0 + (-b) * (-t1) == a * t0 + b * t1) by (nonlinear_arith);
        assert(d * (-t1) + (-c) * t0 == -(c * t0 + d * t1)) by (nonlinear_arith);
        assert(a * ga0 + (-b) * ga1 == a * ga0 - b * ga1) by (nonlinear_arith);
        assert(d * ga1 + (-c) * ga0 == d * ga1 - c * ga0) by (nonlinear_arith);
        assert((-b) * y == -(b * y)) by (nonlinear_arith);
        assert((-c) * x == -(c * x)) by (nonlinear_arith);
    } else {
        lemma_comb(a, -b, x, y, ga0, ga1, -t0, t1, l, r);
        lemma_comb(d, -c, y, x, ga1, ga0, t1, -t0, l, r);
        assert(a * (-t0) + (-b) * t1 == -(a * t0 + b * t1)) by (nonlinear_arith);
        assert(d * t1 + (-c) * (-t0) == c * t0 + d * t1) by (nonlinear_arith);
        assert(a * ga0 + (-b) * ga1 == a * ga0 - b * ga1) by (nonlinear_arith);
        assert(d * ga1 + (-c) * ga0 == d * ga1 - c * ga0) by (nonlinear_arith);
        assert((-b) * y == -(b * y)) by (nonlinear_arith);
        assert((-c) * x == -(c * x)) by (nonlinear_arith);
    }
}

/// A Euclidean step `x == q y + rem` on the pair and `t0 + q t1` on the coefficients keeps the
/// relations of [gcd_ext_in_place].
proof fn lemma_euclid_ext_coeffs(
    l: int,
    r: int,
    x: int,
    y: int,
    q: int,
    rem: int,
    t0: int,
    t1: int,
    ga0: int,
    ga1: int,
    swapped: bool,
)
    requires
        x == q * y + rem,
        q >= 0,
        t0 >= 0,
        t1 >= 0,
        t1 * x + t0 * y == l,
        x == ga0 * l + signed_coeff(swapped, t0 as nat) * r,
        y == ga1 * l + signed_coeff(!swapped, t1 as nat) * r,
        swapped ==> ga0 <= 0 && ga1 >= 0,
        !swapped ==> ga0 >= 0 && ga1 <= 0,
    ensures
        (t0 + q * t1) * y + t1 * rem == l,
        rem == (ga0 - q * ga1) * l + signed_coeff(swapped, (t0 + q * t1) as nat) * r,
        swapped ==> ga0 - q * ga1 <= 0,
        !swapped ==> ga0 - q * ga1 >= 0,
{
    lemma_mul_nonnegative(q, t1);
    assert((t0 + q * t1) * y + t1 * rem == t1 * (q * y + rem) + t0 * y) by (nonlinear_arith);
    if swapped {
        lemma_comb(1, -q, x, y, ga0, ga1, t0, -t1, l, r);
        assert(1 * t0 + (-q) * (-t1) == t0 + q * t1) by (nonlinear_arith);
        assert(1 * ga0 + (-q) * ga1 == ga0 - q * ga1) by (nonlinear_arith);
        assert(1 * x + (-q) * y == rem) by (nonlinear_arith)
            requires
                x == q * y + rem,
        ;
        lemma_mul_nonnegative(q, ga1);
    } else {
        lemma_comb(1, -q, x, y, ga0, ga1, -t0, t1, l, r);
        assert(1 * (-t0) + (-q) * t1 == -(t0 + q * t1)) by (nonlinear_arith);
        assert(1 * ga0 + (-q) * ga1 == ga0 - q * ga1) by (nonlinear_arith);
        assert(1 * x + (-q) * y == rem) by (nonlinear_arith)
            requires
                x == q * y + rem,
        ;
        lemma_mul_nonnegative(q, -ga1);
        lemma_mul_unary_negation(q, ga1);
        lemma_mul_is_commutative(q, -ga1);
    }
}

/// The signed coefficient is the signed value with the matching sign.
proof fn lemma_signed_coeff_value(positive: bool, t: nat)
    ensures
        signed_coeff(positive, t) == signed_value(
            if positive { Sign::Positive } else { Sign::Negative },
            t,
        ),
{
}

/// The magnitude `|cx| t0 + |cy| t1` of the final coefficient is at most `l`.
proof fn lemma_final_coeff_bound(
    l: int,
    xw: int,
    yw: int,
    t0: int,
    t1: int,
    g: int,
    cx: int,
    cy: int,
)
    requires
        t1 * xw + t0 * yw == l,
        t1 <= l,
        xw >= 0,
        yw >= 1,
        t0 >= 0,
        t1 >= 0,
        g >= 1,
        xw > 0 ==> spec_abs(cx) * g <= yw && spec_abs(cy) * g <= xw,
        xw == 0 ==> cx == 0 && cy == 1,
    ensures
        spec_abs(cx) * t0 <= l,
        spec_abs(cx) * t0 + spec_abs(cy) * t1 <= l,
{
    lemma_mul_nonnegative(t1, xw);
    lemma_mul_nonnegative(t0, yw);
    lemma_mul_nonnegative(spec_abs(cx) as int, t0);
    lemma_mul_nonnegative(spec_abs(cy) as int, t1);
    if xw > 0 {
        lemma_mul_basics(spec_abs(cx) as int);
        lemma_mul_basics(spec_abs(cy) as int);
        lemma_mul_inequality(1, g, spec_abs(cx) as int);
        lemma_mul_inequality(1, g, spec_abs(cy) as int);
        lemma_mul_is_commutative(g, spec_abs(cx) as int);
        lemma_mul_is_commutative(g, spec_abs(cy) as int);
        assert(spec_abs(cx) <= yw);
        assert(spec_abs(cy) <= xw);
        lemma_mul_inequality(spec_abs(cx) as int, yw, t0);
        lemma_mul_inequality(spec_abs(cy) as int, xw, t1);
        lemma_mul_is_commutative(yw, t0);
        lemma_mul_is_commutative(xw, t1);
        assert(spec_abs(cx) * t0 <= t0 * yw);
        assert(spec_abs(cy) * t1 <= t1 * xw);
    } else {
        lemma_mul_basics(t0);
        lemma_mul_basics(t1);
        lemma_mul_inequality(1, yw, t0);
        lemma_mul_is_commutative(yw, t0);
    }
}

/// The final Bézout relation: from `g == cx xw + cy yw` with `xw`, `yw` combinations of `l`
/// and `r`, the coefficient of `r` has magnitude `|cx| t0 + |cy| t1` and the returned sign,
/// and the coefficient of `l` the other sign.
proof fn lemma_final_coeffs(
    l: int,
    r: int,
    xw: int,
    yw: int,
    g: int,
    cx: int,
    cy: int,
    a0: int,
    a1: int,
    t0: int,
    t1: int,
    swapped: bool,
    sign: Sign,
    bmag: int,
)
    requires
        xw == a0 * l + signed_coeff(swapped, t0 as nat) * r,
        yw == a1 * l + signed_coeff(!swapped, t1 as nat) * r,
        swapped ==> a0 <= 0 && a1 >= 0,
        !swapped ==> a0 >= 0 && a1 <= 0,
        xw >= 0,
        yw >= 1,
        t0 >= 0,
        t1 >= 0,
        g >= 1,
        xw * cx + yw * cy == g,
        cx * cy <= 0,
        xw == 0 ==> cx == 0 && cy == 1,
        bmag == spec_abs(cx) * t0 + spec_abs(cy) * t1,
        sign == (if swapped != (cy > 0) { Sign::Positive } else { Sign::Negative }),
    ensures
        exists|a: int|
            #![trigger l * a]
            l * a + r * signed_value(sign, bmag as nat) == g && (sign == Sign::Positive ==> a <= 0)
                && (sign == Sign::Negative ==> a >= 0),
{
    let a = cx * a0 + cy * a1;
    let w = if swapped { cx * t0 - cy * t1 } else { cy * t1 - cx * t0 };
    if swapped {
        lemma_comb(cx, cy, xw, yw, a0, a1, t0, -t1, l, r);
        assert(cx * t0 + cy * (-t1) == cx * t0 - cy * t1) by (nonlinear_arith);
    } else {
        lemma_comb(cx, cy, xw, yw, a0, a1, -t0, t1, l, r);
        assert(cx * (-t0) + cy * t1 == cy * t1 - cx * t0) by (nonlinear_arith);
    }
    lemma_mul_is_commutative(xw, cx);
    lemma_mul_is_commutative(yw, cy);
    assert(g == a * l + w * r);
    lemma_mul_is_commutative(a, l);
    lemma_mul_is_commutative(w, r);
    // the signs of cx and cy
    if cy == 0 {
        if cx <= 0 {
            lemma_mul_nonnegative(xw, -cx);
            lemma_mul_unary_negation(xw, cx);
            lemma_mul_is_commutative(xw, -cx);
            lemma_mul_basics(yw);
        }
        assert(cx > 0);
    }
    if cy > 0 {
        assert(cx <= 0) by (nonlinear_arith)
            requires
                cx * cy <= 0,
                cy > 0,
        ;
        assert(cx * t0 - cy * t1 == -bmag) by (nonlinear_arith)
            requires
                bmag == spec_abs(cx) * t0 + spec_abs(cy) * t1,
                cx <= 0,
                cy > 0,
        ;
        assert(signed_value(sign, bmag as nat) == w);
        if swapped {
            assert(a >= 0) by (nonlinear_arith)
                requires
                    a == cx * a0 + cy * a1,
                    cx <= 0,
                    cy > 0,
                    a0 <= 0,
                    a1 >= 0,
            ;
        } else {
            assert(a <= 0) by (nonlinear_arith)
                requires
                    a == cx * a0 + cy * a1,
                    cx <= 0,
                    cy > 0,
                    a0 >= 0,
                    a1 <= 0,
            ;
        }
    } else {
        assert(cx >= 0) by (nonlinear_arith)
            requires
                cx * cy <= 0,
                cy < 0 || cx > 0,
        ;
        assert(cx * t0 - cy * t1 == bmag) by (nonlinear_arith)
            requires
                bmag == spec_abs(cx) * t0 + spec_abs(cy) * t1,
                cx >= 0,
                cy <= 0,
        ;
        assert(signed_value(sign, bmag as nat) == w);
        if swapped {
            assert(a <= 0) by (nonlinear_arith)
                requires
                    a == cx * a0 + cy * a1,
                    cx >= 0,
                    cy <= 0,
                    a0 <= 0,
                    a1 >= 0,
            ;
        } else {
            assert(a >= 0) by (nonlinear_arith)
                requires
                    a == cx * a0 + cy * a1,
                    cx >= 0,
                    cy <= 0,
                    a0 >= 0,
                    a1 <= 0,
            ;
        }
    }
    assert(l * a + r * signed_value(sign, bmag as nat) == g);
}

/// The trimmed length of a normalized sequence is its length.
proof fn lemma_trim_len_is_len(s: Seq<Word>)
    requires
        is_normalized(s),
    ensures
        crate::words::trim_len(s) == s.len(),
{
}

} // verus!
