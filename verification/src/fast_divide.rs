//! Divide by a prearranged Word quickly using multiplication by the reciprocal.
use vstd::prelude::*;
use vstd::arithmetic::power2::*;
use vstd::arithmetic::div_mod::*;
use vstd::arithmetic::mul::*;
use vstd::bits::*;
use crate::arch::word::{DoubleWord, Word};
use crate::math::{ceil_log2, ones_word};
use crate::primitive::{
    split_dword, double_word, extend_word, word_base, lemma_pow2_widths, spec_bit_len,
    lemma_bit_len_bounds, PrimitiveUnsigned,
};

verus! {

/// Divide a Word by a prearranged divisor.
///
/// Granlund, Montgomery "Division by Invariant Integers using Multiplication"
/// Algorithm 4.1.
#[derive(Clone, Copy)]
pub struct FastDivideSmall {
    // 2 <= divisor < 2^N, N = WORD_BITS
    divisor: Word,
    // Let n = ceil(log_2(divisor))
    // 2^(n-1) < divisor <= 2^n
    // shift = n - 1
    shift: u32,
    // m = floor(B * 2^n / divisor) + 1 - B, where B = 2^N
    m: Word,
}

/// The facts that make the reciprocal exact: `2^(n-1) < d <= 2^n` and
/// `d (B + m) == B 2^n + k` for some `1 <= k <= d`.
pub open spec fn reciprocal_facts(d: nat, n: nat, m: nat) -> bool {
    &&& n >= 1
    &&& pow2((n - 1) as nat) < d <= pow2(n)
    &&& word_base() * pow2(n) < d * (word_base() + m) <= word_base() * pow2(n) + d
}

/// With `d (B + m) == B p + k`, `1 <= k <= d <= p` and `a < B`, the approximate quotient
/// `(B + m) a / (B p)` is exactly `a / d`.
proof fn lemma_reciprocal_quotient(a: int, d: int, m: int, b: int, p: int)
    requires
        0 <= a < b,
        0 < d <= p,
        0 <= m,
        b * p < d * (b + m) <= b * p + d,
    ensures
        ((b + m) * a) / (b * p) == a / d,
{
    let q0 = a / d;
    let r0 = a % d;
    lemma_fundamental_div_mod(a, d);
    lemma_mod_bound(a, d);
    let k = d * (b + m) - b * p;
    let x = (b + m) * a;
    assert(b * p * q0 <= x) by (nonlinear_arith)
        requires
            d * (b + m) == b * p + k,
            k > 0,
            a == d * q0 + r0,
            0 <= r0,
            d > 0,
            b > 0,
            p > 0,
            a >= 0,
            x == (b + m) * a,
    ;
    assert(x < b * p * (q0 + 1)) by (nonlinear_arith)
        requires
            d * (b + m) == b * p + k,
            0 < k <= d,
            d <= p,
            0 <= a < b,
            a == d * q0 + r0,
            0 <= r0 < d,
            d > 0,
            x == (b + m) * a,
    ;
    assert(b * p * (q0 + 1) == b * p * q0 + b * p) by (nonlinear_arith);
    lemma_fundamental_div_mod_converse(x, b * p, q0, x - b * p * q0);
}

impl FastDivideSmall {
    /// The divisor.
    pub closed spec fn spec_divisor(&self) -> nat {
        self.divisor as nat
    }

    /// The precomputed reciprocal belongs to the divisor.
    pub closed spec fn wf(&self) -> bool {
        &&& self.shift < 64
        &&& reciprocal_facts(self.divisor as nat, self.shift as nat + 1, self.m as nat)
    }

    /// Prepare the divisor, which must be at least 2.
    pub fn new(divisor: Word) -> (r: Self)
        requires
            divisor > 1,
        ensures
            r.wf(),
            r.spec_divisor() == divisor,
    {
        let n = ceil_log2(divisor);
        let ghost b = word_base();
        let ghost p = pow2(n as nat);
        proof {
            lemma_bit_len_bounds((divisor - 1) as nat);
            <u64 as PrimitiveUnsigned>::lemma_val_bound(divisor);
            lemma_pow2_widths();
            assert(n <= 64) by {
                if n > 64 {
                    lemma_pow2_strictly_increases(64, (n - 1) as nat);
                }
            }
            lemma_pow2_pos(n as nat);
        }
        // Calculate:
        // m = floor(B * 2^n / divisor) + 1 - B
        //   = floor(B * (2^n-1 - (divisor-1)) / divisor) + 1
        let diff = ones_word(n) - (divisor - 1);
        let x = double_word(0, diff);
        let (lo, _hi) = split_dword(x / extend_word(divisor));
        proof {
            assert(diff == p - divisor);
            // 2^n - d < d, so the quotient fits in a word, and it is at most B - 2
            lemma_pow2_unfold(n as nat);
            let pd = pow2((n - 1) as nat);
            assert(pd <= 0x8000_0000_0000_0000u64) by {
                lemma2_to64_rest();
                if n - 1 < 63 {
                    lemma_pow2_strictly_increases((n - 1) as nat, 63);
                }
            }
            let q = (x as int) / (divisor as int);
            let e = (x as int) % (divisor as int);
            lemma_fundamental_div_mod(x as int, divisor as int);
            lemma_mod_bound(x as int, divisor as int);
            assert(x == diff * b);
            assert(q <= b - 2) by (nonlinear_arith)
                requires
                    x == diff * b,
                    diff == p - divisor,
                    p == 2 * pd,
                    pd < divisor,
                    pd <= 0x8000_0000_0000_0000u64,
                    b == 0x1_0000_0000_0000_0000int,
                    x == divisor * q + e,
                    0 <= e,
            ;
            assert(q >= 0) by (nonlinear_arith)
                requires
                    x >= 0,
                    divisor > 0,
                    x == divisor * q + e,
                    e < divisor,
            ;
            assert(_hi == 0 && lo == q);
            // d (B + lo + 1) == B 2^n + (d - e)
            assert(divisor * (b + (lo + 1)) == b * p + (divisor - e)) by (nonlinear_arith)
                requires
                    x == diff * b,
                    diff == p - divisor,
                    x == divisor * lo + e,
            ;
        }
        FastDivideSmall { divisor, shift: n - 1, m: lo + 1 }
    }

    /// ( a / divisor, a % divisor)
    pub fn div_rem(&self, a: Word) -> (r: (Word, Word))
        requires
            self.wf(),
        ensures
            r.0 == (a as nat) / self.spec_divisor(),
            r.1 == (a as nat) % self.spec_divisor(),
    {
        // q = floor( (B + m) * a / (B * 2^n) )
        //
        // Remember that divisor * (B + m) = B * 2^n + k, 1 <= k <= 2^n
        //
        // (B + m) * a / (B * 2^n)
        // = a / divisor * (B * 2^n + k) / (B * 2^n)
        // = a / divisor + k * a / (divisor * B * 2^n)
        // On one hand, this is >= a / divisor
        // On the other hand, this is:
        // <= a / divisor + 2^n * (B-1) / (2^n * B) / divisor
        // < (a + 1) / divisor
        //
        // Therefore the floor is always the exact quotient.
        let ghost b = word_base() as int;
        let ghost n = self.shift as nat + 1;
        let ghost p = pow2(n) as int;
        let ghost ps = pow2(self.shift as nat) as int;
        let ghost d = self.divisor as int;
        // t = m * a / B
        proof {
            lemma_pow2_widths();
            lemma_mul_upper_bound(self.m as int, u64::MAX as int, a as int, u64::MAX as int);
        }
        let (_, t) = split_dword(extend_word(self.m) * extend_word(a));
        proof {
            lemma_pow2_pos(self.shift as nat);
            lemma_pow2_unfold(n);
            assert(p == 2 * ps);
            // t <= a, as m < B
            lemma_fundamental_div_mod(self.m * a, b);
            lemma_mod_bound(self.m * a, b);
            assert(t * b <= self.m * a);
            assert(t <= a) by (nonlinear_arith)
                requires
                    t * b <= self.m * a,
                    self.m < b,
                    a >= 0,
                    t >= 0,
            ;
        }
        // q = (t + a) / 2^n = (t + (a - t)/2) / 2^(n-1)
        let half = (a - t) >> 1u32;
        proof {
            lemma_u64_shr_is_div((a - t) as u64, 1);
            lemma2_to64();
        }
        let s = t + half;
        let q = s >> self.shift;
        proof {
            lemma_u64_shr_is_div((a - t) as u64, 1);
            lemma2_to64();
            lemma_u64_shr_is_div(s, self.shift as u64);
            // s == (a + t) / 2
            lemma_div_multiples_vanish_fancy_general_local(a - t, t as int, 2);
            assert(s == (a + t) / 2);
            // q == (a + t) / 2^n
            lemma_div_denominator((a + t) as int, 2, ps);
            // (a + t) == ((B + m) a) / B
            lemma_div_multiples_vanish_fancy_general_local(self.m * a, a as int, b);
            assert((b + self.m) * a == self.m * a + b * a) by (nonlinear_arith);
            // ((B + m) a) / (B 2^n) == (((B + m) a) / B) / 2^n
            lemma_div_denominator((b + self.m) * a, b, p);
            lemma_reciprocal_quotient(a as int, d, self.m as int, b, p);
            assert(q == a / self.divisor);
            lemma_fundamental_div_mod(a as int, d);
            lemma_mul_is_commutative(q as int, d);
        }
        let r = a - q * self.divisor;
        (q, r)
    }

    /// A placeholder that divides by nothing.
    pub fn dummy() -> (r: Self)
        ensures
            r.spec_divisor() == 0,
            !r.wf(),
    {
        FastDivideSmall { divisor: 0, shift: 0, m: 0 }
    }
}

/// `m` is the reciprocal of the normalized word `d`: `(B + m) d == B^2 - k` for some
/// `1 <= k <= d`, that is `m == floor((B^2 - 1) / d) - B`.
pub open spec fn is_word_reciprocal(d: nat, m: nat) -> bool {
    &&& 0x8000_0000_0000_0000 <= d < word_base()
    &&& word_base() * word_base() - d <= (word_base() + m) * d < word_base() * word_base()
}

/// The bounds of the first remainder estimate of Möller and Granlund: with the reciprocal
/// `v = B + m` of `d`, `v a1 + a0 == q1 B + q0` and `r == a - (q1 + 1) d`, the estimate lies in
/// `max(-d, q0 + 1 - B) <= r < max(B - d, q0)`.
proof fn lemma_remainder_estimate(
    b: int,
    d: int,
    v: int,
    a1: int,
    a0: int,
    q1: int,
    q0: int,
    r: int,
)
    requires
        b == 0x1_0000_0000_0000_0000int,
        b / 2 <= d < b,
        b * b - d <= v * d < b * b,
        0 <= a1 < d,
        0 <= a0 < b,
        0 <= q0 < b,
        v * a1 + a0 == q1 * b + q0,
        r == a1 * b + a0 - (q1 + 1) * d,
    ensures
        r >= -d,
        r >= q0 + 1 - b,
        r < b - d || r < q0,
{
    let k = b * b - v * d;
    // b r == k a1 + a0 (b - d) + q0 d - b d
    let t = q1 * b;
    assert(b * r == a1 * (b * b) + a0 * b - t * d - b * d) by (nonlinear_arith)
        requires
            r == a1 * b + a0 - (q1 + 1) * d,
            t == q1 * b,
    ;
    assert(t * d == (v * a1) * d + a0 * d - q0 * d) by (nonlinear_arith)
        requires
            t == v * a1 + a0 - q0,
    ;
    assert((v * a1) * d == (v * d) * a1) by (nonlinear_arith);
    assert(a1 * (b * b) - (v * d) * a1 == k * a1) by (nonlinear_arith)
        requires
            k == b * b - v * d,
    ;
    assert(a0 * b - a0 * d == a0 * (b - d)) by (nonlinear_arith);
    assert(b * r == k * a1 + a0 * (b - d) + q0 * d - b * d);
    assert(k * a1 >= 0) by (nonlinear_arith)
        requires
            k >= 1,
            a1 >= 0,
    ;
    assert(a0 * (b - d) >= 0) by (nonlinear_arith)
        requires
            a0 >= 0,
            b - d > 0,
    ;
    assert(r >= -d) by (nonlinear_arith)
        requires
            b * r >= q0 * d - b * d,
            q0 >= 0,
            d > 0,
            b > 0,
    ;
    assert(r >= q0 + 1 - b) by (nonlinear_arith)
        requires
            b * r >= q0 * d - b * d,
            0 <= q0 < b,
            0 < d < b,
    ;
    assert(k * a1 <= d * (d - 1)) by (nonlinear_arith)
        requires
            1 <= k <= d,
            0 <= a1 <= d - 1,
    ;
    assert(a0 * (b - d) <= (b - 1) * (b - d)) by (nonlinear_arith)
        requires
            0 <= a0 <= b - 1,
            b - d > 0,
    ;
    // b r < (b - d)^2 + q0 d <= b max(b - d, q0)
    if q0 <= b - d {
        assert(r < b - d) by (nonlinear_arith)
            requires
                b * r <= d * (d - 1) + (b - 1) * (b - d) + q0 * d - b * d,
                q0 <= b - d,
                0 < d < b,
                b > 0,
        ;
    } else {
        assert(r < q0) by (nonlinear_arith)
            requires
                b * r <= d * (d - 1) + (b - 1) * (b - d) + q0 * d - b * d,
                q0 > b - d,
                0 < d < b,
                q0 < b,
                b > 0,
        ;
    }
}

/// Divide a DoubleWord by a prearranged divisor.
///
/// Assumes quotient fits in a Word.
///
/// Möller, Granlund, "Improved division by invariant integers", Algorithm 4.
#[derive(Clone, Copy)]
pub struct FastDivideNormalized {
    // Top bit must be 1.
    divisor: Word,
    // floor ((B^2 - 1) / divisor) - B, where B = 2^WORD_BITS
    m: Word,
}

impl FastDivideNormalized {
    /// The divisor.
    pub closed spec fn spec_divisor(&self) -> nat {
        self.divisor as nat
    }

    /// The divisor is normalized and the reciprocal belongs to it.
    pub closed spec fn wf(&self) -> bool {
        is_word_reciprocal(self.divisor as nat, self.m as nat)
    }

    /// Calculate the inverse m > 0 of a normalized divisor (fit in a word), such that
    ///
    /// (m + B) * divisor = B^2 - k for some 1 <= k <= divisor
    pub fn invert_word(divisor: Word) -> (r: Word)
        requires
            divisor >= 0x8000_0000_0000_0000,
        ensures
            is_word_reciprocal(divisor as nat, r as nat),
    {
        let x = u128::MAX;
        let quo = x / extend_word(divisor);
        let (m, _hi) = split_dword(quo);
        proof {
            let b = word_base() as int;
            let d = divisor as int;
            let e = x as int % d;
            lemma_fundamental_div_mod(x as int, d);
            lemma_mod_bound(x as int, d);
            assert(x == b * b - 1);
            // B < quo < 2B
            assert(b <= quo < 2 * b) by (nonlinear_arith)
                requires
                    x == d * quo + e,
                    0 <= e < d,
                    b / 2 <= d < b,
                    x == b * b - 1,
                    b == 0x1_0000_0000_0000_0000int,
            ;
            assert(_hi == 1);
            assert((b + m) * d == b * b - 1 - e) by (nonlinear_arith)
                requires
                    quo == b + m,
                    x == d * quo + e,
                    x == b * b - 1,
            ;
        }
        m
    }

    /// Initialize from a given normalized divisor.
    ///
    /// divisor must have top bit of 1
    pub fn new(divisor: Word) -> (r: Self)
        requires
            divisor >= 0x8000_0000_0000_0000,
        ensures
            r.wf(),
            r.spec_divisor() == divisor,
    {
        FastDivideNormalized { divisor, m: Self::invert_word(divisor) }
    }

    /// (a / divisor, a % divisor) of a word
    pub fn div_rem_word(&self, a: Word) -> (r: (Word, Word))
        requires
            self.wf(),
        ensures
            r.0 == (a as nat) / self.spec_divisor(),
            r.1 == (a as nat) % self.spec_divisor(),
    {
        if a < self.divisor {
            proof {
                lemma_small_mod(a as nat, self.divisor as nat);
                lemma_basic_div(a as int, self.divisor as int);
            }
            (0, a)
        } else {
            // because self.divisor is normalized
            proof {
                lemma_fundamental_div_mod_converse(a as int, self.divisor as int, 1, a - self.divisor);
            }
            (1, a - self.divisor)
        }
    }

    /// (a / divisor, a % divisor); the quotient must fit in a word: `a < divisor * B`.
    pub fn div_rem(&self, a: DoubleWord) -> (r: (Word, Word))
        requires
            self.wf(),
            a < self.spec_divisor() * word_base(),
        ensures
            r.0 == (a as nat) / self.spec_divisor(),
            r.1 == (a as nat) % self.spec_divisor(),
    {
        let ghost b = word_base() as int;
        let ghost d = self.divisor as int;
        let ghost v = b + self.m;
        let (a_lo, a_hi) = split_dword(a);
        proof {
            assert(a_hi < d) by (nonlinear_arith)
                requires
                    a == a_hi * b + a_lo,
                    a < d * b,
                    0 <= a_lo,
                    b > 0,
            ;
            // the approximation (m + B) a_hi + a_lo fits a double word
            assert(v * a_hi + a_lo < b * b) by (nonlinear_arith)
                requires
                    v * d < b * b,
                    0 <= a_hi <= d - 1,
                    0 <= a_lo < b,
                    v >= b,
            ;
            assert(self.m * a_hi + a == v * a_hi + a_lo) by (nonlinear_arith)
                requires
                    v == b + self.m,
                    a == a_hi * b + a_lo,
            ;
            lemma_mul_upper_bound(self.m as int, u64::MAX as int, a_hi as int, u64::MAX as int);
        }
        // Approximate quotient is (m + B) * a / B^2 ~= (m * a/B + a)/B.
        let (q0, q1) = split_dword(extend_word(self.m) * extend_word(a_hi) + a);
        // q = q1 + 1 is our first approximation, but calculate mod B.
        // r = a - q * d
        let q_est = q1.wrapping_add(1);
        let r_est = a_lo.wrapping_sub(q_est.wrapping_mul(self.divisor));
        let ghost qe = q1 + 1;
        let ghost re = a - qe * d;
        proof {
            lemma_remainder_estimate(b, d, v, a_hi as int, a_lo as int, q1 as int, q0 as int, re);
            // the wrapped remainder is the estimate modulo B
            if qe < b {
                assert(q_est == qe);
                let p = q_est * d;
                lemma_fundamental_div_mod(p, b);
                lemma_mod_bound(p, b);
                assert(r_est == re || r_est == re + b);
            } else {
                assert(q_est == 0);
                assert(a_hi == d - 1) by (nonlinear_arith)
                    requires
                        re >= -d,
                        re == a_hi * b + a_lo - b * d,
                        0 <= a_lo < b,
                        a_hi < d,
                        d < b,
                ;
            }
            assert(re >= 0 ==> r_est == re);
            assert(re < 0 ==> r_est == re + b);
            // a non-negative estimate makes the quotient estimate at most a / d < B
            if re >= 0 {
                assert(qe < b) by (nonlinear_arith)
                    requires
                        qe * d <= a,
                        a < d * b,
                        d > 0,
                ;
            }
        }
        // if r mod B > q0 { q -= 1; r += d; }
        // decrease = 0xffff.fff = -1 if r mod B > q0, 0 otherwise.
        let (_, decrease) = split_dword(extend_word(q0).wrapping_sub(extend_word(r_est)));
        proof {
            if r_est > q0 {
                assert(decrease == u64::MAX);
            } else {
                assert(decrease == 0);
            }
            let dv: u64 = self.divisor;
            assert(u64::MAX & dv == dv) by (bit_vector);
            assert(0u64 & dv == 0) by (bit_vector);
        }
        let mut q = q_est.wrapping_add(decrease);
        let mut r = r_est.wrapping_add(decrease & self.divisor);
        proof {
            // now a == q d + r with 0 <= r < B <= 2d
            if r_est > q0 {
                assert(q == qe - 1);
                assert(r == re + d);
                assert((qe - 1) * d == qe * d - d) by (nonlinear_arith);
            } else {
                assert(q == qe);
                assert(r == re);
            }
            assert(a == q * d + r);
        }
        // the following fix step is unlikely to happen
        if r >= self.divisor {
            proof {
                assert(q + 1 < b) by (nonlinear_arith)
                    requires
                        a == q * d + r,
                        r >= d,
                        a < d * b,
                        d > 0,
                        q >= 0,
                ;
                assert((q + 1) * d == q * d + d) by (nonlinear_arith);
                assert(r - d < d);
            }
            q += 1;
            r -= self.divisor;
        }
        proof {
            lemma_fundamental_div_mod_converse(a as int, d, q as int, r as int);
        }
        (q, r)
    }

    /// A placeholder that divides by nothing.
    pub fn dummy() -> (r: Self)
        ensures
            r.spec_divisor() == 0,
            !r.wf(),
    {
        FastDivideNormalized { divisor: 0, m: 0 }
    }
}

/// `(x + k m) / k == x / k + m` for positive `k`.
proof fn lemma_div_multiples_vanish_fancy_general_local(x: int, m: int, k: int)
    requires
        k > 0,
    ensures
        (x + k * m) / k == x / k + m,
{
    crate::words::lemma_div_multiples_vanish_fancy_general(x, m, k);
}

} // verus!
