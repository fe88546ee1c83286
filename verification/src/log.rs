//! Logarithm
use vstd::prelude::*;
use vstd::arithmetic::power::*;
use vstd::arithmetic::power2::*;
use vstd::arithmetic::div_mod::*;
use vstd::arithmetic::mul::*;
use crate::arch::word::{DoubleWord, Word};
use crate::buffer::spec_max_capacity;
use crate::cmp::{words_less, words_equal};
use crate::div::div_by_word_in_place;
use crate::ibig::{IBig, spec_abs};
use crate::math::{spec_is_power_of_two, word_is_power_of_two, word_log2_exact};
use crate::mul::{mul_word_in_place, mul_large};
use crate::primitive::{
    spec_bit_len, lemma_bit_len_bounds, lemma_pow2_widths, split_dword, shrink_dword, word_base,
};
use crate::ubig::UBig;
use crate::words::{
    words_val, word_pow, is_normalized, lemma_word_pow, lemma_words_val_bound,
    lemma_words_val_lower, lemma_words_val_push, lemma_word_pow_monotone,
};

verus! {

/// `e` is the floor of the logarithm of `target` in `base`: `base^e <= target < base^(e+1)`.
pub open spec fn is_ilog(target: nat, base: nat, e: nat) -> bool {
    pow(base as int, e) <= target && target < pow(base as int, e + 1)
}

/// `b^(e+1) == b^e b`.
pub proof fn lemma_pow_succ(b: int, e: nat)
    ensures
        pow(b, e + 1) == pow(b, e) * b,
{
    reveal(pow);
    assert(pow(b, e + 1) == b * pow(b, e));
    lemma_mul_is_commutative(b, pow(b, e));
}

/// A base of at least two grows at least as fast as two: `2^e <= b^e`.
proof fn lemma_pow_ge_pow2(b: nat, e: nat)
    requires
        b >= 2,
    ensures
        pow2(e) <= pow(b as int, e),
    decreases e,
{
    reveal(pow);
    if e > 0 {
        lemma_pow_ge_pow2(b, (e - 1) as nat);
        lemma_pow_positive(2, (e - 1) as nat);
        assert(2 * pow(2, (e - 1) as nat) <= b * pow(b as int, (e - 1) as nat)) by (nonlinear_arith)
            requires
                pow(2, (e - 1) as nat) <= pow(b as int, (e - 1) as nat),
                b >= 2,
                pow(2, (e - 1) as nat) > 0,
        ;
    }
}

/// An exponent whose power fits below `2^k` is below `k`.
proof fn lemma_exp_below_bits(b: nat, e: nat, x: nat, k: nat)
    requires
        b >= 2,
        pow(b as int, e) <= x,
        x < pow2(k),
    ensures
        e < k,
{
    lemma_pow_ge_pow2(b, e);
    if e >= k {
        crate::words::lemma_pow2_strictly_increases_or_equal(k, e);
    }
}

/// The logarithm in base `2^k`: `floor((bit_len(x) - 1) / k)`.
proof fn lemma_ilog_power_of_two(x: nat, k: nat)
    requires
        x > 0,
        k > 0,
    ensures
        is_ilog(x, pow2(k), ((spec_bit_len(x) - 1) as nat / k) as nat),
        pow(pow2(k) as int, ((spec_bit_len(x) - 1) as nat / k) as nat) == pow2(
            (((spec_bit_len(x) - 1) as nat / k) * k) as nat,
        ),
{
    let l = spec_bit_len(x);
    lemma_bit_len_bounds(x);
    let e = ((l - 1) as nat / k) as nat;
    let lm = (l - 1) as int;
    let rr = lm % (k as int);
    lemma_fundamental_div_mod((l - 1) as int, k as int);
    lemma_mod_bound((l - 1) as int, k as int);
    lemma_pow_multiplies(2, k, e);
    lemma_pow_multiplies(2, k, e + 1);
    lemma_pow_positive(2, k);
    lemma_pow_positive(2, k * e);
    lemma_pow_positive(2, k * (e + 1));
    assert(pow2(k) as int == pow(2, k));
    lemma_mul_is_commutative(k as int, e as int);
    lemma_mul_is_commutative(k as int, (e + 1) as int);
    assert(e * k <= l - 1) by (nonlinear_arith)
        requires
            lm == k * e + rr,
            rr >= 0,
            lm == l - 1,
    ;
    assert((e + 1) * k >= l) by (nonlinear_arith)
        requires
            lm == k * e + rr,
            rr < k,
            lm == l - 1,
    ;
    crate::words::lemma_pow2_strictly_increases_or_equal((e * k) as nat, (l - 1) as nat);
    crate::words::lemma_pow2_strictly_increases_or_equal(l, ((e + 1) * k) as nat);
}

/// Floor logarithm of a double word in a double word base, and the power of the base.
fn log_dword(target: DoubleWord, base: DoubleWord) -> (r: (usize, UBig))
    requires
        base > 1,
        target > 0,
    ensures
        is_ilog(target as nat, base as nat, r.0 as nat),
        r.1@ == pow(base as int, r.0 as nat),
{
    proof {
        reveal(pow);
        lemma_pow_succ(base as int, 0);
        lemma_pow_succ(base as int, 1);
    }
    // shortcuts
    if target == 1 || target < base {
        return (0, UBig::one());
    } else if target == base {
        proof {
            assert(base < base * base) by (nonlinear_arith)
                requires
                    base > 1,
            ;
        }
        return (1, UBig::from_dword(base));
    }
    let mut est: usize = 1;
    let mut est_pow: DoubleWord = base;
    loop
        invariant
            base > 1,
            1 <= est <= 128,
            est_pow == pow(base as int, est as nat),
            est_pow <= target,
        ensures
            1 <= est <= 128,
            est_pow == pow(base as int, est as nat),
            is_ilog(target as nat, base as nat, est as nat),
        decreases target - est_pow,
    {
        proof {
            lemma_pow_succ(base as int, est as nat);
            lemma_pow_positive(base as int, est as nat);
            lemma_pow2_widths();
        }
        match est_pow.checked_mul(base) {
            Some(next_pow) => {
                if next_pow <= target {
                    proof {
                        lemma_exp_below_bits(base as nat, (est + 1) as nat, target as nat, 128);
                        assert(next_pow > est_pow) by (nonlinear_arith)
                            requires
                                next_pow == est_pow * base,
                                est_pow > 0,
                                base > 1,
                        ;
                    }
                    est_pow = next_pow;
                    est = est + 1;
                    if next_pow == target {
                        proof {
                            lemma_pow_succ(base as int, est as nat);
                            lemma_pow_positive(base as int, est as nat);
                            assert(target < target * base) by (nonlinear_arith)
                                requires
                                    target > 0,
                                    base > 1,
                            ;
                        }
                        break;
                    }
                } else {
                    break;
                }
            },
            None => {
                break;
            },
        }
    }
    (est, UBig::from_dword(est_pow))
}

/// A sequence whose value reaches `B^(len-1)` has a non-zero top word.
proof fn lemma_top_nonzero(s: Seq<Word>)
    requires
        s.len() > 0,
        words_val(s) >= word_pow((s.len() - 1) as nat),
    ensures
        is_normalized(s),
{
    if s.last() == 0 {
        let pre = s.drop_last();
        assert(s =~= pre.push(0u64));
        lemma_words_val_push(pre, 0u64);
        lemma_words_val_bound(pre);
    }
}

/// `base^exp` as words, without leading zero words, when that is below `B^m`.
fn pow_word_base(base: Word, exp: usize, Ghost(m): Ghost<nat>) -> (r: Vec<Word>)
    requires
        base >= 2,
        pow(base as int, exp as nat) < word_pow(m),
        m <= spec_max_capacity(),
    ensures
        words_val(r@) == pow(base as int, exp as nat),
        is_normalized(r@),
        r@.len() > 0,
        r@.len() <= m,
{
    let mut v: Vec<Word> = Vec::new();
    v.push(1);
    let mut i: usize = 0;
    proof {
        reveal(pow);
        crate::words::lemma_words_val_single(1);
        assert(v@ =~= seq![1u64]);
        lemma_pow_positive(base as int, exp as nat);
        lemma_word_pow(0);
        crate::gcd_ops::lemma_normalized_len_bound(v@, m);
    }
    while i < exp
        invariant
            base >= 2,
            i <= exp,
            words_val(v@) == pow(base as int, i as nat),
            is_normalized(v@),
            v@.len() > 0,
            pow(base as int, exp as nat) < word_pow(m),
            m <= spec_max_capacity(),
            v@.len() <= m,
        decreases exp - i,
    {
        let ghost before = v@;
        let carry = mul_word_in_place(v.as_mut_slice(), base);
        let ghost mid = v@;
        proof {
            lemma_pow_succ(base as int, i as nat);
            lemma_pow_increases(base as nat, (i + 1) as nat, exp as nat);
            lemma_pow_positive(base as int, i as nat);
            lemma_words_val_lower(before);
            lemma_word_pow((before.len() - 1) as nat);
        }
        if carry != 0 {
            v.push(carry);
            proof {
                lemma_words_val_push(mid, carry);
                crate::gcd_ops::lemma_normalized_len_bound(v@, m);
            }
        } else {
            proof {
                assert(words_val(mid) == words_val(before) * base) by {
                    assert(carry * word_pow(before.len()) == 0);
                }
                assert(words_val(before) * base >= words_val(before)) by (nonlinear_arith)
                    requires
                        base >= 2,
                ;
                lemma_top_nonzero(mid);
                crate::gcd_ops::lemma_normalized_len_bound(v@, m);
            }
        }
        i = i + 1;
    }
    v
}

/// Powers are monotone in the base: `b^e <= c^e` for `0 <= b <= c`.
proof fn lemma_pow_base_monotone(b: nat, c: nat, e: nat)
    requires
        b <= c,
    ensures
        pow(b as int, e) <= pow(c as int, e),
    decreases e,
{
    reveal(pow);
    if e > 0 {
        lemma_pow_base_monotone(b, c, (e - 1) as nat);
        lemma_pow_nonnegative_local(c, (e - 1) as nat);
        lemma_pow_nonnegative_local(b, (e - 1) as nat);
        lemma_mul_inequality(b as int, c as int, pow(b as int, (e - 1) as nat));
        lemma_mul_inequality(pow(b as int, (e - 1) as nat), pow(c as int, (e - 1) as nat), c as int);
        lemma_mul_is_commutative(c as int, pow(b as int, (e - 1) as nat));
        lemma_mul_is_commutative(c as int, pow(c as int, (e - 1) as nat));
    }
}

/// Powers of natural numbers are natural.
proof fn lemma_pow_nonnegative_local(b: nat, e: nat)
    ensures
        pow(b as int, e) >= 0,
    decreases e,
{
    reveal(pow);
    if e > 0 {
        lemma_pow_nonnegative_local(b, (e - 1) as nat);
        lemma_mul_nonnegative(b as int, pow(b as int, (e - 1) as nat));
    }
}

/// The estimate `(bit_len(x) - 1) / bit_len(b)` does not exceed the logarithm.
proof fn lemma_log_estimate(x: nat, b: nat)
    requires
        x > 0,
        b >= 2,
    ensures
        spec_bit_len(b) > 0,
        pow(b as int, ((spec_bit_len(x) - 1) as nat / spec_bit_len(b)) as nat) <= x,
{
    let lx = spec_bit_len(x);
    let lb = spec_bit_len(b);
    lemma_bit_len_bounds(x);
    lemma_bit_len_bounds(b);
    let e = ((lx - 1) as nat / lb) as nat;
    // b^e <= (2^lb)^e == 2^(lb e) <= 2^(lx - 1) <= x
    lemma_pow_base_monotone(b, pow2(lb), e);
    lemma_pow_multiplies(2, lb, e);
    lemma_pow_positive(2, lb);
    lemma_pow_positive(2, lb * e);
    assert(pow2(lb) as int == pow(2, lb));
    lemma_fundamental_div_mod((lx - 1) as int, lb as int);
    lemma_mod_bound((lx - 1) as int, lb as int);
    let lm = (lx - 1) as int;
    let rr = lm % (lb as int);
    assert(lb * e <= lx - 1) by (nonlinear_arith)
        requires
            lm == lb * e + rr,
            rr >= 0,
            lm == lx - 1,
    ;
    crate::words::lemma_pow2_strictly_increases_or_equal((lb * e) as nat, (lx - 1) as nat);
}

/// The bit length of a normalized word sequence.
fn words_bit_len(words: &[Word]) -> (r: usize)
    requires
        words@.len() > 0,
        words@.last() != 0,
        words@.len() <= spec_max_capacity(),
    ensures
        r == spec_bit_len(words_val(words@)),
{
    let n = words.len();
    let lz = crate::primitive::word_leading_zeros(words[n - 1]);
    proof {
        crate::bits::lemma_words_bit_len(words@);
    }
    n * 64 - lz as usize
}

/// Floor logarithm of a number of more than two words in a word base, and the power of the base.
fn log_word_base(target: &[Word], base: Word) -> (r: (usize, UBig))
    requires
        target@.len() > 2,
        target@.last() != 0,
        target@.len() <= spec_max_capacity(),
        base >= 2,
    ensures
        is_ilog(words_val(target@), base as nat, r.0 as nat),
        r.1@ == pow(base as int, r.0 as nat),
{
    let ghost t = words_val(target@);
    let n = target.len();
    let bl_t = words_bit_len(target);
    let bl_b = crate::math::bit_len(base);
    proof {
        lemma_words_val_lower(target@);
        lemma_word_pow((n - 1) as nat);
        lemma_log_estimate(t, base as nat);
        lemma_words_val_bound(target@);
        crate::words::lemma_word_pow_monotone(2, (n - 1) as nat);
        lemma_pow2_widths();
        lemma_bit_len_bounds(t);
        lemma_bit_len_bounds(base as nat);
        // the target has more than 128 bits and the base at most 64
        crate::primitive::lemma_bit_len_le(base as nat, 64);
        if bl_t <= 128 {
            crate::words::lemma_pow2_strictly_increases_or_equal(bl_t as nat, 128);
        }
    }
    proof {
        assert(pow2(128) == word_pow(2));
        assert(bl_t > 128);
        assert(bl_b <= 64);
        assert((bl_t - 1) as int / (bl_b as int) >= 1) by {
            lemma_div_is_ordered(bl_b as int, (bl_t - 1) as int, bl_b as int);
            lemma_div_basics(bl_b as int);
        }
        assert((bl_t - 1) as int / (bl_b as int) <= bl_t) by {
            lemma_div_is_ordered_by_denominator((bl_t - 1) as int, 1, bl_b as int);
            lemma_div_basics_2((bl_t - 1) as int);
        }
    }
    let mut est: usize = (bl_t - 1) / (bl_b as usize);
    let mut est_pow = pow_word_base(base, est, Ghost(n as nat));
    proof {
        lemma_pow_increases(base as nat, (est - 1) as nat, est as nat);
    }
    loop
        invariant_except_break
            1 <= est <= bl_t,
            is_normalized(est_pow@),
            est_pow@.len() > 0,
            words_val(est_pow@) == pow(base as int, est as nat),
            pow(base as int, (est - 1) as nat) <= t,
        invariant
            base >= 2,
            t == words_val(target@),
            target@.len() > 2,
            target@.last() != 0,
            target@.len() <= spec_max_capacity(),
            bl_t == spec_bit_len(t),
            t < pow2(bl_t as nat),
        ensures
            is_normalized(est_pow@),
            words_val(est_pow@) == pow(base as int, est as nat),
            is_ilog(t, base as nat, est as nat),
        decreases bl_t - est,
    {
        proof {
            lemma_pow_succ(base as int, (est - 1) as nat);
            lemma_pow_succ(base as int, est as nat);
            lemma_pow_positive(base as int, (est - 1) as nat);
        }
        if words_less(est_pow.as_slice(), target) {
            proof {
                lemma_exp_below_bits(base as nat, est as nat, t, bl_t as nat);
            }
            let ghost before = est_pow@;
            let carry = mul_word_in_place(est_pow.as_mut_slice(), base);
            let ghost mid = est_pow@;
            proof {
                lemma_words_val_lower(before);
                lemma_word_pow((before.len() - 1) as nat);
            }
            if carry != 0 {
                est_pow.push(carry);
                proof {
                    lemma_words_val_push(mid, carry);
                }
            } else {
                proof {
                    assert(carry * word_pow(before.len()) == 0);
                    assert(words_val(before) * base >= words_val(before)) by (nonlinear_arith)
                        requires
                            base >= 2,
                    ;
                    lemma_top_nonzero(mid);
                }
            }
            est = est + 1;
        } else if words_equal(est_pow.as_slice(), target) {
            proof {
                assert(t < t * base) by (nonlinear_arith)
                    requires
                        t > 0,
                        base >= 2,
                ;
            }
            break;
        } else {
            // recover the over estimate
            let ghost before = est_pow@;
            let _ = div_by_word_in_place(est_pow.as_mut_slice(), base);
            proof {
                lemma_div_multiples_vanish(pow(base as int, (est - 1) as nat), base as int);
                lemma_mul_is_commutative(pow(base as int, (est - 1) as nat), base as int);
            }
            crate::gcd_ops::trim_zeros(&mut est_pow);
            proof {
                lemma_pow_positive(base as int, (est - 1) as nat);
                crate::words::lemma_words_val_zero_iff(est_pow@);
            }
            est = est - 1;
            break;
        }
    }
    proof {
        crate::gcd_ops::lemma_normalized_len_bound(est_pow@, n as nat);
    }
    (est, UBig::from_vec(est_pow))
}

/// `base^exp` as words without leading zero words, when that is below `B^m`.
fn compute_power(base: &[Word], exp: usize, Ghost(m): Ghost<nat>) -> (r: Vec<Word>)
    requires
        words_val(base@) >= 2,
        pow(words_val(base@) as int, exp as nat) < word_pow(m),
        m <= spec_max_capacity(),
        base@.len() <= spec_max_capacity(),
    ensures
        words_val(r@) == pow(words_val(base@) as int, exp as nat),
        is_normalized(r@),
        r@.len() > 0,
        r@.len() <= m,
{
    let ghost b = words_val(base@);
    let mut v: Vec<Word> = Vec::new();
    v.push(1);
    let mut i: usize = 0;
    proof {
        reveal(pow);
        crate::words::lemma_words_val_single(1);
        assert(v@ =~= seq![1u64]);
        lemma_pow_positive(b as int, exp as nat);
        lemma_word_pow(0);
        crate::gcd_ops::lemma_normalized_len_bound(v@, m);
    }
    while i < exp
        invariant
            b == words_val(base@),
            b >= 2,
            i <= exp,
            words_val(v@) == pow(b as int, i as nat),
            is_normalized(v@),
            v@.len() > 0,
            pow(b as int, exp as nat) < word_pow(m),
            m <= spec_max_capacity(),
            base@.len() <= spec_max_capacity(),
            v@.len() <= m,
        decreases exp - i,
    {
        let mut next = mul_large(v.as_slice(), base);
        crate::gcd_ops::trim_zeros(&mut next);
        proof {
            lemma_pow_succ(b as int, i as nat);
            lemma_pow_increases(b as nat, (i + 1) as nat, exp as nat);
            lemma_pow_positive(b as int, (i + 1) as nat);
            crate::words::lemma_words_val_zero_iff(next@);
            crate::gcd_ops::lemma_normalized_len_bound(next@, m);
        }
        v = next;
        i = i + 1;
    }
    v
}

/// Floor logarithm of a number in a base of more than one word, no larger than the number, and
/// the power of the base.
///
/// The powers `base^(2^i)` up to the number are built by squaring; then, from the largest down,
/// the number is divided by each that still fits, and the exponents of those add up to the
/// logarithm.
fn log_large(target: &[Word], base: &[Word]) -> (r: (usize, UBig))
    requires
        target@.len() > 0,
        target@.last() != 0,
        target@.len() <= spec_max_capacity(),
        base@.len() > 1,
        base@.last() != 0,
        base@.len() <= spec_max_capacity(),
        words_val(base@) <= words_val(target@),
    ensures
        is_ilog(words_val(target@), words_val(base@), r.0 as nat),
        r.1@ == pow(words_val(base@) as int, r.0 as nat),
{
    let ghost t = words_val(target@);
    let ghost b = words_val(base@);
    let n = target.len();
    let bl_t = words_bit_len(target);
    proof {
        lemma_words_val_lower(base@);
        lemma_word_pow((base@.len() - 1) as nat);
        lemma_word_pow(1);
        crate::words::lemma_word_pow_monotone(1, (base@.len() - 1) as nat);
        lemma_words_val_bound(target@);
        lemma_bit_len_bounds(t);
        lemma2_to64();
        reveal(pow);
        assert(pow(b as int, 1) == b * pow(b as int, 0));
    }
    // base^(2^i) by repeated squaring, while at most the target
    let mut powers: Vec<UBig> = Vec::new();
    powers.push(UBig::from_words(base));
    loop
        invariant
            t == words_val(target@),
            b == words_val(base@),
            b >= 2,
            n == target@.len(),
            is_normalized(target@),
            target@.len() <= spec_max_capacity(),
            t < word_pow(n as nat),
            t < pow2(bl_t as nat),
            powers@.len() >= 1,
            forall|j: int|
                0 <= j < powers@.len() ==> (#[trigger] powers@[j])@ == pow(b as int, pow2(j as nat)),
            powers@[powers@.len() - 1]@ <= t,
        ensures
            powers@.len() >= 1,
            forall|j: int|
                0 <= j < powers@.len() ==> (#[trigger] powers@[j])@ == pow(b as int, pow2(j as nat)),
            t < pow(b as int, pow2(powers@.len() as nat)),
        decreases t - powers@[powers@.len() - 1]@,
    {
        let k = powers.len();
        let prev = &powers[k - 1];
        let pw = prev.as_words();
        let ghost pv = prev@;
        let ghost pk = pow2((k - 1) as nat);
        proof {
            lemma2_to64();
            lemma_pow2_adds((k - 1) as nat, 1);
            assert((k - 1) as nat + 1 == k as nat);
            lemma_pow_adds(b as int, pk, pk);
            assert(pow2(k as nat) == pk + pk);
            lemma_pow_positive(b as int, pk);
            crate::gcd_ops::lemma_normalized_len_bound(pw@, n as nat);
        }
        if 2 * pw.len() - 1 > n {
            proof {
                // the square has at least 2 len - 1 words, more than the target
                lemma_words_val_lower(pw@);
                let l = (pw@.len() - 1) as nat;
                crate::words::lemma_word_pow_adds(l, l);
                crate::words::lemma_word_pow_monotone(n as nat, l + l);
                lemma_mul_inequality(word_pow(l) as int, pv as int, word_pow(l) as int);
                lemma_mul_inequality(word_pow(l) as int, pv as int, pv as int);
                lemma_mul_is_commutative(word_pow(l) as int, pv as int);
            }
            break;
        }
        let mut sq = mul_large(pw, pw);
        crate::gcd_ops::trim_zeros(&mut sq);
        proof {
            crate::words::lemma_words_val_zero_iff(sq@);
        }
        if words_less(target, sq.as_slice()) {
            break;
        }
        proof {
            crate::gcd_ops::lemma_normalized_len_bound(sq@, n as nat);
            lemma_pow2_pos((k - 1) as nat);
            lemma_pow_ge_pow2(b, pk);
            crate::words::lemma_pow2_strictly_increases_or_equal(1, pk);
            lemma_mul_strict_inequality(1, pv as int, pv as int);
        }
        powers.push(UBig::from_vec(sq));
    }
    // descend: divide by base^(2^i) wherever it fits, from the largest power down
    let mut current = UBig::from_words(target);
    let mut est: usize = 0;
    let mut i: usize = powers.len();
    proof {
        reveal(pow);
        lemma_pow_positive(b as int, 0);
    }
    while i > 0
        invariant
            t == words_val(target@),
            b == words_val(base@),
            b >= 2,
            t < pow2(bl_t as nat),
            i <= powers@.len(),
            forall|j: int|
                0 <= j < powers@.len() ==> (#[trigger] powers@[j])@ == pow(b as int, pow2(j as nat)),
            pow(b as int, est as nat) <= t,
            current@ == t as int / pow(b as int, est as nat),
            1 <= current@,
            current@ < pow(b as int, pow2(i as nat)),
        decreases i,
    {
        i = i - 1;
        let p = &powers[i];
        let ghost pi = pow2(i as nat);
        proof {
            lemma_pow2_adds(i as nat, 1);
            lemma_pow_adds(b as int, pi, pi);
            lemma_pow_positive(b as int, pi);
            lemma_pow_positive(b as int, est as nat);
            lemma2_to64();
        }
        if !words_less(current.as_words(), p.as_words()) {
            let ghost e2 = est as nat + pi;
            proof {
                lemma2_to64();
                let pe = pow(b as int, est as nat);
                let pp = pow(b as int, pi);
                let c = current@ as int;
                lemma_div_denominator(t as int, pe, pp);
                lemma_pow_adds(b as int, est as nat, pi);
                lemma_fundamental_div_mod(c, pp);
                lemma_mod_bound(c, pp);
                assert(1 <= c / pp < pp) by (nonlinear_arith)
                    requires
                        c == pp * (c / pp) + c % pp,
                        0 <= c % pp < pp,
                        pp <= c < pp * pp,
                ;
                // b^(est + 2^i) <= t, so est + 2^i is below the bit length of t
                lemma_fundamental_div_mod(t as int, pe * pp);
                lemma_mod_bound(t as int, pe * pp);
                lemma_mul_strictly_positive(pe, pp);
                assert(pe * pp <= t) by (nonlinear_arith)
                    requires
                        t as int == (pe * pp) * (t as int / (pe * pp)) + t as int % (pe * pp),
                        t as int / (pe * pp) >= 1,
                        t as int % (pe * pp) >= 0,
                        pe * pp > 0,
                ;
                lemma_exp_below_bits(b, e2, t, bl_t as nat);
                // 2^i fits in a usize: 2^i <= est + 2^i < bit length
                if i >= usize::BITS {
                    crate::words::lemma_pow2_strictly_increases_or_equal(usize::BITS as nat, i as nat);
                    lemma_pow2_widths();
                    assert(false);
                }
                vstd::bits::lemma_usize_shl_is_mul(1, i);
            }
            current = current.div(p);
            est = est + (1usize << i);
        }
    }
    proof {
        reveal(pow);
        lemma_pow_succ(b as int, est as nat);
        lemma_pow_positive(b as int, est as nat);
        let pe = pow(b as int, est as nat);
        lemma_fundamental_div_mod(t as int, pe);
        lemma_mod_bound(t as int, pe);
        assert(t < pe * b) by (nonlinear_arith)
            requires
                t as int == pe * (t as int / pe) + t as int % pe,
                t as int / pe < b,
                t as int % pe < pe,
                pe > 0,
        ;
        lemma_bit_len_bounds(t);
        lemma_words_val_bound(target@);
    }
    let est_pow = compute_power(base, est, Ghost(n as nat));
    (est, UBig::from_vec(est_pow))
}

/// A double word `hi B + lo` that is `2^k` with `0 < k < 128`: below 64 its high word is zero
/// and its low word is a power of two above one; from 64 on its low word is zero and its high
/// word is a power of two.
proof fn lemma_dword_power_of_two(lo: Word, hi: Word, k: nat)
    requires
        0 < k < 128,
        pow2(k) == hi * word_base() + lo,
    ensures
        k < 64 ==> hi == 0 && lo > 1 && spec_is_power_of_two(lo as nat),
        k >= 64 ==> lo == 0 && hi > 0 && spec_is_power_of_two(hi as nat),
{
    lemma_pow2_widths();
    lemma2_to64();
    if k < 64 {
        lemma_pow2_strictly_increases(k, 64);
        lemma_pow2_strictly_increases(0, k);
        if hi > 0 {
            lemma_mul_inequality(1, hi as int, word_base() as int);
        }
        assert(pow2(k) == lo as nat);
    } else {
        let j = (k - 64) as nat;
        lemma_pow2_adds(64, j);
        lemma_pow2_pos(j);
        lemma2_to64();
        if j < 64 {
            lemma_pow2_strictly_increases(j, 64);
        }
        // 2^k == 2^j B, so the low word is zero and the high word is 2^j
        lemma_mul_is_commutative(pow2(j) as int, word_base() as int);
        lemma_fundamental_div_mod_converse(pow2(k) as int, word_base() as int, hi as int, lo as int);
        lemma_fundamental_div_mod_converse(pow2(k) as int, word_base() as int, pow2(j) as int, 0);
        assert(pow2(j) == hi as nat);
    }
}

/// The exponent `k` of a double word that is `2^k` with `0 < k < 128`, and `None` when the
/// double word is no such power of two.
fn dword_power_of_two_exp(dw: DoubleWord) -> (r: Option<u32>)
    ensures
        r matches Some(k) ==> pow2(k as nat) == dw && 0 < k < 128,
        r is None ==> forall|k: nat| 0 < k < 128 ==> #[trigger] pow2(k) != dw,
{
    let (lo, hi) = split_dword(dw);
    proof {
        assert forall|k: nat| 0 < k < 128 && #[trigger] pow2(k) == dw implies (k < 64 ==> hi == 0
            && lo > 1 && spec_is_power_of_two(lo as nat)) && (k >= 64 ==> lo == 0 && hi > 0
            && spec_is_power_of_two(hi as nat)) by {
            lemma_dword_power_of_two(lo, hi, k);
        }
    }
    if hi == 0 {
        if lo > 1 && word_is_power_of_two(lo) {
            let k = word_log2_exact(lo);
            proof {
                if k == 0 {
                    lemma2_to64();
                }
            }
            Some(k)
        } else {
            None
        }
    } else if lo == 0 && word_is_power_of_two(hi) {
        let k = word_log2_exact(hi);
        proof {
            lemma_pow2_adds(64, k as nat);
            lemma_pow2_widths();
            lemma_mul_is_commutative(hi as int, pow2(64) as int);
        }
        Some(64 + k)
    } else {
        None
    }
}

/// `2^n` as a number, where `n` is below the bit length of a number of `len` words.
fn power_of_two(n: usize, Ghost(len): Ghost<nat>) -> (r: UBig)
    requires
        n < 64 * len,
        len <= spec_max_capacity(),
    ensures
        r@ == pow2(n as nat),
{
    let mut p = UBig::zero();
    proof {
        lemma_pow2_pos(n as nat);
        lemma_basic_div(0, pow2(n as nat) as int);
        lemma_div_multiples_vanish(0, 64);
    }
    p.set_bit(n);
    p
}

/// Floor logarithm, returns (log(target), base^log(target)).
///
/// Panics if the target is 0, or the base is 0 or 1.
pub fn log(target: &UBig, base: &UBig) -> (r: (usize, UBig))
    requires
        target@ > 0,
        base@ >= 2,
    ensures
        is_ilog(target@, base@, r.0 as nat),
        r.1@ == pow(base@ as int, r.0 as nat),
{
    let ghost t = target@;
    let target_words = target.as_words();
    let base_words = base.as_words();
    proof {
        lemma_bit_len_bounds(t);
        lemma_words_val_bound(target_words@);
        crate::primitive::lemma_bit_len_le(t, 64 * target_words@.len());
        lemma_words_val_bound(base_words@);
        lemma_word_pow(1);
        lemma_word_pow(0);
        if base_words@.len() <= 1 {
            lemma_word_pow_monotone(base_words@.len(), 1);
        }
    }
    // shortcuts
    if let Some(dw) = base.as_dword() {
        if let Some(k) = dword_power_of_two_exp(dw) {
            let bits = target.bit_len();
            let exp = (bits - 1) / (k as usize);
            proof {
                lemma_ilog_power_of_two(t, k as nat);
                lemma_div_is_ordered_by_denominator((bits - 1) as int, 1, k as int);
                lemma_div_basics_2((bits - 1) as int);
                lemma_fundamental_div_mod((bits - 1) as int, k as int);
                lemma_mod_bound((bits - 1) as int, k as int);
                let q = ((bits - 1) as int) / (k as int);
                let rr = ((bits - 1) as int) % (k as int);
                assert(q * k <= bits - 1) by (nonlinear_arith)
                    requires
                        bits - 1 == k * q + rr,
                        rr >= 0,
                ;
                lemma_mul_is_commutative(q, k as int);
            }
            let n = exp * (k as usize);
            let p = power_of_two(n, Ghost(target_words@.len() as nat));
            return (exp, p);
        }
    }
    match (target.as_dword(), base.as_dword()) {
        (Some(t_dword), Some(b_dword)) => log_dword(t_dword, b_dword),
        (Some(_), None) => {
            proof {
                reveal(pow);
                lemma_pow_succ(base@ as int, 0);
            }
            (0, UBig::one())
        },
        (None, Some(b_dword)) => match shrink_dword(b_dword) {
            Some(w) => log_word_base(target_words, w),
            None => log_large(target_words, base_words),
        },
        (None, None) => {
            proof {
                reveal(pow);
                lemma_pow_succ(base@ as int, 0);
                lemma_pow_succ(base@ as int, 1);
            }
            if words_less(target_words, base_words) {
                (0, UBig::one())
            } else if words_equal(target_words, base_words) {
                proof {
                    assert(t < t * base@) by (nonlinear_arith)
                        requires
                            t > 0,
                            base@ >= 2,
                    ;
                }
                (1, target.copy())
            } else {
                log_large(target_words, base_words)
            }
        },
    }
}

impl UBig {
    /// Calculate the (truncated) logarithm of the [UBig].
    ///
    /// # Panics
    ///
    /// Panics if the number is 0, or the base is 0 or 1
    pub fn ilog(&self, base: &UBig) -> (r: usize)
        requires
            self@ > 0,
            base@ >= 2,
        ensures
            is_ilog(self@, base@, r as nat),
    {
        log(self, base).0
    }
}

impl IBig {
    /// Calculate the (truncated) logarithm of the magnitude of [IBig].
    ///
    /// # Panics
    ///
    /// Panics if the number is 0, or the base is 0 or 1
    pub fn ilog(&self, base: &UBig) -> (r: usize)
        requires
            self@ != 0,
            base@ >= 2,
        ensures
            is_ilog(spec_abs(self@), base@, r as nat),
    {
        log(self.magnitude(), base).0
    }
}

/// Powers of a base of at least two strictly increase with the exponent.
proof fn lemma_pow_strictly_increases(b: nat, e1: nat, e2: nat)
    requires
        b >= 2,
        e1 < e2,
    ensures
        pow(b as int, e1) < pow(b as int, e2),
    decreases e2 - e1,
{
    lemma_pow_succ(b as int, e1);
    vstd::arithmetic::power::lemma_pow_positive(b as int, e1);
    vstd::arithmetic::mul::lemma_mul_strict_inequality(1, b as int, pow(b as int, e1));
    vstd::arithmetic::mul::lemma_mul_is_commutative(b as int, pow(b as int, e1));
    if e1 + 1 < e2 {
        lemma_pow_strictly_increases(b, e1 + 1, e2);
    }
}

/// The integer logarithm is unique: a number lies between consecutive powers of the base for
/// exactly one exponent, so the contracts of [log] and [UBig::ilog] fix the result.
pub proof fn lemma_ilog_unique(x: nat, b: nat, e1: nat, e2: nat)
    requires
        b >= 2,
        is_ilog(x, b, e1),
        is_ilog(x, b, e2),
    ensures
        e1 == e2,
{
    if e1 < e2 {
        if e1 + 1 < e2 {
            lemma_pow_strictly_increases(b, e1 + 1, e2);
        }
    } else if e2 < e1 {
        if e2 + 1 < e1 {
            lemma_pow_strictly_increases(b, e2 + 1, e1);
        }
    }
}

/// The integer logarithm of a power of the base is its exponent: `ilog_b(b^k) == k`.
pub proof fn lemma_ilog_of_power(b: nat, k: nat, e: nat)
    requires
        b >= 2,
        is_ilog(pow(b as int, k) as nat, b, e),
    ensures
        e == k,
{
    vstd::arithmetic::power::lemma_pow_positive(b as int, k);
    lemma_pow_strictly_increases(b, k, k + 1);
    assert(is_ilog(pow(b as int, k) as nat, b, k));
    lemma_ilog_unique(pow(b as int, k) as nat, b, e, k);
}

} // verus!
