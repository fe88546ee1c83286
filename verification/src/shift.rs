//! Bit shifts of word sequences in place.
use vstd::prelude::*;
use vstd::arithmetic::power2::*;
use vstd::arithmetic::div_mod::*;
use vstd::arithmetic::mul::*;
use vstd::bits::*;
use crate::arch::word::{DoubleWord, Word};
use crate::primitive::{split_dword, double_word, word_base, lemma_pow2_widths, lemma_u128_shl_is_mul};
use crate::words::{
    words_val, word_pow, lemma_word_pow, lemma_words_val_push,
    lemma_div_multiples_vanish_fancy_general,
};

verus! {

/// One step of a carry chain running upwards.
pub proof fn lemma_carry_up_step(vn: int, vo: int, c: int, lo: int, hi: int, w: int, p: int, wi: int, b: int)
    by (nonlinear_arith)
    requires
        vn + c * wi == vo * p,
        lo + hi * b == w * p + c,
    ensures
        vn + lo * wi + hi * (b * wi) == (vo + w * wi) * p,
{
}

/// One step of a remainder chain running downwards.
pub proof fn lemma_carry_down_step(vo: int, v: int, rem: int, w: int, b: int, q: int, p: int, rem2: int)
    by (nonlinear_arith)
    requires
        vo == v * p + rem,
        rem * b + w == q * p + rem2,
    ensures
        w + b * vo == (q + b * v) * p + rem2,
{
}

/// A word shifted left by less than a word, plus a smaller carry, fits below `B * 2^s`.
proof fn lemma_shl_word_bound(w: nat, c: nat, p: nat, b: nat)
    by (nonlinear_arith)
    requires
        w < b,
        c < p,
    ensures
        w * p + c < b * p,
{
}

/// The value of a prefix grows by one word: `val(s[..i+1]) == val(s[..i]) + s[i] B^i`.
pub proof fn lemma_words_val_prefix(s: Seq<Word>, i: int)
    requires
        0 <= i < s.len(),
    ensures
        words_val(s.subrange(0, i + 1)) == words_val(s.subrange(0, i)) + s[i] * word_pow(i as nat),
{
    assert(s.subrange(0, i + 1) =~= s.subrange(0, i).push(s[i]));
    lemma_words_val_push(s.subrange(0, i), s[i]);
}

/// The value of a suffix grows by one word: `val(s[i-1..]) == s[i-1] + B val(s[i..])`.
pub proof fn lemma_words_val_suffix(s: Seq<Word>, i: int)
    requires
        0 < i <= s.len(),
    ensures
        words_val(s.subrange(i - 1, s.len() as int)) == s[i - 1] + word_base() * words_val(
            s.subrange(i, s.len() as int),
        ),
{
    let t = s.subrange(i - 1, s.len() as int);
    assert(t.subrange(1, t.len() as int) =~= s.subrange(i, s.len() as int));
}

/// Shift the words left by `shift` bits (less than a word) in place.
///
/// Returns the bits shifted out of the top word.
pub fn shl_in_place(words: &mut [Word], shift: u32) -> (carry: Word)
    requires
        shift < 64,
    ensures
        final(words)@.len() == old(words)@.len(),
        words_val(final(words)@) + carry * word_pow(old(words)@.len()) == words_val(old(words)@)
            * pow2(shift as nat),
        carry < pow2(shift as nat),
{
    let ghost orig = words@;
    let n = words.len();
    let mut carry: Word = 0;
    let mut i: usize = 0;
    proof {
        lemma_pow2_pos(shift as nat);
        lemma_word_pow(0);
        assert(words@.subrange(0, 0) =~= Seq::<Word>::empty());
        assert(orig.subrange(0, 0) =~= Seq::<Word>::empty());
        assert(words_val(Seq::<Word>::empty()) == 0);
        assert(words_val(words@.subrange(0, 0)) == 0);
        assert(words_val(orig.subrange(0, 0)) * pow2(shift as nat) == 0);
    }
    while i < n
        invariant
            n == words@.len(),
            orig.len() == n,
            i <= n,
            shift < 64,
            carry < pow2(shift as nat),
            forall|j: int| i <= j < n ==> words@[j] == orig[j],
            words_val(words@.subrange(0, i as int)) + carry * word_pow(i as nat) == words_val(
                orig.subrange(0, i as int),
            ) * pow2(shift as nat),
        decreases n - i,
    {
        let w = words[i];
        let ghost p = pow2(shift as nat);
        proof {
            lemma_pow2_widths();
            lemma_pow2_strictly_increases(shift as nat, 64);
            lemma_shl_word_bound(w as nat, carry as nat, p, word_base());
            lemma_mul_inequality(w as int, word_base() as int, p as int);
            lemma_pow2_strictly_increases(shift as nat + 64, 128);
            lemma_pow2_adds(64, shift as nat);
            lemma_mul_is_commutative(word_base() as int, p as int);
            lemma_u128_shl_is_mul(w as u128, shift as nat);
        }
        let x: DoubleWord = ((w as DoubleWord) << shift) + carry as DoubleWord;
        let (lo, hi) = split_dword(x);
        let ghost before = words@;
        words[i] = lo;
        proof {
            lemma_words_val_prefix(words@, i as int);
            lemma_words_val_prefix(orig, i as int);
            assert(words@.subrange(0, i as int) =~= before.subrange(0, i as int));
            lemma_word_pow(i as nat);
            lemma_carry_up_step(
                words_val(before.subrange(0, i as int)) as int,
                words_val(orig.subrange(0, i as int)) as int,
                carry as int,
                lo as int,
                hi as int,
                w as int,
                p as int,
                word_pow(i as nat) as int,
                word_base() as int,
            );
            lemma_mul_is_commutative(word_pow(i as nat) as int, word_base() as int);
            // the new carry is below 2^s
            assert(hi * word_base() <= x);
            assert(x < word_base() * p);
            if hi >= p {
                lemma_mul_inequality(p as int, hi as int, word_base() as int);
                lemma_mul_is_commutative(p as int, word_base() as int);
            }
        }
        carry = hi;
        i = i + 1;
    }
    proof {
        assert(words@.subrange(0, n as int) =~= words@);
        assert(orig.subrange(0, n as int) =~= orig);
    }
    carry
}

/// Shift the words right by `shift` bits (less than a word) in place.
///
/// Returns the bits shifted out of the bottom word, placed at the top of the returned word.
pub fn shr_in_place(words: &mut [Word], shift: u32) -> (low_bits: Word)
    requires
        shift < 64,
    ensures
        final(words)@.len() == old(words)@.len(),
        words_val(final(words)@) == words_val(old(words)@) / pow2(shift as nat),
        low_bits == (words_val(old(words)@) % pow2(shift as nat)) * pow2((64 - shift) as nat),
{
    let ghost orig = words@;
    let n = words.len();
    proof {
        lemma_pow2_pos(shift as nat);
    }
    if shift == 0 {
        proof {
            lemma2_to64();
            lemma_div_basics_2(words_val(orig) as int);
            lemma_small_mod(0, 1);
            lemma_fundamental_div_mod(words_val(orig) as int, 1);
            lemma_mod_bound(words_val(orig) as int, 1);
        }
        return 0;
    }
    let p: Word = 1u64 << shift;
    let ghost pc = pow2((64 - shift) as nat);
    proof {
        lemma_u64_pow2_no_overflow(shift as nat);
        lemma_u64_shl_is_mul(1, shift as u64);
        lemma_pow2_widths();
        lemma_pow2_adds(shift as nat, (64 - shift) as nat);
        assert(shift as nat + (64 - shift) as nat == 64);
        lemma_pow2_pos((64 - shift) as nat);
    }
    let mut rem: Word = 0;
    let mut i: usize = n;
    proof {
        assert(words@.subrange(n as int, n as int) =~= Seq::<Word>::empty());
        assert(orig.subrange(n as int, n as int) =~= Seq::<Word>::empty());
        assert(words_val(Seq::<Word>::empty()) == 0);
        assert(words_val(words@.subrange(n as int, n as int)) * p == 0);
    }
    while i > 0
        invariant
            n == words@.len(),
            orig.len() == n,
            i <= n,
            0 < shift < 64,
            p == pow2(shift as nat),
            pc == pow2((64 - shift) as nat),
            p * pc == word_base(),
            p > 0,
            pc > 0,
            rem < p,
            forall|j: int| 0 <= j < i ==> words@[j] == orig[j],
            words_val(orig.subrange(i as int, n as int)) == words_val(
                words@.subrange(i as int, n as int),
            ) * p + rem,
        decreases i,
    {
        let w = words[i - 1];
        let x = double_word(w, rem);
        let q = (x >> shift) as Word;
        let r = w % p;
        proof {
            lemma_u128_shr_is_div(x, shift as u128);
            // x == w + p * (rem * pc)
            assert(x == w + p * (rem * pc)) by {
                lemma_mul_is_associative(p as int, rem as int, pc as int);
                lemma_mul_is_commutative(p as int, rem as int);
                lemma_mul_is_associative(rem as int, p as int, pc as int);
            }
            lemma_div_multiples_vanish_fancy_general(w as int, rem * pc, p as int);
            lemma_fundamental_div_mod(w as int, p as int);
            // the quotient fits in a word
            assert((w as int) / (p as int) < pc) by {
                lemma_multiply_divide_lt(w as int, p as int, pc as int);
            }
            assert(rem * pc + pc <= p * pc) by {
                lemma_mul_inequality(rem as int + 1, p as int, pc as int);
                lemma_mul_is_distributive_add_other_way(pc as int, rem as int, 1);
            }
        }
        let ghost before = words@;
        words[i - 1] = q;
        proof {
            assert(q as int == (x as int) / (p as int));
            assert(x == q * p + r) by {
                lemma_mul_is_distributive_add_other_way(p as int, rem * pc, (w / p) as int);
                lemma_mul_is_commutative(p as int, rem * pc);
                lemma_mul_is_commutative(p as int, (w / p) as int);
            }
            lemma_words_val_suffix(orig, i as int);
            lemma_words_val_suffix(words@, i as int);
            assert(words@.subrange(i as int, n as int) =~= before.subrange(i as int, n as int));
            lemma_carry_down_step(
                words_val(orig.subrange(i as int, n as int)) as int,
                words_val(before.subrange(i as int, n as int)) as int,
                rem as int,
                w as int,
                word_base() as int,
                q as int,
                p as int,
                r as int,
            );
        }
        rem = r;
        i = i - 1;
    }
    proof {
        assert(words@.subrange(0, n as int) =~= words@);
        assert(orig.subrange(0, n as int) =~= orig);
        lemma_fundamental_div_mod_converse(
            words_val(orig) as int,
            p as int,
            words_val(words@) as int,
            rem as int,
        );
        lemma_mul_is_commutative(words_val(words@) as int, p as int);
        assert(rem * pc < p * pc) by {
            lemma_mul_strict_inequality(rem as int, p as int, pc as int);
        }
        lemma_u64_shl_is_mul(rem, (64 - shift) as u64);
    }
    rem << ((64 - shift) as u64)
}

/// Shift the words right by one whole word in place; the top word becomes zero.
///
/// Returns the word shifted out.
pub fn shr_in_place_one_word(words: &mut [Word]) -> (low: Word)
    requires
        old(words)@.len() > 0,
    ensures
        final(words)@.len() == old(words)@.len(),
        low == old(words)@[0],
        words_val(old(words)@) == low + word_base() * words_val(final(words)@),
{
    let ghost orig = words@;
    let n = words.len();
    let low = words[0];
    let mut i: usize = 0;
    while i + 1 < n
        invariant
            n == words@.len(),
            orig.len() == n,
            n > 0,
            i + 1 <= n,
            forall|j: int| 0 <= j < i ==> words@[j] == orig[j + 1],
            forall|j: int| i <= j < n ==> words@[j] == orig[j],
        decreases n - i,
    {
        let w = words[i + 1];
        words[i] = w;
        i = i + 1;
    }
    words[n - 1] = 0;
    proof {
        let rest = orig.subrange(1, n as int);
        assert(words@ =~= rest.push(0u64));
        lemma_words_val_push(rest, 0u64);
        assert(orig.subrange(1, orig.len() as int) =~= rest);
    }
    low
}

} // verus!
