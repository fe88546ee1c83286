//! Multiplication of word sequences by a word or a double word in place.
use vstd::prelude::*;
use vstd::arithmetic::mul::*;
use crate::arch::word::{DoubleWord, Word};
use crate::math::{mul_add_carry, mul_add_2carry, mul_add_carry_dword};
use crate::primitive::{split_dword, double_word, extend_word, word_base, lemma_pow2_widths};
use crate::shift::{lemma_words_val_prefix, lemma_carry_up_step};
use crate::words::{
    words_val, word_pow, window_val, lemma_word_pow, lemma_words_val_bound, lemma_word_pow_adds,
    lemma_words_val_update, lemma_words_val_window,
};
use crate::arch::add::sub_with_borrow;

verus! {

/// `words *= rhs` in place; returns the carry word.
pub fn mul_word_in_place(words: &mut [Word], rhs: Word) -> (carry: Word)
    ensures
        final(words)@.len() == old(words)@.len(),
        words_val(final(words)@) + carry * word_pow(old(words)@.len()) == words_val(old(words)@)
            * rhs,
{
    let ghost orig = words@;
    let n = words.len();
    let mut carry: Word = 0;
    let mut i: usize = 0;
    proof {
        assert(words@.subrange(0, 0) =~= Seq::<Word>::empty());
        assert(orig.subrange(0, 0) =~= Seq::<Word>::empty());
        assert(words_val(Seq::<Word>::empty()) == 0);
        lemma_word_pow(0);
    }
    while i < n
        invariant
            n == words@.len(),
            orig.len() == n,
            i <= n,
            forall|j: int| i <= j < n ==> words@[j] == orig[j],
            words_val(words@.subrange(0, i as int)) + carry * word_pow(i as nat) == words_val(
                orig.subrange(0, i as int),
            ) * rhs,
        decreases n - i,
    {
        let w = words[i];
        let (lo, hi) = mul_add_carry(w, rhs, carry);
        let ghost before = words@;
        words[i] = lo;
        proof {
            lemma_words_val_prefix(words@, i as int);
            lemma_words_val_prefix(orig, i as int);
            assert(words@.subrange(0, i as int) =~= before.subrange(0, i as int));
            lemma_word_pow(i as nat);
            lemma_carry_up_step(
                words_val(before.subrange(0, i as int)) as int,
                words_val(orig.subrange(0, i as int)) as int,
                carry as int,
                lo as int,
                hi as int,
                w as int,
                rhs as int,
                word_pow(i as nat) as int,
                word_base() as int,
            );
            lemma_mul_is_commutative(word_pow(i as nat) as int, word_base() as int);
        }
        carry = hi;
        i = i + 1;
    }
    proof {
        assert(words@.subrange(0, n as int) =~= words@);
        assert(orig.subrange(0, n as int) =~= orig);
    }
    carry
}

/// `words *= rhs` in place; returns the carry double word.
pub fn mul_dword_in_place(words: &mut [Word], rhs: DoubleWord) -> (carry: DoubleWord)
    ensures
        final(words)@.len() == old(words)@.len(),
        words_val(final(words)@) + carry * word_pow(old(words)@.len()) == words_val(old(words)@)
            * rhs,
{
    let ghost orig = words@;
    let n = words.len();
    let mut carry: DoubleWord = 0;
    let mut i: usize = 0;
    proof {
        assert(words@.subrange(0, 0) =~= Seq::<Word>::empty());
        assert(orig.subrange(0, 0) =~= Seq::<Word>::empty());
        assert(words_val(Seq::<Word>::empty()) == 0);
        lemma_word_pow(0);
    }
    while i < n
        invariant
            n == words@.len(),
            orig.len() == n,
            i <= n,
            rhs == 0 ==> carry == 0,
            rhs > 0 ==> carry < rhs,
            forall|j: int| i <= j < n ==> words@[j] == orig[j],
            words_val(words@.subrange(0, i as int)) + carry * word_pow(i as nat) == words_val(
                orig.subrange(0, i as int),
            ) * rhs,
        decreases n - i,
    {
        let w = words[i];
        let (lo, hi) = mul_add_carry_dword(extend_word(w), rhs, carry);
        let (new_word, c_lo) = split_dword(lo);
        proof {
            lemma_pow2_widths();
            // w rhs + carry < B rhs <= B 2^128, so hi < B
            assert(w * rhs + carry < word_base() * (word_base() * word_base())) by (nonlinear_arith)
                requires
                    w < word_base(),
                    rhs < word_base() * word_base(),
                    rhs == 0 ==> carry == 0,
                    rhs > 0 ==> carry < rhs,
            ;
            assert(hi < word_base()) by (nonlinear_arith)
                requires
                    lo + hi * (word_base() * word_base()) == w * rhs + carry,
                    w * rhs + carry < word_base() * (word_base() * word_base()),
                    lo >= 0,
                    word_base() > 0,
            ;
        }
        let new_carry = double_word(c_lo, hi as Word);
        let ghost before = words@;
        words[i] = new_word;
        proof {
            assert(new_word + new_carry * word_base() == w * rhs + carry) by (nonlinear_arith)
                requires
                    lo + hi * (word_base() * word_base()) == w * rhs + carry,
                    lo == c_lo * word_base() + new_word,
                    new_carry == hi * word_base() + c_lo,
            ;
            assert(rhs > 0 ==> new_carry < rhs) by (nonlinear_arith)
                requires
                    new_word + new_carry * word_base() == w * rhs + carry,
                    w < word_base(),
                    rhs > 0 ==> carry < rhs,
                    new_word >= 0,
            ;
            assert(rhs == 0 ==> new_carry == 0) by (nonlinear_arith)
                requires
                    new_word + new_carry * word_base() == w * rhs + carry,
                    rhs == 0 ==> carry == 0,
                    new_word >= 0,
                    new_carry >= 0,
            ;
            lemma_words_val_prefix(words@, i as int);
            lemma_words_val_prefix(orig, i as int);
            assert(words@.subrange(0, i as int) =~= before.subrange(0, i as int));
            lemma_word_pow(i as nat);
            lemma_carry_up_step(
                words_val(before.subrange(0, i as int)) as int,
                words_val(orig.subrange(0, i as int)) as int,
                carry as int,
                new_word as int,
                new_carry as int,
                w as int,
                rhs as int,
                word_pow(i as nat) as int,
                word_base() as int,
            );
            lemma_mul_is_commutative(word_pow(i as nat) as int, word_base() as int);
        }
        carry = new_carry;
        i = i + 1;
    }
    proof {
        assert(words@.subrange(0, n as int) =~= words@);
        assert(orig.subrange(0, n as int) =~= orig);
    }
    carry
}

/// One step of a multiply-accumulate chain.
proof fn lemma_add_mul_step(
    vc: int,
    vo: int,
    c: int,
    lo: int,
    hi: int,
    w: int,
    rj: int,
    old_word: int,
    vr: int,
    bs: int,
    bj: int,
    b: int,
)
    requires
        vc + c * (bs * bj) == vo + w * vr * bs,
        lo + hi * b == w * rj + old_word + c,
    ensures
        (vc - old_word * (bs * bj) + lo * (bs * bj)) + hi * (bs * (bj * b)) == vo + w * (vr + rj
            * bj) * bs,
{
    let p = bs * bj;
    assert(hi * (bs * (bj * b)) == (hi * b) * p) by {
        lemma_mul_is_associative(bs, bj, b);
        lemma_mul_is_commutative(hi, b);
        lemma_mul_is_associative(b, hi, p);
        lemma_mul_is_commutative(b, hi);
        lemma_mul_is_associative(hi, b, p);
        lemma_mul_is_associative(hi, p, b);
        lemma_mul_is_commutative(p, b);
    }
    assert(lo * p + (hi * b) * p - old_word * p == (w * rj + c) * p) by {
        lemma_mul_is_distributive_add_other_way(p, lo, hi * b);
        lemma_mul_is_distributive_sub_other_way(p, lo + hi * b, old_word);
    }
    assert((w * rj + c) * p == w * rj * p + c * p) by {
        lemma_mul_is_distributive_add_other_way(p, w * rj, c);
    }
    assert(w * (vr + rj * bj) * bs == w * vr * bs + w * rj * p) by (nonlinear_arith)
        requires
            p == bs * bj,
    ;
}

/// `words += w * rhs * B^start` on the words `start .. start + rhs.len()`; returns the carry
/// that belongs at `start + rhs.len()`.
pub fn add_mul_word_at(words: &mut [Word], start: usize, w: Word, rhs: &[Word]) -> (carry: Word)
    requires
        start + rhs@.len() <= old(words)@.len(),
    ensures
        final(words)@.len() == old(words)@.len(),
        forall|j: int|
            0 <= j < final(words)@.len() && !(start <= j < start + rhs@.len()) ==> final(words)@[j]
                == old(words)@[j],
        words_val(final(words)@) + carry * word_pow((start + rhs@.len()) as nat) == words_val(
            old(words)@,
        ) + w * words_val(rhs@) * word_pow(start as nat),
{
    let ghost orig = words@;
    let m = rhs.len();
    let n = words.len();
    let mut carry: Word = 0;
    let mut j: usize = 0;
    proof {
        assert(rhs@.subrange(0, 0) =~= Seq::<Word>::empty());
        assert(words_val(Seq::<Word>::empty()) == 0);
        lemma_word_pow(0);
        lemma_word_pow_adds(start as nat, 0);
    }
    while j < m
        invariant
            m == rhs@.len(),
            n == words@.len(),
            start + m <= n,
            words@.len() == orig.len(),
            j <= m,
            forall|k: int| 0 <= k < words@.len() && !(start <= k < start + j) ==> words@[k] == orig[k],
            words_val(words@) + carry * word_pow((start + j) as nat) == words_val(orig) + w
                * words_val(rhs@.subrange(0, j as int)) * word_pow(start as nat),
        decreases m - j,
    {
        let idx = start + j;
        let old_word = words[idx];
        let (lo, hi) = mul_add_2carry(w, rhs[j], old_word, carry);
        let ghost before = words@;
        words[idx] = lo;
        proof {
            lemma_words_val_update(before, idx as int, lo);
            assert(words@ == before.update(idx as int, lo));
            lemma_words_val_prefix(rhs@, j as int);
            lemma_word_pow_adds(start as nat, j as nat);
            lemma_word_pow_adds(start as nat, (j + 1) as nat);
            lemma_word_pow(j as nat);
            assert(word_pow((j + 1) as nat) == word_pow(j as nat) * word_base()) by {
                lemma_mul_is_commutative(word_base() as int, word_pow(j as nat) as int);
            }
            lemma_add_mul_step(
                words_val(before) as int,
                words_val(orig) as int,
                carry as int,
                lo as int,
                hi as int,
                w as int,
                rhs@[j as int] as int,
                old_word as int,
                words_val(rhs@.subrange(0, j as int)) as int,
                word_pow(start as nat) as int,
                word_pow(j as nat) as int,
                word_base() as int,
            );
            assert(idx == start + j);
        }
        carry = hi;
        j = j + 1;
    }
    proof {
        assert(rhs@.subrange(0, m as int) =~= rhs@);
    }
    carry
}

/// The product of two numbers given by their words, with `lhs.len() + rhs.len()` words.
pub fn mul_large(lhs: &[Word], rhs: &[Word]) -> (r: Vec<Word>)
    requires
        lhs@.len() + rhs@.len() <= usize::MAX,
    ensures
        r@.len() == lhs@.len() + rhs@.len(),
        words_val(r@) == words_val(lhs@) * words_val(rhs@),
{
    let n = lhs.len();
    let m = rhs.len();
    let total = n + m;
    let mut acc: Vec<Word> = Vec::new();
    let mut k: usize = 0;
    while k < total
        invariant
            total == n + m,
            k <= n + m,
            acc@ == Seq::new(k as nat, |j: int| 0u64),
        decreases n + m - k,
    {
        acc.push(0);
        k = k + 1;
        proof {
            assert(acc@ =~= Seq::new(k as nat, |j: int| 0u64));
        }
    }
    proof {
        crate::words::lemma_words_val_zeros((n + m) as nat);
        assert(lhs@.subrange(0, 0) =~= Seq::<Word>::empty());
        assert(words_val(Seq::<Word>::empty()) == 0);
    }
    let mut i: usize = 0;
    while i < n
        invariant
            n == lhs@.len(),
            m == rhs@.len(),
            total == n + m,
            i <= n,
            acc@.len() == n + m,
            forall|j: int| i + m <= j < n + m ==> acc@[j] == 0,
            words_val(acc@) == words_val(lhs@.subrange(0, i as int)) * words_val(rhs@),
        decreases n - i,
    {
        let ghost before = acc@;
        let carry = add_mul_word_at(acc.as_mut_slice(), i, lhs[i], rhs);
        let ghost mid = acc@;
        proof {
            assert(mid[(i + m) as int] == 0);
        }
        acc.set(i + m, carry);
        proof {
            lemma_words_val_update(mid, (i + m) as int, carry);
            lemma_words_val_prefix(lhs@, i as int);
            let vr = words_val(rhs@) as int;
            let bi = word_pow(i as nat) as int;
            let vlo = words_val(lhs@.subrange(0, i as int)) as int;
            let li = lhs@[i as int] as int;
            assert(0 * word_pow((i + m) as nat) == 0);
            assert(words_val(acc@) == words_val(before) + li * vr * bi);
            assert(li * vr * bi == (li * bi) * vr) by {
                lemma_mul_is_associative(li, vr, bi);
                lemma_mul_is_commutative(vr, bi);
                lemma_mul_is_associative(li, bi, vr);
            }
            lemma_mul_is_distributive_add_other_way(vr, vlo, li * bi);
        }
        i = i + 1;
    }
    proof {
        assert(lhs@.subrange(0, n as int) =~= lhs@);
    }
    acc
}

/// One step of a borrow chain of a subtraction of a multiple at an offset, where `P` is the
/// weight of the word and `k` the new borrow.
proof fn lemma_sub_mul_step(wn: int, wb: int, wo: int, x: int, c: int, d: int, w: int, qr: int, k: int, p: int, b: int)
    by (nonlinear_arith)
    requires
        wn + w * p == wb + d * p,
        wb - c * p == wo - x,
        d - k * b == w - qr - c,
    ensures
        wn - k * (b * p) == wo - x - qr * p,
{
}

/// The carry of a multiply-subtract step stays below the radix.
proof fn lemma_sub_mul_carry(q: int, r: int, c: int, lo: int, hi: int, d: int, bo: int, w: int, b: int)
    requires
        b == 0x1_0000_0000_0000_0000int,
        0 <= q < b,
        0 <= r < b,
        0 <= c < b,
        0 <= lo < b,
        0 <= hi < b,
        0 <= d < b,
        0 <= w < b,
        0 <= bo <= 1,
        lo + hi * b == q * r + c,
        d - bo * b == w - lo,
    ensures
        hi + bo < b,
{
    lemma_mul_upper_bound(q, b - 1, r, b - 1);
    assert((b - 1) * (b - 1) + (b - 1) == (b - 1) * b) by (nonlinear_arith)
        requires b == 0x1_0000_0000_0000_0000int;
    if hi == b - 1 {
        assert(lo + (b - 1) * b <= (b - 1) * b);
    }
}

/// `words[start .. start + rhs.len()] -= q * rhs` in place; returns the borrow out of those
/// words, which is below the radix.
pub fn sub_mul_word_same_len_at(words: &mut [Word], start: usize, q: Word, rhs: &[Word]) -> (borrow: Word)
    requires
        start + rhs@.len() <= old(words)@.len(),
    ensures
        final(words)@.len() == old(words)@.len(),
        forall|j: int|
            0 <= j < final(words)@.len() && !(start <= j < start + rhs@.len()) ==> final(words)@[j]
                == old(words)@[j],
        window_val(final(words)@, start as int, rhs@.len() as int) - borrow * word_pow(rhs@.len())
            == window_val(old(words)@, start as int, rhs@.len() as int) - q * words_val(rhs@),
{
    let ghost orig = words@;
    let n = rhs.len();
    let len = words.len();
    let mut carry: Word = 0;
    let mut i: usize = 0;
    proof {
        assert(rhs@.subrange(0, 0) =~= Seq::<Word>::empty());
        assert(words_val(Seq::<Word>::empty()) == 0);
        lemma_word_pow(0);
        lemma_mul_basics(q as int);
    }
    while i < n
        invariant
            n == rhs@.len(),
            len == orig.len(),
            start + n <= orig.len(),
            words@.len() == orig.len(),
            i <= n,
            forall|k: int| 0 <= k < words@.len() && !(start <= k < start + i) ==> words@[k] == orig[k],
            words_val(words@) - carry * word_pow((start + i) as nat) == words_val(orig) - q * words_val(
                rhs@.subrange(0, i as int),
            ) * word_pow(start as nat),
        decreases n - i,
    {
        let idx = start + i;
        let w = words[idx];
        let r = rhs[i];
        let (lo, hi) = mul_add_carry(q, r, carry);
        let (d, bo) = sub_with_borrow(w, lo, 0);
        let ghost before = words@;
        words[idx] = d;
        proof {
            lemma_words_val_update(before, idx as int, d);
            assert(words@ == before.update(idx as int, d));
            lemma_words_val_prefix(rhs@, i as int);
            lemma_word_pow_adds(start as nat, i as nat);
            lemma_word_pow_adds(start as nat, (i + 1) as nat);
            lemma_word_pow(i as nat);
            let ps = word_pow(start as nat) as int;
            let pi = word_pow(i as nat) as int;
            let p = ps * pi;
            assert(bo * word_base() + hi * word_base() == (hi + bo) * word_base());
            lemma_sub_mul_step(
                words_val(words@) as int,
                words_val(before) as int,
                words_val(orig) as int,
                q * words_val(rhs@.subrange(0, i as int)) * ps,
                carry as int,
                d as int,
                w as int,
                q * r,
                (hi + bo) as int,
                p,
                word_base() as int,
            );
            assert(q * (words_val(rhs@.subrange(0, i as int)) + r * pi) * ps == q * words_val(
                rhs@.subrange(0, i as int),
            ) * ps + (q * r) * p) by (nonlinear_arith)
                requires
                    p == ps * pi,
            ;
            assert(ps * (word_base() * pi) == word_base() * p) by (nonlinear_arith)
                requires
                    p == ps * pi,
            ;
            lemma_pow2_widths();
            lemma_sub_mul_carry(q as int, r as int, carry as int, lo as int, hi as int, d as int, bo as int, w as int, word_base() as int);
            assert(word_pow((start + i) as nat) == ps * pi);
            assert(word_pow((start + i + 1) as nat) == ps * (word_base() * pi));
        }
        carry = hi + bo;
        i = i + 1;
    }
    proof {
        assert(rhs@.subrange(0, n as int) =~= rhs@);
        lemma_words_val_window(orig, words@, start as int, n as int);
        lemma_word_pow_adds(start as nat, n as nat);
        let ps = word_pow(start as nat) as int;
        lemma_word_pow(start as nat);
        let d: int = window_val(words@, start as int, n as int) - carry * word_pow(n as nat);
        let e: int = window_val(orig, start as int, n as int) - q * words_val(rhs@);
        assert(ps * d == ps * e) by (nonlinear_arith)
            requires
                words_val(words@) - words_val(orig) == ps * (window_val(words@, start as int, n as int)
                    - window_val(orig, start as int, n as int)),
                words_val(words@) - carry * (ps * word_pow(n as nat)) == words_val(orig) - q * words_val(rhs@) * ps,
                d == window_val(words@, start as int, n as int) - carry * word_pow(n as nat),
                e == window_val(orig, start as int, n as int) - q * words_val(rhs@),
        ;
        lemma_mul_equality_converse(ps, d, e);
    }
    carry
}

} // verus!
