//! Addition and subtraction of word sequences in place.
use vstd::prelude::*;
use vstd::arithmetic::mul::*;
use crate::arch::add::{add_with_carry, sub_with_borrow};
use crate::arch::word::{DoubleWord, Word};
use crate::primitive::{split_dword, word_base};
use crate::shift::lemma_words_val_prefix;
use crate::words::{
    words_val, word_pow, window_val, lemma_word_pow, lemma_words_val_split, lemma_words_val_bound,
    lemma_words_val_update, lemma_words_val_window, lemma_word_pow_adds,
};

verus! {

/// One step of a carry chain of an addition.
proof fn lemma_add_step(vn: int, vo: int, c: int, lo: int, hi: int, w: int, wi: int, b: int, k: int)
    by (nonlinear_arith)
    requires
        vn + c * wi == vo + k,
        lo + hi * b == w + c,
    ensures
        vn + lo * wi + hi * (b * wi) == (vo + w * wi) + k,
{
}

/// One step of a borrow chain of a subtraction.
proof fn lemma_sub_step(vn: int, vo: int, c: int, lo: int, hi: int, w: int, wi: int, b: int, k: int)
    by (nonlinear_arith)
    requires
        vn - c * wi == vo - k,
        lo - hi * b == w - c,
    ensures
        vn + lo * wi - hi * (b * wi) == (vo + w * wi) - k,
{
}

/// The words are unchanged before `start`, and from `i` on.
proof fn lemma_finish_chain(old_s: Seq<Word>, new_s: Seq<Word>, i: int)
    requires
        0 <= i <= old_s.len(),
        new_s.len() == old_s.len(),
        forall|j: int| i <= j < old_s.len() ==> new_s[j] == old_s[j],
    ensures
        words_val(new_s) - words_val(new_s.subrange(0, i)) == words_val(old_s) - words_val(
            old_s.subrange(0, i),
        ),
{
    lemma_words_val_split(new_s, i);
    lemma_words_val_split(old_s, i);
    assert(new_s.subrange(i, new_s.len() as int) =~= old_s.subrange(i, old_s.len() as int));
}

/// Add `rhs B^start` to the words in place; returns whether the sum overflowed.
pub fn add_word_at(words: &mut [Word], start: usize, rhs: Word) -> (overflow: bool)
    requires
        start < old(words)@.len() || (start == old(words)@.len() && rhs <= 1),
    ensures
        final(words)@.len() == old(words)@.len(),
        words_val(final(words)@) + (if overflow { word_pow(old(words)@.len()) } else { 0 }) == words_val(
            old(words)@,
        ) + rhs * word_pow(start as nat),
{
    let ghost orig = words@;
    let n = words.len();
    let mut carry: Word = rhs;
    let mut i: usize = start;
    proof {
        assert(words@.subrange(0, start as int) =~= orig.subrange(0, start as int));
    }
    while i < n && carry != 0
        invariant
            n == words@.len(),
            orig.len() == n,
            start <= i <= n,
            i > start ==> carry <= 1,
            start == n ==> carry <= 1,
            forall|j: int| i <= j < n ==> words@[j] == orig[j],
            words_val(words@.subrange(0, i as int)) + carry * word_pow(i as nat) == words_val(
                orig.subrange(0, i as int),
            ) + rhs * word_pow(start as nat),
        decreases n - i,
    {
        let w = words[i];
        let (lo, hi) = add_with_carry(w, carry, 0);
        let ghost before = words@;
        words[i] = lo;
        proof {
            lemma_words_val_prefix(words@, i as int);
            lemma_words_val_prefix(orig, i as int);
            assert(words@.subrange(0, i as int) =~= before.subrange(0, i as int));
            lemma_word_pow(i as nat);
            lemma_add_step(
                words_val(before.subrange(0, i as int)) as int,
                words_val(orig.subrange(0, i as int)) as int,
                carry as int,
                lo as int,
                hi as int,
                w as int,
                word_pow(i as nat) as int,
                word_base() as int,
                rhs * word_pow(start as nat),
            );
            lemma_mul_is_commutative(word_pow(i as nat) as int, word_base() as int);
        }
        carry = hi;
        i = i + 1;
    }
    proof {
        lemma_finish_chain(orig, words@, i as int);
        if i == n {
            assert(words@.subrange(0, n as int) =~= words@);
            assert(orig.subrange(0, n as int) =~= orig);
            assert(carry <= 1);
        } else {
            assert(carry == 0);
        }
    }
    carry != 0
}

/// Add a word to the (non-empty) words in place; returns whether the sum overflowed.
pub fn add_word_in_place(words: &mut [Word], rhs: Word) -> (overflow: bool)
    requires
        old(words)@.len() > 0,
    ensures
        final(words)@.len() == old(words)@.len(),
        words_val(final(words)@) + (if overflow { word_pow(old(words)@.len()) } else { 0 }) == words_val(
            old(words)@,
        ) + rhs,
{
    proof {
        lemma_word_pow(0);
    }
    add_word_at(words, 0, rhs)
}

/// Add a double word to the words (at least two) in place; returns whether the sum overflowed.
pub fn add_dword_in_place(words: &mut [Word], rhs: DoubleWord) -> (overflow: bool)
    requires
        old(words)@.len() >= 2,
    ensures
        final(words)@.len() == old(words)@.len(),
        words_val(final(words)@) + (if overflow { word_pow(old(words)@.len()) } else { 0 }) == words_val(
            old(words)@,
        ) + rhs,
{
    let ghost orig = words@;
    let (lo, hi) = split_dword(rhs);
    let w0 = words[0];
    let w1 = words[1];
    let (s0, c0) = add_with_carry(w0, lo, 0);
    let (s1, c1) = add_with_carry(w1, hi, c0);
    words[0] = s0;
    words[1] = s1;
    let ghost mid = words@;
    proof {
        lemma_word_pow(0);
        lemma_word_pow(1);
        lemma_word_pow(2);
        crate::shift::lemma_words_val_prefix(orig, 0);
        crate::shift::lemma_words_val_prefix(orig, 1);
        crate::shift::lemma_words_val_prefix(mid, 0);
        crate::shift::lemma_words_val_prefix(mid, 1);
        assert(orig.subrange(0, 0) =~= Seq::<Word>::empty());
        assert(mid.subrange(0, 0) =~= Seq::<Word>::empty());
        assert(words_val(Seq::<Word>::empty()) == 0);
        lemma_finish_chain(orig, mid, 2);
        assert(word_pow(2) == word_base() * word_base());
        assert(words_val(mid) + c1 * word_pow(2) == words_val(orig) + rhs) by (nonlinear_arith)
            requires
                words_val(mid) - (s0 + s1 * word_base()) == words_val(orig) - (w0 + w1 * word_base()),
                s0 + c0 * word_base() == w0 + lo,
                s1 + c1 * word_base() == w1 + hi + c0,
                rhs == hi * word_base() + lo,
                word_pow(2) == word_base() * word_base(),
        ;
    }
    add_word_at(words, 2, c1)
}

/// Subtract `rhs B^start` from the words in place; returns whether the difference borrowed.
pub fn sub_word_at(words: &mut [Word], start: usize, rhs: Word) -> (borrow: bool)
    requires
        start < old(words)@.len() || (start == old(words)@.len() && rhs <= 1),
    ensures
        final(words)@.len() == old(words)@.len(),
        words_val(final(words)@) - (if borrow { word_pow(old(words)@.len()) } else { 0 }) == words_val(
            old(words)@,
        ) - rhs * word_pow(start as nat),
        forall|j: int| 0 <= j < start ==> final(words)@[j] == old(words)@[j],
{
    let ghost orig = words@;
    let n = words.len();
    let mut carry: Word = rhs;
    let mut i: usize = start;
    proof {
        assert(words@.subrange(0, start as int) =~= orig.subrange(0, start as int));
    }
    while i < n && carry != 0
        invariant
            n == words@.len(),
            orig.len() == n,
            start <= i <= n,
            i > start ==> carry <= 1,
            start == n ==> carry <= 1,
            forall|j: int| i <= j < n ==> words@[j] == orig[j],
            forall|j: int| 0 <= j < start ==> words@[j] == orig[j],
            words_val(words@.subrange(0, i as int)) - carry * word_pow(i as nat) == words_val(
                orig.subrange(0, i as int),
            ) - rhs * word_pow(start as nat),
        decreases n - i,
    {
        let w = words[i];
        let (lo, hi) = if i == start {
            sub_with_borrow(w, carry, 0)
        } else {
            sub_with_borrow(w, 0, carry)
        };
        let ghost before = words@;
        words[i] = lo;
        proof {
            lemma_words_val_prefix(words@, i as int);
            lemma_words_val_prefix(orig, i as int);
            assert(words@.subrange(0, i as int) =~= before.subrange(0, i as int));
            lemma_word_pow(i as nat);
            lemma_sub_step(
                words_val(before.subrange(0, i as int)) as int,
                words_val(orig.subrange(0, i as int)) as int,
                carry as int,
                lo as int,
                hi as int,
                w as int,
                word_pow(i as nat) as int,
                word_base() as int,
                rhs * word_pow(start as nat),
            );
            lemma_mul_is_commutative(word_pow(i as nat) as int, word_base() as int);
        }
        carry = hi;
        i = i + 1;
    }
    proof {
        lemma_finish_chain(orig, words@, i as int);
        if i == n {
            assert(words@.subrange(0, n as int) =~= words@);
            assert(orig.subrange(0, n as int) =~= orig);
            assert(carry <= 1);
        } else {
            assert(carry == 0);
        }
    }
    carry != 0
}

/// `lhs -= rhs` in place, where `rhs` is not longer than `lhs`; returns whether it borrowed,
/// which is when `rhs` was the larger number.
pub fn sub_in_place(lhs: &mut [Word], rhs: &[Word]) -> (borrow: bool)
    requires
        old(lhs)@.len() >= rhs@.len(),
    ensures
        final(lhs)@.len() == old(lhs)@.len(),
        words_val(final(lhs)@) - (if borrow { word_pow(old(lhs)@.len()) } else { 0 }) == words_val(
            old(lhs)@,
        ) - words_val(rhs@),
        borrow == (words_val(old(lhs)@) < words_val(rhs@)),
{
    let ghost orig = lhs@;
    let n = lhs.len();
    let m = rhs.len();
    let mut borrow: Word = 0;
    let mut i: usize = 0;
    proof {
        assert(lhs@.subrange(0, 0) =~= Seq::<Word>::empty());
        assert(orig.subrange(0, 0) =~= Seq::<Word>::empty());
        assert(rhs@.subrange(0, 0) =~= Seq::<Word>::empty());
        assert(words_val(Seq::<Word>::empty()) == 0);
        lemma_word_pow(0);
    }
    while i < m
        invariant
            n == lhs@.len(),
            orig.len() == n,
            m == rhs@.len(),
            m <= n,
            i <= m,
            borrow <= 1,
            forall|j: int| i <= j < n ==> lhs@[j] == orig[j],
            words_val(lhs@.subrange(0, i as int)) - borrow * word_pow(i as nat) == words_val(
                orig.subrange(0, i as int),
            ) - words_val(rhs@.subrange(0, i as int)),
        decreases m - i,
    {
        let w = lhs[i];
        let r = rhs[i];
        let (lo, hi) = sub_with_borrow(w, r, borrow);
        let ghost before = lhs@;
        lhs[i] = lo;
        proof {
            lemma_words_val_prefix(lhs@, i as int);
            lemma_words_val_prefix(orig, i as int);
            lemma_words_val_prefix(rhs@, i as int);
            assert(lhs@.subrange(0, i as int) =~= before.subrange(0, i as int));
            lemma_word_pow(i as nat);
            let wi = word_pow(i as nat) as int;
            assert(words_val(lhs@.subrange(0, i + 1)) - hi * word_pow((i + 1) as nat) == words_val(
                orig.subrange(0, i + 1),
            ) - words_val(rhs@.subrange(0, i + 1))) by (nonlinear_arith)
                requires
                    words_val(before.subrange(0, i as int)) - borrow * wi == words_val(
                        orig.subrange(0, i as int),
                    ) - words_val(rhs@.subrange(0, i as int)),
                    lo - hi * word_base() == w - r - borrow,
                    words_val(lhs@.subrange(0, i + 1)) == words_val(before.subrange(0, i as int))
                        + lo * wi,
                    words_val(orig.subrange(0, i + 1)) == words_val(orig.subrange(0, i as int)) + w
                        * wi,
                    words_val(rhs@.subrange(0, i + 1)) == words_val(rhs@.subrange(0, i as int)) + r
                        * wi,
                    word_pow((i + 1) as nat) == word_base() * wi,
            ;
        }
        borrow = hi;
        i = i + 1;
    }
    proof {
        assert(rhs@.subrange(0, m as int) =~= rhs@);
        lemma_words_val_split(lhs@, m as int);
        lemma_words_val_split(orig, m as int);
        assert(lhs@.subrange(m as int, n as int) =~= orig.subrange(m as int, n as int));
    }
    let ghost mid = lhs@;
    let b = sub_word_at(lhs, m, borrow);
    proof {
        lemma_finish_chain(orig, mid, m as int);
        lemma_words_val_bound(lhs@);
        lemma_words_val_bound(orig);
        lemma_word_pow(n as nat);
    }
    b
}

/// One step of a carry chain of an addition of words at an offset.
proof fn lemma_window_add_step(
    wn: int,
    wb: int,
    wo: int,
    ri: int,
    c: int,
    lo: int,
    hi: int,
    w: int,
    r: int,
    ps: int,
    pi: int,
    b: int,
) by (nonlinear_arith)
    requires
        wn + w * (ps * pi) == wb + lo * (ps * pi),
        wb + c * (ps * pi) == wo + ri * ps,
        lo + hi * b == w + r + c,
    ensures
        wn + hi * (ps * (b * pi)) == wo + (ri + r * pi) * ps,
{
}

/// `words[start .. start + rhs.len()] += rhs` in place; returns the carry out of those words.
pub fn add_same_len_at(words: &mut [Word], start: usize, rhs: &[Word]) -> (carry: bool)
    requires
        start + rhs@.len() <= old(words)@.len(),
    ensures
        final(words)@.len() == old(words)@.len(),
        forall|j: int|
            0 <= j < final(words)@.len() && !(start <= j < start + rhs@.len()) ==> final(words)@[j]
                == old(words)@[j],
        window_val(final(words)@, start as int, rhs@.len() as int) + (if carry {
            word_pow(rhs@.len())
        } else {
            0
        }) == window_val(old(words)@, start as int, rhs@.len() as int) + words_val(rhs@),
{
    let ghost orig = words@;
    let n = rhs.len();
    let len = words.len();
    let mut carry: Word = 0;
    let mut i: usize = 0;
    proof {
        assert(rhs@.subrange(0, 0) =~= Seq::<Word>::empty());
        assert(words_val(Seq::<Word>::empty()) == 0);
        lemma_word_pow(0);
    }
    while i < n
        invariant
            n == rhs@.len(),
            len == orig.len(),
            start + n <= orig.len(),
            words@.len() == orig.len(),
            i <= n,
            carry <= 1,
            forall|k: int| 0 <= k < words@.len() && !(start <= k < start + i) ==> words@[k] == orig[k],
            words_val(words@) + carry * word_pow((start + i) as nat) == words_val(orig) + words_val(
                rhs@.subrange(0, i as int),
            ) * word_pow(start as nat),
        decreases n - i,
    {
        let idx = start + i;
        let w = words[idx];
        let r = rhs[i];
        let (lo, hi) = add_with_carry(w, r, carry);
        let ghost before = words@;
        words[idx] = lo;
        proof {
            lemma_words_val_update(before, idx as int, lo);
            assert(words@ == before.update(idx as int, lo));
            lemma_words_val_prefix(rhs@, i as int);
            lemma_word_pow_adds(start as nat, i as nat);
            lemma_word_pow_adds(start as nat, (i + 1) as nat);
            lemma_word_pow(i as nat);
            let ps = word_pow(start as nat) as int;
            let pi = word_pow(i as nat) as int;
            lemma_window_add_step(
                words_val(words@) as int,
                words_val(before) as int,
                words_val(orig) as int,
                words_val(rhs@.subrange(0, i as int)) as int,
                carry as int,
                lo as int,
                hi as int,
                w as int,
                r as int,
                ps,
                pi,
                word_base() as int,
            );
            assert(word_pow((start + i) as nat) == ps * pi);
            assert(word_pow((start + i + 1) as nat) == ps * (word_base() * pi));
        }
        carry = hi;
        i = i + 1;
    }
    proof {
        assert(rhs@.subrange(0, n as int) =~= rhs@);
        lemma_words_val_window(orig, words@, start as int, n as int);
        lemma_word_pow_adds(start as nat, n as nat);
        let ps = word_pow(start as nat) as int;
        lemma_word_pow(start as nat);
        let d: int = window_val(words@, start as int, n as int) + carry * word_pow(n as nat);
        let e: int = (window_val(orig, start as int, n as int) + words_val(rhs@)) as int;
        assert(ps * d == ps * e) by (nonlinear_arith)
            requires
                words_val(words@) - words_val(orig) == ps * (window_val(words@, start as int, n as int)
                    - window_val(orig, start as int, n as int)),
                words_val(words@) + carry * (ps * word_pow(n as nat)) == words_val(orig) + words_val(rhs@) * ps,
                d == window_val(words@, start as int, n as int) + carry * word_pow(n as nat),
                e == window_val(orig, start as int, n as int) + words_val(rhs@),
        ;
        lemma_mul_equality_converse(ps, d, e);
    }
    carry != 0
}

/// `lhs += rhs` in place, where `rhs` is not longer than `lhs`; returns whether the sum
/// overflowed.
pub fn add_in_place(lhs: &mut [Word], rhs: &[Word]) -> (overflow: bool)
    requires
        old(lhs)@.len() >= rhs@.len(),
    ensures
        final(lhs)@.len() == old(lhs)@.len(),
        words_val(final(lhs)@) + (if overflow { word_pow(old(lhs)@.len()) } else { 0 }) == words_val(
            old(lhs)@,
        ) + words_val(rhs@),
{
    let ghost orig = lhs@;
    let m = rhs.len();
    let n = lhs.len();
    let carry = add_same_len_at(lhs, 0, rhs);
    let ghost mid = lhs@;
    proof {
        lemma_words_val_window(orig, mid, 0, m as int);
        lemma_word_pow(0);
        lemma_words_val_split(mid, m as int);
        lemma_words_val_split(orig, m as int);
        assert(mid.subrange(m as int, n as int) =~= orig.subrange(m as int, n as int));
        lemma_word_pow(m as nat);
    }
    if carry {
        if m == n {
            proof {
                assert(mid.subrange(0, m as int) =~= mid);
                assert(orig.subrange(0, m as int) =~= orig);
            }
            true
        } else {
            let overflow = add_word_at(lhs, m, 1);
            proof {
                assert(mid.subrange(0, m as int) == mid.subrange(0, m as int));
            }
            overflow
        }
    } else {
        proof {
            assert(mid.subrange(0, m as int) =~= mid.subrange(0 as int, 0 + m));
        }
        false
    }
}

} // verus!
