//! Schoolbook division of word sequences (Knuth, The Art of Computer Programming, 4.3.1 D).
use vstd::prelude::*;
use vstd::arithmetic::mul::*;
use crate::add::add_same_len_at;
use crate::arch::word::Word;
use crate::div::FastDivideNormalized2;
use crate::mul::sub_mul_word_same_len_at;
use crate::primitive::{double_word, word_base, lemma_pow2_widths};
use crate::shift::lemma_words_val_suffix;
use crate::words::{
    words_val, word_pow, window_val, lemma_word_pow, lemma_words_val_split, lemma_words_val_bound,
    lemma_words_val_window, lemma_word_pow_adds, lemma_window_split, lemma_window_same,
};

verus! {

/// A divisor of at least two words whose top bit is set, and the value of its top two words,
/// by which the quotient words are estimated.
pub open spec fn is_prepared_divisor(rhs: Seq<Word>, top: nat) -> bool {
    &&& rhs.len() >= 2
    &&& rhs.last() >= 0x8000_0000_0000_0000u64
    &&& top == rhs[rhs.len() - 1] * word_base() + rhs[rhs.len() - 2]
}

/// The estimate of a quotient word from the top three words of the dividend by the top two
/// words of the normalized divisor is never too small, and too large by at most one.
proof fn lemma_estimate_3by2(
    w: int,
    b: int,
    bk: int,
    d: int,
    b_lo: int,
    top3: int,
    w_lo: int,
    q: int,
    r: int,
    base: int,
)
    requires
        base == 0x1_0000_0000_0000_0000int,
        bk > 0,
        b == d * bk + b_lo,
        0 <= b_lo < bk,
        w == top3 * bk + w_lo,
        0 <= w_lo < bk,
        d >= base,
        0 <= top3 < d * base,
        q * d + r == top3,
        0 <= r < d,
        q >= 0,
    ensures
        q < base,
        w < (q + 1) * b,
        q * b <= w + b,
{
    if q >= base {
        lemma_mul_inequality(base, q, d);
        lemma_mul_is_commutative(base, d);
    }
    // top3 < (q + 1) d, so w < (top3 + 1) bk <= (q + 1) d bk <= (q + 1) b
    lemma_mul_is_distributive_add_other_way(d, q, 1);
    lemma_mul_is_distributive_add_other_way(bk, top3, 1);
    lemma_mul_inequality(top3 + 1, (q + 1) * d, bk);
    lemma_mul_is_associative(q + 1, d, bk);
    lemma_mul_nonnegative(q + 1, b_lo);
    lemma_mul_is_distributive_add(q + 1, d * bk, b_lo);
    lemma_mul_is_commutative(top3, bk);
    // (q - 1) b <= w
    if q >= 1 {
        lemma_mul_is_distributive_add_other_way(d, q - 1, 1);
        lemma_mul_inequality((q - 1) * d, top3 - d, bk);
        lemma_mul_is_distributive_sub_other_way(bk, top3, d);
        lemma_mul_upper_bound(q - 1, d, b_lo, bk);
        lemma_mul_is_associative(q - 1, d, bk);
        lemma_mul_is_distributive_add(q - 1, d * bk, b_lo);
        lemma_mul_is_distributive_add_other_way(b, q - 1, 1);
    } else {
        lemma_mul_nonnegative(top3, bk);
        lemma_mul_basics(b);
    }
}

/// With the top word of the dividend equal to that of the normalized divisor, the largest word
/// is too large as a quotient word by at most one.
proof fn lemma_estimate_max(w: int, b: int, bn1: int, t: int, low: int, top: int, base: int)
    requires
        base == 0x1_0000_0000_0000_0000int,
        bn1 > 0,
        b == t * bn1 + low,
        0 <= low < bn1,
        0x8000_0000_0000_0000int <= t < base,
        top >= t,
        w >= top * (base * bn1),
    ensures
        (base - 1) * b <= w + b,
{
    // b < (t + 1) bn1 and (base - 2)(t + 1) <= base t
    lemma_mul_is_distributive_add_other_way(bn1, t, 1);
    lemma_mul_inequality(b, (t + 1) * bn1, base - 2);
    lemma_mul_is_commutative(b, base - 2);
    lemma_mul_is_associative(base - 2, t + 1, bn1);
    assert((base - 2) * (t + 1) <= base * t) by (nonlinear_arith)
        requires
            base == 0x1_0000_0000_0000_0000int,
            0x8000_0000_0000_0000int <= t,
    ;
    lemma_mul_inequality((base - 2) * (t + 1), base * t, bn1);
    lemma_mul_inequality(t, top, base * bn1);
    lemma_mul_is_associative(base, t, bn1);
    lemma_mul_is_commutative(base, t);
    lemma_mul_is_associative(t, base, bn1);
    lemma_mul_is_distributive_add_other_way(b, base - 2, 1);
}

/// Subtracting `q` times the divisor from the window leaves it in range exactly when the
/// estimate was right; otherwise the window went below zero by less than the divisor.
proof fn lemma_correction(w: int, bn: int, b: int, q: int, rp: int, borrow: int, top: int)
    requires
        bn > b > 0,
        0 <= rp < bn,
        rp - borrow * bn == w - top * bn - q * b,
        q * b <= w + b,
        w < q * b + b,
        w >= 0,
        top >= 0,
        borrow >= 0,
        q >= 0,
    ensures
        borrow <= top ==> borrow == top && rp == w - q * b && rp < b,
        borrow > top ==> borrow == top + 1 && q >= 1 && rp - bn == w - q * b,
{
    let k = top - borrow;
    assert(rp + k * bn == w - q * b) by {
        lemma_mul_is_distributive_sub_other_way(bn, top, borrow);
    }
    if k >= 1 {
        lemma_mul_inequality(1, k, bn);
    } else if k <= -2 {
        lemma_mul_inequality(k, -2, bn);
    } else if k == -1 {
        assert(k * bn == -bn) by (nonlinear_arith)
            requires
                k == -1,
        ;
        if q == 0 {
            lemma_mul_basics(b);
        }
    } else {
        lemma_mul_basics(bn);
    }
}

/// After adding the divisor back, the window is the remainder and the addition carried.
proof fn lemma_correction_add(e: int, bn: int, b: int, rp: int, rpp: int, c: int)
    requires
        rp - bn == e,
        -b <= e < 0,
        rpp + c * bn == rp + b,
        0 <= rpp < bn,
        c == 0 || c == 1,
        b < bn,
    ensures
        rpp == e + b,
        rpp < b,
{
}

/// Divide the `n + 1` words `lhs_top` and `lhs[end - n .. end]` by the `n`-word divisor `rhs`,
/// whose top two words `fast_div_rhs_top` is prepared for, and whose value is above the top `n`
/// of those words. The remainder replaces `lhs[end - n .. end]`; the quotient word is returned.
pub(crate) fn div_rem_highest_word_at(
    lhs: &mut [Word],
    end: usize,
    lhs_top: Word,
    rhs: &[Word],
    fast_div_rhs_top: &FastDivideNormalized2,
) -> (q: Word)
    requires
        is_prepared_divisor(rhs@, fast_div_rhs_top.spec_divisor()),
        rhs@.len() <= end <= old(lhs)@.len(),
        window_val(old(lhs)@, end - rhs@.len() + 1, rhs@.len() - 1) + lhs_top * word_pow(
            (rhs@.len() - 1) as nat,
        ) < words_val(rhs@),
    ensures
        final(lhs)@.len() == old(lhs)@.len(),
        forall|j: int|
            0 <= j < old(lhs)@.len() && !(end - rhs@.len() <= j < end) ==> final(lhs)@[j] == old(
                lhs,
            )@[j],
        window_val(old(lhs)@, end - rhs@.len(), rhs@.len() as int) + lhs_top * word_pow(
            rhs@.len(),
        ) == q * words_val(rhs@) + window_val(final(lhs)@, end - rhs@.len(), rhs@.len() as int),
        window_val(final(lhs)@, end - rhs@.len(), rhs@.len() as int) < words_val(rhs@),
{
    let n = rhs.len();
    let start = end - n;
    let ghost orig = lhs@;
    let ghost win = orig.subrange(start as int, end as int);
    let ghost big_b = words_val(rhs@) as int;
    let ghost d = fast_div_rhs_top.spec_divisor() as int;
    let ghost base = word_base() as int;
    let ghost bk = word_pow((n - 2) as nat) as int;
    let ghost bn1 = word_pow((n - 1) as nat) as int;
    let ghost bn = word_pow(n as nat) as int;
    let ghost w = window_val(orig, start as int, n as int) + lhs_top * bn;
    let rhs_top = rhs[n - 1];
    let lhs1 = lhs[end - 1];
    let lhs2 = lhs[end - 2];
    let ghost top3 = lhs2 + lhs1 * base + lhs_top * (base * base);
    let ghost w_lo = words_val(win.subrange(0, n - 2)) as int;
    proof {
        lemma_pow2_widths();
        lemma_word_pow((n - 2) as nat);
        lemma_word_pow((n - 1) as nat);
        lemma_word_pow(n as nat);
        lemma_words_val_bound(rhs@);
        lemma_words_val_bound(win.subrange(0, n - 2));
        // the window splits into its low words and its top two words
        lemma_words_val_split(win, n - 2);
        lemma_words_val_suffix(win, n as int);
        lemma_words_val_suffix(win, n - 1);
        assert(win.subrange(n as int, n as int) =~= Seq::<Word>::empty());
        assert(words_val(Seq::<Word>::empty()) == 0);
        assert(win[n - 1] == lhs1 && win[n - 2] == lhs2);
        // so does the divisor
        lemma_words_val_split(rhs@, n - 2);
        lemma_words_val_suffix(rhs@, n as int);
        lemma_words_val_suffix(rhs@, n - 1);
        assert(rhs@.subrange(n as int, n as int) =~= Seq::<Word>::empty());
        lemma_words_val_split(rhs@, n - 1);
        lemma_words_val_bound(rhs@.subrange(0, n - 1));
        lemma_words_val_bound(rhs@.subrange(0, n - 2));
        // and the window is its low word and the words above it
        lemma_words_val_suffix(win, 1);
        assert(win.subrange(0, win.len() as int) =~= win);
        assert(win.subrange(1, win.len() as int) =~= orig.subrange(start + 1, end as int));
        assert(w == w_lo + bk * top3) by (nonlinear_arith)
            requires
                window_val(orig, start as int, n as int) == w_lo + bk * (lhs2 + base * (lhs1 + base
                    * 0)),
                w == window_val(orig, start as int, n as int) + lhs_top * bn,
                bn == base * (base * bk),
                top3 == lhs2 + lhs1 * base + lhs_top * (base * base),
        ;
        assert(w < base * big_b) by (nonlinear_arith)
            requires
                window_val(orig, start as int, n as int) == win[0] + base * window_val(
                    orig,
                    start + 1,
                    n - 1,
                ),
                w == window_val(orig, start as int, n as int) + lhs_top * bn,
                bn == base * bn1,
                window_val(orig, start + 1, n - 1) + lhs_top * bn1 < big_b,
                0 <= win[0] < base,
        ;
    }
    let mut q: Word = if lhs_top < rhs_top {
        let lhs01 = double_word(lhs1, lhs_top);
        proof {
            assert(lhs01 < d) by (nonlinear_arith)
                requires
                    lhs01 == lhs_top * base + lhs1,
                    lhs_top < rhs_top,
                    lhs1 < base,
                    d == rhs_top * base + rhs@[n - 2],
                    rhs@[n - 2] >= 0,
            ;
        }
        let (qe, r) = fast_div_rhs_top.div_rem_3by2(lhs2, lhs01);
        proof {
            assert(top3 < d * base && d >= base && top3 >= 0) by (nonlinear_arith)
                requires
                    lhs01 < d,
                    lhs01 == lhs_top * base + lhs1,
                    top3 == lhs2 + lhs1 * base + lhs_top * (base * base),
                    0 <= lhs2 < base,
                    d == rhs_top * base + rhs@[n - 2],
                    rhs_top >= 0x8000_0000_0000_0000u64,
                    base == 0x1_0000_0000_0000_0000int,
                    lhs1 >= 0,
                    lhs_top >= 0,
            ;
            assert(qe * d + r == top3) by (nonlinear_arith)
                requires
                    qe * d + r == lhs2 + lhs01 * base,
                    lhs01 == lhs_top * base + lhs1,
                    top3 == lhs2 + lhs1 * base + lhs_top * (base * base),
            ;
            assert(big_b == d * bk + words_val(rhs@.subrange(0, n - 2))) by (nonlinear_arith)
                requires
                    big_b == words_val(rhs@.subrange(0, n - 2)) + bk * (rhs@[n - 2] + base * (
                    rhs@[n - 1] + base * 0)),
                    d == rhs@[n - 1] * base + rhs@[n - 2],
            ;
            lemma_estimate_3by2(
                w,
                big_b,
                bk,
                d,
                words_val(rhs@.subrange(0, n - 2)) as int,
                top3,
                w_lo,
                qe as int,
                r as int,
                base,
            );
            lemma_mul_is_commutative(d, bk);
            lemma_mul_is_commutative(top3, bk);
        }
        qe
    } else {
        proof {
            lemma_estimate_max(
                w,
                big_b,
                bn1,
                rhs_top as int,
                words_val(rhs@.subrange(0, n - 1)) as int,
                lhs_top as int,
                base,
            );
            lemma_mul_is_commutative(bn1, rhs_top as int);
            lemma_mul_nonnegative(lhs_top as int, bn);
            lemma_mul_is_distributive_add_other_way(big_b, base - 1, 1);
        }
        Word::MAX
    };
    proof {
        lemma_mul_is_distributive_add_other_way(big_b, q as int, 1);
    }
    let borrow = sub_mul_word_same_len_at(lhs, start, q, rhs);
    let ghost rp = window_val(lhs@, start as int, n as int) as int;
    proof {
        lemma_words_val_bound(lhs@.subrange(start as int, end as int));
        lemma_correction(w, bn, big_b, q as int, rp, borrow as int, lhs_top as int);
    }
    if borrow > lhs_top {
        q = q - 1;
        let carry = add_same_len_at(lhs, start, rhs);
        proof {
            lemma_words_val_bound(lhs@.subrange(start as int, end as int));
            lemma_correction_add(
                w - (q + 1) * big_b,
                bn,
                big_b,
                rp,
                window_val(lhs@, start as int, n as int) as int,
                if carry { 1 } else { 0 },
            );
            lemma_mul_is_distributive_add_other_way(big_b, q as int, 1);
        }
    }
    q
}

/// Divide the words just below `lhs_top`, `lhs_lo`, and `lhs_top` itself by `rhs`, which is
/// above the top words: the top `rhs.len()` words of `lhs_lo` are replaced by the remainder and
/// the quotient word is returned.
pub(crate) fn div_rem_highest_word(
    lhs_top: Word,
    lhs_lo: &mut [Word],
    rhs: &[Word],
    fast_div_rhs_top: &FastDivideNormalized2,
) -> (q: Word)
    requires
        is_prepared_divisor(rhs@, fast_div_rhs_top.spec_divisor()),
        rhs@.len() <= old(lhs_lo)@.len(),
        window_val(
            old(lhs_lo)@,
            old(lhs_lo)@.len() - rhs@.len() + 1,
            rhs@.len() - 1,
        ) + lhs_top * word_pow((rhs@.len() - 1) as nat) < words_val(rhs@),
    ensures
        final(lhs_lo)@.len() == old(lhs_lo)@.len(),
        forall|j: int|
            0 <= j < old(lhs_lo)@.len() - rhs@.len() ==> final(lhs_lo)@[j] == old(lhs_lo)@[j],
        window_val(old(lhs_lo)@, old(lhs_lo)@.len() - rhs@.len(), rhs@.len() as int) + lhs_top
            * word_pow(rhs@.len()) == q * words_val(rhs@) + window_val(
            final(lhs_lo)@,
            old(lhs_lo)@.len() - rhs@.len(),
            rhs@.len() as int,
        ),
        window_val(final(lhs_lo)@, old(lhs_lo)@.len() - rhs@.len(), rhs@.len() as int) < words_val(
            rhs@,
        ),
{
    let end = lhs_lo.len();
    div_rem_highest_word_at(lhs_lo, end, lhs_top, rhs, fast_div_rhs_top)
}

/// The value after one more quotient word: `orig` is the remainder part `lo + p w` and the
/// quotient part `q_k + c p_k` times the divisor and `B p`; the window `w` is replaced by its
/// remainder `r` and the quotient word `q` is put below `q_k`.
proof fn lemma_div_step_value(
    orig: int,
    lo: int,
    wk: int,
    r: int,
    q: int,
    b: int,
    qk: int,
    c: int,
    base: int,
    p: int,
    pk: int,
)
    requires
        orig == (lo + p * wk) + (qk + c * pk) * b * (base * p),
        wk == q * b + r,
    ensures
        orig == (lo + p * r) + ((q + base * qk) + c * (pk * base)) * b * p,
{
    let bp = b * p;
    let z = (qk + c * pk) * bp;
    assert((qk + c * pk) * b * (base * p) == base * z) by (nonlinear_arith)
        requires
            bp == b * p,
            z == (qk + c * pk) * bp,
    ;
    let m = qk + c * pk;
    assert((q + base * qk) + c * (pk * base) == q + base * m) by (nonlinear_arith)
        requires
            m == qk + c * pk,
    ;
    assert((q + base * m) * b * p == q * bp + base * (m * bp)) by (nonlinear_arith)
        requires
            bp == b * p,
    ;
    assert(p * wk == q * bp + p * r) by (nonlinear_arith)
        requires
            bp == b * p,
            wk == q * b + r,
    ;
}

/// Divide `lhs` by the `n`-word divisor `rhs`, prepared by `fast_div_rhs_top`, in place: the
/// low `n` words become the remainder, the words above them the low words of the quotient,
/// and the quotient's carry above them (one exactly when the top `n` words of `lhs` are not
/// below `rhs`) is returned.
pub(crate) fn div_rem_in_place(
    lhs: &mut [Word],
    rhs: &[Word],
    fast_div_rhs_top: &FastDivideNormalized2,
) -> (quotient_carry: bool)
    requires
        is_prepared_divisor(rhs@, fast_div_rhs_top.spec_divisor()),
        old(lhs)@.len() >= rhs@.len(),
    ensures
        final(lhs)@.len() == old(lhs)@.len(),
        words_val(old(lhs)@) == (window_val(
            final(lhs)@,
            rhs@.len() as int,
            old(lhs)@.len() - rhs@.len(),
        ) + (if quotient_carry {
            word_pow((old(lhs)@.len() - rhs@.len()) as nat)
        } else {
            0
        })) * words_val(rhs@) + window_val(final(lhs)@, 0, rhs@.len() as int),
        window_val(final(lhs)@, 0, rhs@.len() as int) < words_val(rhs@),
        quotient_carry == (window_val(
            old(lhs)@,
            old(lhs)@.len() - rhs@.len(),
            rhs@.len() as int,
        ) >= words_val(rhs@)),
{
    let n = rhs.len();
    let l = lhs.len();
    let ghost orig = lhs@;
    let ghost big_b = words_val(rhs@) as int;
    let ghost base = word_base() as int;
    proof {
        lemma_pow2_widths();
        lemma_word_pow((n - 1) as nat);
        lemma_word_pow(0);
        // the divisor is at least half of B^n, and above any n - 1 words
        lemma_words_val_split(rhs@, n - 1);
        lemma_words_val_suffix(rhs@, n as int);
        assert(rhs@.subrange(n as int, n as int) =~= Seq::<Word>::empty());
        assert(words_val(Seq::<Word>::empty()) == 0);
        lemma_words_val_bound(orig.subrange(l - n + 1, l as int));
        lemma_mul_inequality(1, rhs@[n - 1] as int, word_pow((n - 1) as nat) as int);
        lemma_mul_is_commutative(rhs@[n - 1] as int, word_pow((n - 1) as nat) as int);
    }
    // the top quotient word is at most one, as the divisor is normalized
    let q0 = div_rem_highest_word_at(lhs, l, 0, rhs, fast_div_rhs_top);
    let ghost c = q0 as int;
    proof {
        let w0 = window_val(orig, l - n, n as int) as int;
        lemma_words_val_bound(orig.subrange(l - n, l as int));
        assert(2 * big_b >= base * word_pow((n - 1) as nat)) by (nonlinear_arith)
            requires
                big_b >= rhs@[n - 1] * word_pow((n - 1) as nat),
                rhs@[n - 1] >= 0x8000_0000_0000_0000u64,
                base == 0x1_0000_0000_0000_0000int,
                word_pow((n - 1) as nat) >= 0,
        ;
        if q0 >= 2 {
            lemma_mul_inequality(2, q0 as int, big_b);
        }
        lemma_mul_basics(big_b);
        // the whole value changed by the top window only
        lemma_words_val_window(orig, lhs@, l - n, n as int);
        assert(lhs@.subrange(0, l as int) =~= lhs@);
        assert(lhs@.subrange(l as int, l as int) =~= Seq::<Word>::empty());
        lemma_mul_basics(word_pow((l - n) as nat) as int);
        assert(words_val(orig) == words_val(lhs@) + c * big_b * word_pow((l - n) as nat)) by (
        nonlinear_arith)
            requires
                words_val(lhs@) - words_val(orig) == word_pow((l - n) as nat) * (window_val(
                    lhs@,
                    l - n,
                    n as int,
                ) - window_val(orig, l - n, n as int)),
                window_val(orig, l - n, n as int) + 0 * word_pow(n as nat) == c * big_b
                    + window_val(lhs@, l - n, n as int),
        ;
    }
    proof {
        assert(window_val(lhs@, 0, l as int) == words_val(lhs@));
        assert(window_val(lhs@, l as int, 0) == 0);
        assert((window_val(lhs@, l as int, 0) + c * word_pow(0)) * big_b * word_pow((l - n) as nat)
            == c * big_b * word_pow((l - n) as nat));
    }
    let mut k: usize = l;
    while k > n
        invariant
            n == rhs@.len(),
            l == orig.len(),
            lhs@.len() == l,
            n <= k <= l,
            is_prepared_divisor(rhs@, fast_div_rhs_top.spec_divisor()),
            big_b == words_val(rhs@),
            base == word_base(),
            c == q0 as int,
            0 <= c <= 1,
            window_val(lhs@, k - n, n as int) < big_b,
            words_val(orig) == window_val(lhs@, 0, k as int) + (window_val(lhs@, k as int, l - k)
                + c * word_pow((l - k) as nat)) * big_b * word_pow((k - n) as nat),
        decreases k,
    {
        let top = lhs[k - 1];
        let ghost s = lhs@;
        proof {
            lemma_window_split(s, k - n, n - 1, 1);
            lemma_words_val_single_window(s, k - 1);
            lemma_mul_is_commutative(top as int, word_pow((n - 1) as nat) as int);
        }
        let q = div_rem_highest_word_at(lhs, k - 1, top, rhs, fast_div_rhs_top);
        let ghost s1 = lhs@;
        lhs[k - 1] = q;
        proof {
            let s2 = lhs@;
            let a = k - 1 - n;
            // the remainder window
            lemma_window_same(s1, s2, a, n as int);
            // the part below the window is unchanged
            lemma_window_same(s, s2, 0, a);
            // the quotient part gained the word q below the old one
            lemma_window_same(s, s2, k as int, l - k);
            lemma_window_split(s2, k - 1, 1, l - k);
            lemma_words_val_single_window(s2, k - 1);
            // the old remainder part: the part below the window, then the window and `top`
            lemma_window_split(s, 0, a, k - a);
            lemma_window_split(s, a, n as int, 1);
            lemma_words_val_single_window(s, k - 1);
            lemma_window_split(s2, 0, a, n as int);
            lemma_word_pow(1);
            lemma_word_pow((l - k) as nat);
            lemma_word_pow(a as nat);
            lemma_mul_is_commutative(top as int, word_pow(n as nat) as int);
            lemma_div_step_value(
                words_val(orig) as int,
                window_val(s, 0, a) as int,
                window_val(s, a, n + 1) as int,
                window_val(s1, a, n as int) as int,
                q as int,
                big_b,
                window_val(s, k as int, l - k) as int,
                c,
                base,
                word_pow(a as nat) as int,
                word_pow((l - k) as nat) as int,
            );
            assert(word_pow((k - n) as nat) == base * word_pow(a as nat));
            assert(word_pow((l - (k - 1)) as nat) == word_pow((l - k) as nat) * base) by {
                lemma_mul_is_commutative(base, word_pow((l - k) as nat) as int);
            }
        }
        k = k - 1;
    }
    proof {
        lemma_word_pow(0);
        assert(n == k);
        let x = window_val(lhs@, n as int, l - n) + c * word_pow((l - n) as nat);
        lemma_mul_basics(x * big_b);
        if q0 != 0 {
            assert(c == 1);
        } else {
            lemma_mul_basics(word_pow((l - n) as nat) as int);
        }
    }
    q0 != 0
}

/// The value of the one word at `i`, as a window.
proof fn lemma_words_val_single_window(s: Seq<Word>, i: int)
    requires
        0 <= i < s.len(),
    ensures
        window_val(s, i, 1) == s[i],
{
    assert(s.subrange(i, i + 1) =~= seq![s[i]]);
    crate::words::lemma_words_val_single(s[i]);
}

} // verus!
