//! The value of little-endian word sequences, and its basic laws.
use vstd::prelude::*;
use vstd::arithmetic::power2::*;
use vstd::arithmetic::div_mod::*;
use vstd::arithmetic::mul::*;
use crate::arch::word::Word;
use crate::primitive::{word_base, lemma_pow2_widths};

verus! {

/// `B^k` where `B = 2^64` is the radix of one word.
pub open spec fn word_pow(k: nat) -> nat {
    pow2(64 * k)
}

/// The value of a little-endian sequence of words.
pub open spec fn words_val(s: Seq<Word>) -> nat
    decreases s.len(),
{
    if s.len() == 0 {
        0
    } else {
        s[0] as nat + word_base() * words_val(s.subrange(1, s.len() as int))
    }
}

/// A sequence of words without leading (most significant) zero words.
pub open spec fn is_normalized(s: Seq<Word>) -> bool {
    s.len() == 0 || s.last() != 0
}

/// The longest prefix of `s` that has no leading zero words.
pub open spec fn trim_len(s: Seq<Word>) -> nat
    decreases s.len(),
{
    if s.len() == 0 {
        0
    } else if s.last() != 0 {
        s.len()
    } else {
        trim_len(s.drop_last())
    }
}

/// `B^0 == 1`, `B^1 == B` and `B^(k+1) == B * B^k`.
pub proof fn lemma_word_pow(k: nat)
    ensures
        word_pow(0) == 1,
        word_pow(1) == word_base(),
        word_pow(k + 1) == word_base() * word_pow(k),
        word_pow(k) > 0,
{
    lemma_pow2_widths();
    lemma2_to64();
    lemma_pow2_adds(64, 64 * k);
    assert(64 * (k + 1) == 64 + 64 * k) by (nonlinear_arith);
    assert(64 * 1 == 64);
    lemma_pow2_pos(64 * k);
}

/// `B^(a+b) == B^a * B^b`.
pub proof fn lemma_word_pow_adds(a: nat, b: nat)
    ensures
        word_pow(a + b) == word_pow(a) * word_pow(b),
{
    assert(64 * (a + b) == 64 * a + 64 * b) by (nonlinear_arith);
    lemma_pow2_adds(64 * a, 64 * b);
}

/// Powers of the radix are monotone.
pub proof fn lemma_word_pow_monotone(a: nat, b: nat)
    requires
        a <= b,
    ensures
        word_pow(a) <= word_pow(b),
        a < b ==> word_pow(a) < word_pow(b),
{
    assert(64 * a <= 64 * b) by (nonlinear_arith)
        requires a <= b;
    if a < b {
        assert(64 * a < 64 * b) by (nonlinear_arith)
            requires a < b;
        lemma_pow2_strictly_increases(64 * a, 64 * b);
    }
}

/// The value of a sequence of a single word.
pub proof fn lemma_words_val_single(w: Word)
    ensures
        words_val(seq![w]) == w,
{
    assert(seq![w].subrange(1, 1) =~= Seq::<Word>::empty());
    assert(words_val(Seq::<Word>::empty()) == 0);
    assert(words_val(seq![w]) == w + word_base() * words_val(seq![w].subrange(1, 1)));
}

/// Appending two sequences: `val(a + b) == val(a) + B^|a| * val(b)`.
pub proof fn lemma_words_val_append(a: Seq<Word>, b: Seq<Word>)
    ensures
        words_val(a + b) == words_val(a) + word_pow(a.len()) * words_val(b),
    decreases a.len(),
{
    lemma_word_pow(0);
    if a.len() == 0 {
        assert(a + b =~= b);
    } else {
        let rest = a.subrange(1, a.len() as int);
        assert((a + b).subrange(1, (a + b).len() as int) =~= rest + b);
        lemma_words_val_append(rest, b);
        lemma_word_pow((a.len() - 1) as nat);
        let wb = word_base() as int;
        let vr = words_val(rest) as int;
        let vb = words_val(b) as int;
        let p = word_pow((a.len() - 1) as nat) as int;
        assert(wb * (vr + p * vb) == wb * vr + (wb * p) * vb) by {
            lemma_mul_is_distributive_add(wb, vr, p * vb);
            lemma_mul_is_associative(wb, p, vb);
        }
    }
}

/// Pushing a word: `val(s.push(w)) == val(s) + w * B^|s|`.
pub proof fn lemma_words_val_push(s: Seq<Word>, w: Word)
    ensures
        words_val(s.push(w)) == words_val(s) + w * word_pow(s.len()),
{
    assert(s.push(w) =~= s + seq![w]);
    lemma_words_val_append(s, seq![w]);
    lemma_words_val_single(w);
    lemma_mul_is_commutative(w as int, word_pow(s.len()) as int);
}

/// The value of a sequence is below `B^len`.
pub proof fn lemma_words_val_bound(s: Seq<Word>)
    ensures
        words_val(s) < word_pow(s.len()),
    decreases s.len(),
{
    lemma_word_pow(0);
    if s.len() > 0 {
        let rest = s.subrange(1, s.len() as int);
        lemma_words_val_bound(rest);
        lemma_word_pow(rest.len());
        let wb = word_base() as int;
        assert(s[0] + wb * words_val(rest) < wb * word_pow(rest.len())) by (nonlinear_arith)
            requires
                s[0] < wb,
                words_val(rest) + 1 <= word_pow(rest.len()),
                wb > 0;
    }
}

/// A normalized non-empty sequence has value at least `B^(len-1)`.
pub proof fn lemma_words_val_lower(s: Seq<Word>)
    requires
        s.len() > 0,
        s.last() != 0,
    ensures
        words_val(s) >= word_pow((s.len() - 1) as nat),
{
    let pre = s.drop_last();
    assert(s =~= pre.push(s.last()));
    lemma_words_val_push(pre, s.last());
    lemma_word_pow(pre.len());
    assert(s.last() * word_pow(pre.len()) >= word_pow(pre.len())) by (nonlinear_arith)
        requires s.last() >= 1, word_pow(pre.len()) > 0;
}

/// A sequence of zeros has value zero.
pub proof fn lemma_words_val_zeros(n: nat)
    ensures
        words_val(Seq::new(n, |i: int| 0u64)) == 0,
    decreases n,
{
    let z = Seq::new(n, |i: int| 0u64);
    if n > 0 {
        assert(z.subrange(1, n as int) =~= Seq::new((n - 1) as nat, |i: int| 0u64));
        lemma_words_val_zeros((n - 1) as nat);
        assert(z[0] == 0);
        assert(words_val(z) == z[0] + word_base() * words_val(z.subrange(1, n as int)));
    } else {
        assert(words_val(z) == 0);
    }
}

/// The value is zero exactly when all words are zero.
pub proof fn lemma_words_val_zero_iff(s: Seq<Word>)
    ensures
        words_val(s) == 0 <==> forall|i: int| 0 <= i < s.len() ==> s[i] == 0,
    decreases s.len(),
{
    if s.len() > 0 {
        let rest = s.subrange(1, s.len() as int);
        lemma_words_val_zero_iff(rest);
        if words_val(s) == 0 {
            assert(s[0] == 0);
            assert(words_val(rest) == 0) by {
                if words_val(rest) > 0 {
                    assert(word_base() * words_val(rest) > 0) by (nonlinear_arith)
                        requires words_val(rest) > 0;
                }
            }
            assert forall|i: int| 0 <= i < s.len() implies s[i] == 0 by {
                if i > 0 {
                    assert(rest[i - 1] == s[i]);
                }
            }
        }
        if forall|i: int| 0 <= i < s.len() ==> s[i] == 0 {
            assert forall|i: int| 0 <= i < rest.len() implies rest[i] == 0 by {
                assert(s[i + 1] == 0);
            }
            assert(s[0] == 0);
            assert(words_val(s) == s[0] + word_base() * words_val(rest));
        }
    } else {
        assert(words_val(s) == 0);
    }
}

/// Dropping leading zero words keeps the value.
pub proof fn lemma_words_val_trim(s: Seq<Word>, n: nat)
    requires
        n <= s.len(),
        forall|i: int| n <= i < s.len() ==> s[i] == 0,
    ensures
        words_val(s) == words_val(s.subrange(0, n as int)),
{
    let hi = s.subrange(n as int, s.len() as int);
    assert(s =~= s.subrange(0, n as int) + hi);
    lemma_words_val_append(s.subrange(0, n as int), hi);
    lemma_words_val_zero_iff(hi);
    assert forall|i: int| 0 <= i < hi.len() implies hi[i] == 0 by {
        assert(hi[i] == s[n + i]);
    }
}

/// Splitting at `i`: `val(s) == val(s[..i]) + B^i * val(s[i..])`.
pub proof fn lemma_words_val_split(s: Seq<Word>, i: int)
    requires
        0 <= i <= s.len(),
    ensures
        words_val(s) == words_val(s.subrange(0, i)) + word_pow(i as nat) * words_val(
            s.subrange(i, s.len() as int),
        ),
{
    assert(s =~= s.subrange(0, i) + s.subrange(i, s.len() as int));
    lemma_words_val_append(s.subrange(0, i), s.subrange(i, s.len() as int));
}

/// The value of the `n` words of `s` from `start`.
pub open spec fn window_val(s: Seq<Word>, start: int, n: int) -> nat {
    words_val(s.subrange(start, start + n))
}

/// Splitting a window: the `m1 + m2` words from `a` are the `m1` words from `a` and, above
/// them, the `m2` words from `a + m1`.
pub proof fn lemma_window_split(s: Seq<Word>, a: int, m1: int, m2: int)
    requires
        0 <= a,
        0 <= m1,
        0 <= m2,
        a + m1 + m2 <= s.len(),
    ensures
        window_val(s, a, m1 + m2) == window_val(s, a, m1) + word_pow(m1 as nat) * window_val(
            s,
            a + m1,
            m2,
        ),
{
    let t = s.subrange(a, a + m1 + m2);
    lemma_words_val_split(t, m1);
    assert(t.subrange(0, m1) =~= s.subrange(a, a + m1));
    assert(t.subrange(m1, t.len() as int) =~= s.subrange(a + m1, a + m1 + m2));
}

/// Two sequences that agree on a window have the same value there.
pub proof fn lemma_window_same(s: Seq<Word>, t: Seq<Word>, a: int, m: int)
    requires
        0 <= a,
        0 <= m,
        a + m <= s.len(),
        a + m <= t.len(),
        forall|j: int| a <= j < a + m ==> s[j] == t[j],
    ensures
        window_val(s, a, m) == window_val(t, a, m),
{
    assert(s.subrange(a, a + m) =~= t.subrange(a, a + m));
}

/// Changing only the words `start .. start + n` changes the value by `B^start` times the
/// change of the value of those words.
pub proof fn lemma_words_val_window(old_s: Seq<Word>, new_s: Seq<Word>, start: int, n: int)
    requires
        0 <= start,
        0 <= n,
        start + n <= old_s.len(),
        new_s.len() == old_s.len(),
        forall|j: int| 0 <= j < old_s.len() && !(start <= j < start + n) ==> new_s[j] == old_s[j],
    ensures
        words_val(new_s) - words_val(old_s) == word_pow(start as nat) * (window_val(new_s, start, n)
            - window_val(old_s, start, n)),
{
    let len = old_s.len() as int;
    lemma_words_val_split(old_s, start);
    lemma_words_val_split(new_s, start);
    assert(new_s.subrange(0, start) =~= old_s.subrange(0, start));
    let ot = old_s.subrange(start, len);
    let nt = new_s.subrange(start, len);
    lemma_words_val_split(ot, n);
    lemma_words_val_split(nt, n);
    assert(ot.subrange(0, n) =~= old_s.subrange(start, start + n));
    assert(nt.subrange(0, n) =~= new_s.subrange(start, start + n));
    assert(nt.subrange(n, nt.len() as int) =~= ot.subrange(n, ot.len() as int));
    let p = word_pow(start as nat) as int;
    let a = window_val(new_s, start, n) as int;
    let b = window_val(old_s, start, n) as int;
    let t = word_pow(n as nat) * words_val(ot.subrange(n, ot.len() as int));
    assert(p * (a + t) - p * (b + t) == p * (a - b)) by (nonlinear_arith);
}

/// The value modulo the radix is the lowest word, the quotient is the value of the rest.
pub proof fn lemma_words_val_low(s: Seq<Word>)
    requires
        s.len() > 0,
    ensures
        words_val(s) % word_base() == s[0],
        words_val(s) / word_base() == words_val(s.subrange(1, s.len() as int)),
{
    let rest = words_val(s.subrange(1, s.len() as int));
    lemma_fundamental_div_mod_converse(words_val(s) as int, word_base() as int, rest as int, s[0] as int);
    lemma_mul_is_commutative(word_base() as int, rest as int);
}

/// Two normalized sequences of equal value are equal.
pub proof fn lemma_normalized_unique(a: Seq<Word>, b: Seq<Word>)
    requires
        is_normalized(a),
        is_normalized(b),
        words_val(a) == words_val(b),
    ensures
        a == b,
    decreases a.len(),
{
    lemma_normalized_len(a, b);
    if a.len() > 0 {
        lemma_words_val_low(a);
        lemma_words_val_low(b);
        let ra = a.subrange(1, a.len() as int);
        let rb = b.subrange(1, b.len() as int);
        assert(ra.len() == 0 || ra.last() == a.last());
        assert(rb.len() == 0 || rb.last() == b.last());
        lemma_normalized_unique(ra, rb);
        assert(a =~= b) by {
            assert forall|i: int| 0 <= i < a.len() implies a[i] == b[i] by {
                if i > 0 {
                    assert(ra[i - 1] == a[i]);
                    assert(rb[i - 1] == b[i]);
                }
            }
        }
    } else {
        assert(a =~= b);
    }
}

/// Normalized sequences of equal value have equal length; of smaller length, smaller value.
pub proof fn lemma_normalized_len(a: Seq<Word>, b: Seq<Word>)
    requires
        is_normalized(a),
        is_normalized(b),
    ensures
        a.len() < b.len() ==> words_val(a) < words_val(b),
        words_val(a) == words_val(b) ==> a.len() == b.len(),
{
    if a.len() < b.len() {
        lemma_words_val_bound(a);
        lemma_words_val_lower(b);
        lemma_word_pow_monotone(a.len(), (b.len() - 1) as nat);
    }
    if b.len() < a.len() {
        lemma_words_val_bound(b);
        lemma_words_val_lower(a);
        lemma_word_pow_monotone(b.len(), (a.len() - 1) as nat);
    }
}

/// Comparison of equal-length sequences by their highest differing word.
pub proof fn lemma_words_val_lt_at(a: Seq<Word>, b: Seq<Word>, i: int)
    requires
        a.len() == b.len(),
        0 <= i < a.len(),
        forall|j: int| i < j < a.len() ==> a[j] == b[j],
        a[i] < b[i],
    ensures
        words_val(a) < words_val(b),
{
    let n = a.len() as int;
    lemma_words_val_split(a, i + 1);
    lemma_words_val_split(b, i + 1);
    assert(a.subrange(i + 1, n) =~= b.subrange(i + 1, n));
    let pa = a.subrange(0, i + 1);
    let pb = b.subrange(0, i + 1);
    assert(pa =~= a.subrange(0, i).push(a[i]));
    assert(pb =~= b.subrange(0, i).push(b[i]));
    lemma_words_val_push(a.subrange(0, i), a[i]);
    lemma_words_val_push(b.subrange(0, i), b[i]);
    lemma_words_val_bound(a.subrange(0, i));
    let p = word_pow(i as nat) as int;
    assert(words_val(a.subrange(0, i)) + a[i] * p < b[i] * p) by (nonlinear_arith)
        requires
            words_val(a.subrange(0, i)) < p,
            a[i] + 1 <= b[i],
            p > 0;
    lemma_word_pow(i as nat);
    assert(words_val(pa) < words_val(pb));
    lemma_word_pow(0);
    let h = words_val(a.subrange(i + 1, n)) as int;
    let q = word_pow((i + 1) as nat) as int;
    assert(words_val(pa) + q * h < words_val(pb) + q * h);
}

/// [lemma_words_val_lt_at] at a machine index.
pub proof fn lemma_words_val_lt_at_index(a: Seq<Word>, b: Seq<Word>, i: usize)
    requires
        a.len() == b.len(),
        i < a.len(),
        forall|j: int| i < j < a.len() ==> a[j] == b[j],
        a[i as int] < b[i as int],
    ensures
        words_val(a) < words_val(b),
{
    lemma_words_val_lt_at(a, b, i as int);
}

/// Replacing one word: `val(s') + s[i] B^i == val(s) + w B^i`.
pub proof fn lemma_words_val_update(s: Seq<Word>, i: int, w: Word)
    requires
        0 <= i < s.len(),
    ensures
        words_val(s.update(i, w)) + s[i] * word_pow(i as nat) == words_val(s) + w * word_pow(
            i as nat,
        ),
{
    let t = s.update(i, w);
    let n = s.len() as int;
    lemma_words_val_split(s, i);
    lemma_words_val_split(t, i);
    assert(t.subrange(0, i) =~= s.subrange(0, i));
    let hs = s.subrange(i, n);
    let ht = t.subrange(i, n);
    assert(hs.subrange(1, hs.len() as int) =~= ht.subrange(1, ht.len() as int));
    assert(hs[0] == s[i]);
    assert(ht[0] == w);
    assert(words_val(hs) == hs[0] + word_base() * words_val(hs.subrange(1, hs.len() as int)));
    assert(words_val(ht) == ht[0] + word_base() * words_val(ht.subrange(1, ht.len() as int)));
    let p = word_pow(i as nat) as int;
    let r = word_base() * words_val(hs.subrange(1, hs.len() as int));
    assert(p * (w + r) + s[i] * p == p * (s[i] + r) + w * p) by (nonlinear_arith);
}

/// Division by a power of the radix: `val(s) / B^k == val(s[k..])`, `val(s) % B^k == val(s[..k])`.
pub proof fn lemma_words_val_div_pow(s: Seq<Word>, k: nat)
    requires
        k <= s.len(),
    ensures
        words_val(s) / word_pow(k) == words_val(s.subrange(k as int, s.len() as int)),
        words_val(s) % word_pow(k) == words_val(s.subrange(0, k as int)),
{
    lemma_words_val_split(s, k as int);
    lemma_words_val_bound(s.subrange(0, k as int));
    lemma_word_pow(k);
    let hi = words_val(s.subrange(k as int, s.len() as int)) as int;
    let lo = words_val(s.subrange(0, k as int)) as int;
    lemma_mul_is_commutative(word_pow(k) as int, hi);
    lemma_fundamental_div_mod_converse(words_val(s) as int, word_pow(k) as int, hi, lo);
}

/// A bit inside the lowest word: for `j < 64`, bit `j` of `val(s)` is bit `j` of `s[0]`.
pub proof fn lemma_words_val_low_bit(s: Seq<Word>, j: nat)
    requires
        s.len() > 0,
        j < 64,
    ensures
        (words_val(s) / pow2(j)) % 2 == ((s[0] as nat) / pow2(j)) % 2,
        words_val(s) % pow2(j) == (s[0] as nat) % pow2(j),
{
    let r = words_val(s.subrange(1, s.len() as int)) as int;
    let pj = pow2(j) as int;
    let m = pow2((64 - j) as nat) as int;
    lemma_pow2_pos(j);
    lemma_pow2_adds(j, (64 - j) as nat);
    lemma_pow2_widths();
    assert(j + (64 - j) as nat == 64);
    // val = s0 + 2^j * (2^(64-j) * r)
    assert(words_val(s) == s[0] + pj * (m * r)) by {
        lemma_mul_is_associative(pj, m, r);
    }
    lemma_div_multiples_vanish_fancy_general(s[0] as int, m * r, pj);
    lemma_mod_multiples_vanish(m * r, s[0] as int, pj);
    // 2^(64-j) is even
    lemma_pow2_unfold((64 - j) as nat);
    let q = (s[0] as int) / pj;
    assert((q + m * r) % 2 == q % 2) by {
        let h = pow2((64 - j - 1) as nat) as int;
        assert(m * r == 2 * (h * r)) by {
            lemma_mul_is_associative(2, h, r);
        }
        lemma_mod_multiples_vanish(h * r, q, 2);
    }
}

/// `(x + k m) / k == x / k + m` for positive `k`.
pub proof fn lemma_div_multiples_vanish_fancy_general(x: int, m: int, k: int)
    requires
        k > 0,
    ensures
        (x + k * m) / k == x / k + m,
{
    lemma_fundamental_div_mod(x, k);
    lemma_mod_bound(x, k);
    let q = x / k;
    let r = x % k;
    assert(x + k * m == k * (q + m) + r) by {
        lemma_mul_is_distributive_add(k, q, m);
    }
    lemma_fundamental_div_mod_converse(x + k * m, k, q + m, r);
}

/// Bit `n` of the value of a word sequence.
pub proof fn lemma_words_val_bit(s: Seq<Word>, n: nat)
    ensures
        (n / 64) < s.len() ==> (words_val(s) / pow2(n)) % 2 == ((s[(n / 64) as int] as nat) / pow2(
            n % 64,
        )) % 2,
        (n / 64) >= s.len() ==> words_val(s) / pow2(n) == 0,
{
    let idx = n / 64;
    let j = n % 64;
    assert(n == 64 * idx + j) by {
        lemma_fundamental_div_mod(n as int, 64);
    }
    lemma_pow2_adds(64 * idx, j);
    lemma_pow2_pos(64 * idx);
    lemma_pow2_pos(j);
    if idx < s.len() {
        lemma_words_val_div_pow(s, idx);
        let hi = s.subrange(idx as int, s.len() as int);
        lemma_div_denominator(words_val(s) as int, pow2(64 * idx) as int, pow2(j) as int);
        lemma_words_val_low_bit(hi, j);
    } else {
        lemma_words_val_bound(s);
        lemma_word_pow_monotone(s.len(), idx);
        lemma_pow2_strictly_increases_or_equal(64 * idx, n);
        lemma_basic_div(words_val(s) as int, pow2(n) as int);
    }
}

/// Powers of two are monotone.
pub proof fn lemma_pow2_strictly_increases_or_equal(a: nat, b: nat)
    requires
        a <= b,
    ensures
        pow2(a) <= pow2(b),
{
    if a < b {
        lemma_pow2_strictly_increases(a, b);
    }
}

/// Length of the trimmed prefix: it is normalized and only zeros are cut.
pub proof fn lemma_trim_len(s: Seq<Word>)
    ensures
        trim_len(s) <= s.len(),
        is_normalized(s.subrange(0, trim_len(s) as int)),
        forall|i: int| trim_len(s) <= i < s.len() ==> s[i] == 0,
        words_val(s) == words_val(s.subrange(0, trim_len(s) as int)),
    decreases s.len(),
{
    if s.len() > 0 && s.last() == 0 {
        lemma_trim_len(s.drop_last());
        assert(s.drop_last().subrange(0, trim_len(s) as int) =~= s.subrange(0, trim_len(s) as int));
        assert forall|i: int| trim_len(s) <= i < s.len() implies s[i] == 0 by {
            if i < s.len() - 1 {
                assert(s.drop_last()[i] == s[i]);
            }
        }
    } else {
        assert(s.subrange(0, s.len() as int) =~= s);
    }
    lemma_words_val_trim(s, trim_len(s));
}

} // verus!
