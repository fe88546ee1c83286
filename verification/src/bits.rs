//! Bit operations on big integers.
use vstd::prelude::*;
use vstd::arithmetic::power2::*;
use vstd::arithmetic::div_mod::*;
use vstd::arithmetic::mul::*;
use vstd::bits::*;
use crate::arch::word::{DoubleWord, Word};
use crate::buffer::{Buffer, spec_max_capacity, spec_default_capacity};
use crate::ibig::{IBig, spec_abs};
use crate::primitive::{
    spec_bit_len, word_base, word_leading_zeros, lemma_u64_trailing_zeros, lemma_pow2_widths,
    lemma_bit_len_unique, lemma_bit_len_bounds,
};
use crate::ubig::{UBig, lemma_zero_iff_empty};
use crate::math::spec_is_power_of_two;
use crate::words::{
    words_val, is_normalized, word_pow, lemma_word_pow, lemma_words_val_div_pow, lemma_words_val_push,
    lemma_words_val_low_bit, lemma_words_val_bit, lemma_words_val_update, lemma_words_val_append,
    lemma_words_val_zeros, lemma_words_val_bound, lemma_words_val_lower, lemma_words_val_zero_iff,
    lemma_words_val_split, lemma_pow2_strictly_increases_or_equal,
};

verus! {

/// Bit `n` of a natural number.
pub open spec fn spec_bit(x: nat, n: nat) -> bool {
    (x / pow2(n)) % 2 == 1
}

/// `t` is the number of trailing zeros of `x`: `2^t` divides `x` and `x / 2^t` is odd.
pub open spec fn is_trailing_zeros(x: nat, t: nat) -> bool {
    x % pow2(t) == 0 && (x / pow2(t)) % 2 == 1
}

/// Testing a bit of a word with a mask.
proof fn lemma_word_bit(w: u64, k: u64)
    requires
        k < 64,
    ensures
        ((w & (1u64 << k)) != 0) == spec_bit(w as nat, k as nat),
        spec_bit(w as nat, k as nat) ==> (w & !(1u64 << k)) + (1u64 << k) == w,
        !spec_bit(w as nat, k as nat) ==> (w | (1u64 << k)) == w + (1u64 << k),
        spec_bit(w as nat, k as nat) ==> (w | (1u64 << k)) == w,
        !spec_bit(w as nat, k as nat) ==> (w & !(1u64 << k)) == w,
        (1u64 << k) == pow2(k as nat),
{
    lemma_u64_shr_is_div(w, k);
    let q = w >> k;
    assert((q & 1 == 1) == (q % 2 == 1)) by (bit_vector);
    assert(((w & (1u64 << k)) != 0) == ((w >> k) & 1 == 1)) by (bit_vector)
        requires k < 64;
    assert((w >> k) & 1 == 1 ==> (w & !(1u64 << k)) + (1u64 << k) == w) by (bit_vector)
        requires k < 64;
    assert((w >> k) & 1 != 1 ==> (w | (1u64 << k)) == w + (1u64 << k)) by (bit_vector)
        requires k < 64;
    assert((w >> k) & 1 == 1 ==> (w | (1u64 << k)) == w) by (bit_vector)
        requires k < 64;
    assert((w >> k) & 1 != 1 ==> (w & !(1u64 << k)) == w) by (bit_vector)
        requires k < 64;
    lemma_u64_pow2_no_overflow(k as nat);
    lemma_u64_shl_is_mul(1, k);
}

/// Combining trailing zeros: `x = 2^a v` with `t` trailing zeros of `v`.
proof fn lemma_tz_combine(x: nat, a: nat, v: nat, t: nat)
    requires
        x == pow2(a) * v,
        is_trailing_zeros(v, t),
    ensures
        is_trailing_zeros(x, a + t),
{
    lemma_pow2_pos(a);
    lemma_pow2_pos(t);
    lemma_pow2_pos(a + t);
    lemma_pow2_adds(a, t);
    lemma_fundamental_div_mod(v as int, pow2(t) as int);
    let q = v / pow2(t);
    assert(x == pow2(a + t) * q) by {
        lemma_mul_is_associative(pow2(a) as int, pow2(t) as int, q as int);
    }
    lemma_mod_multiples_basic(q as int, pow2(a + t) as int);
    lemma_mul_is_commutative(q as int, pow2(a + t) as int);
    lemma_div_multiples_vanish(q as int, pow2(a + t) as int);
}

/// Changing one word by `d` changes the value by `d B^i`.
proof fn lemma_words_val_update_by(s: Seq<Word>, i: int, w: Word, d: int)
    requires
        0 <= i < s.len(),
        w == s[i] + d,
    ensures
        words_val(s.update(i, w)) == words_val(s) + d * word_pow(i as nat),
{
    lemma_words_val_update(s, i, w);
    lemma_mul_is_distributive_add_other_way(word_pow(i as nat) as int, s[i] as int, d);
}

/// `2^n == 2^k B^idx` where `n == 64 idx + k`.
proof fn lemma_bit_weight(n: nat, idx: nat, k: nat)
    requires
        n == 64 * idx + k,
    ensures
        pow2(n) == pow2(k) * word_pow(idx),
        pow2(n) > 0,
{
    lemma_pow2_adds(64 * idx, k);
    lemma_pow2_pos(n);
    lemma_mul_is_commutative(pow2(k) as int, word_pow(idx) as int);
}

/// Number of trailing zero bits of a normalized, non-zero word sequence.
pub fn trailing_zeros_large(words: &[Word]) -> (r: usize)
    requires
        words@.len() > 0,
        words@.last() != 0,
        words@.len() <= spec_max_capacity(),
    ensures
        is_trailing_zeros(words_val(words@), r as nat),
{
    let mut idx: usize = 0;
    while idx < words.len()
        invariant
            idx <= words@.len(),
            words@.len() > 0,
            words@.last() != 0,
            words@.len() <= spec_max_capacity(),
            forall|j: int| 0 <= j < idx ==> words@[j] == 0,
        decreases words@.len() - idx,
    {
        let word = words[idx];
        if word != 0 {
            proof {
                lemma_u64_trailing_zeros(word);
                let t = word.trailing_zeros() as nat;
                lemma_words_val_div_pow(words@, idx as nat);
                let hi = words@.subrange(idx as int, words@.len() as int);
                let lo = words@.subrange(0, idx as int);
                lemma_words_val_zero_iff(lo);
                lemma_words_val_low_bit(hi, t);
                lemma_word_pow(idx as nat);
                lemma_fundamental_div_mod(words_val(words@) as int, word_pow(idx as nat) as int);
                lemma_tz_combine(words_val(words@), 64 * idx as nat, words_val(hi), t);
            }
            return idx * 64 + word.trailing_zeros() as usize;
        }
        idx = idx + 1;
    }
    proof {
        assert(words@[words@.len() - 1] == 0);
    }
    0
}

/// Bit length of a normalized word sequence: `64 (len - 1) + bit_len(last)`.
pub proof fn lemma_words_bit_len(s: Seq<Word>)
    requires
        s.len() > 0,
        s.last() != 0,
    ensures
        spec_bit_len(words_val(s)) == 64 * (s.len() - 1) + spec_bit_len(s.last() as nat),
{
    let k = (s.len() - 1) as nat;
    lemma_words_val_split(s, k as int);
    let lo = words_val(s.subrange(0, k as int));
    let hs = s.subrange(k as int, s.len() as int);
    assert(hs =~= seq![s.last()]);
    crate::words::lemma_words_val_single(s.last());
    lemma_words_val_bound(s.subrange(0, k as int));
    lemma_bit_len_shifted(s.last() as nat, lo, 64 * k);
    lemma_mul_is_commutative(word_pow(k) as int, s.last() as int);
}

/// `bit_len(h 2^m + l) == m + bit_len(h)` for non-zero `h` and `l < 2^m`.
pub(crate) proof fn lemma_bit_len_shifted(h: nat, l: nat, m: nat)
    requires
        h > 0,
        l < pow2(m),
    ensures
        spec_bit_len(h * pow2(m) + l) == m + spec_bit_len(h),
{
    let k = spec_bit_len(h);
    lemma_bit_len_bounds(h);
    lemma_pow2_adds(m, k);
    lemma_pow2_adds(m, (k - 1) as nat);
    let x = h * pow2(m) + l;
    assert(x < pow2(m + k)) by {
        lemma_mul_inequality(h as int + 1, pow2(k) as int, pow2(m) as int);
        lemma_mul_is_distributive_add_other_way(pow2(m) as int, h as int, 1);
        lemma_mul_is_commutative(pow2(m) as int, pow2(k) as int);
    }
    assert(pow2((m + k - 1) as nat) <= x) by {
        assert((m + k - 1) as nat == m + (k - 1) as nat);
        lemma_mul_inequality(pow2((k - 1) as nat) as int, h as int, pow2(m) as int);
        lemma_mul_is_commutative(pow2(m) as int, pow2((k - 1) as nat) as int);
    }
    lemma_bit_len_unique(x, m + k);
}

impl UBig {
    /// Returns true if the `n`-th bit is set, n starts from 0.
    pub fn bit(&self, n: usize) -> (r: bool)
        ensures
            r == spec_bit(self@, n as nat),
    {
        let words = self.as_words();
        let idx = n / 64;
        proof {
            lemma_words_val_bit(words@, n as nat);
            lemma_pow2_pos(n as nat);
            lemma_basic_div(0, 2);
        }
        if idx < words.len() {
            let k = (n % 64) as u64;
            proof {
                lemma_word_bit(words[idx as int], k);
            }
            words[idx] & (1u64 << k) != 0
        } else {
            false
        }
    }

    /// Set the `n`-th bit, n starts from 0.
    #[verifier::spinoff_prover]
    pub fn set_bit(&mut self, n: usize)
        requires
            n / 64 < spec_max_capacity(),
        ensures
            spec_bit(old(self)@, n as nat) ==> final(self)@ == old(self)@,
            !spec_bit(old(self)@, n as nat) ==> final(self)@ == old(self)@ + pow2(n as nat),
    {
        let words = self.as_words();
        let len = words.len();
        let idx = n / 64;
        let k = (n % 64) as u64;
        let ghost s = words@;
        proof {
            lemma_words_val_bit(s, n as nat);
            lemma_word_bit(0, k);
            assert(n as nat == 64 * idx as nat + k as nat);
            lemma_pow2_adds(64 * idx as nat, k as nat);
        }
        let mut buffer;
        if idx < len {
            buffer = self.to_buffer(0);
            let w = words[idx];
            proof {
                lemma_word_bit(w, k);
                lemma_bit_weight(n as nat, idx as nat, k as nat);
                if !spec_bit(words_val(s), n as nat) {
                    lemma_words_val_update_by(s, idx as int, w | (1u64 << k), pow2(k as nat) as int);
                } else {
                    lemma_words_val_update_by(s, idx as int, w | (1u64 << k), 0);
                    assert(s.update(idx as int, w) =~= s);
                }
            }
            buffer.set(idx, w | (1u64 << k));
        } else {
            buffer = self.to_buffer(idx + 1 - len);
            buffer.ensure_capacity(idx + 1);
            buffer.push_zeros(idx - len);
            buffer.push(1u64 << k);
            proof {
                let z = Seq::new((idx - len) as nat, |i: int| 0u64);
                lemma_words_val_append(s, z);
                lemma_words_val_zeros((idx - len) as nat);
                crate::words::lemma_words_val_push(s + z, 1u64 << k);
                lemma_bit_weight(n as nat, idx as nat, k as nat);
                lemma_basic_div(0, 2);
            }
        }
        *self = UBig::from_buffer(buffer);
    }

    /// Clear the `n`-th bit, n starts from 0.
    pub fn clear_bit(&mut self, n: usize)
        ensures
            spec_bit(old(self)@, n as nat) ==> final(self)@ == old(self)@ - pow2(n as nat),
            !spec_bit(old(self)@, n as nat) ==> final(self)@ == old(self)@,
    {
        let words = self.as_words();
        let len = words.len();
        let idx = n / 64;
        let ghost s = words@;
        proof {
            lemma_words_val_bit(s, n as nat);
            lemma_pow2_pos(n as nat);
            if idx >= len {
                assert(words_val(s) / pow2(n as nat) == 0);
                assert(!spec_bit(words_val(s), n as nat));
            }
        }
        if idx < len {
            let k = (n % 64) as u64;
            proof {
                assert(n as nat == 64 * idx as nat + k as nat);
                lemma_pow2_adds(64 * idx as nat, k as nat);
            }
            let mut buffer = self.to_buffer(0);
            let w = words[idx];
            proof {
                lemma_word_bit(w, k);
                lemma_bit_weight(n as nat, idx as nat, k as nat);
                if spec_bit(words_val(s), n as nat) {
                    lemma_words_val_update_by(s, idx as int, w & !(1u64 << k), -(pow2(k as nat) as int));
                    lemma_mul_unary_negation(pow2(k as nat) as int, word_pow(idx as nat) as int);
                } else {
                    lemma_words_val_update_by(s, idx as int, w & !(1u64 << k), 0);
                }
            }
            buffer.set(idx, w & !(1u64 << k));
            *self = UBig::from_buffer(buffer);
        }
    }

    /// Returns the number of trailing zeros in the binary representation.
    ///
    /// In other words, it is the largest `n` such that 2 to the power of `n` divides the number.
    ///
    /// For 0, it returns `None`.
    pub fn trailing_zeros(&self) -> (r: Option<usize>)
        ensures
            r is None <==> self@ == 0,
            r matches Some(t) ==> is_trailing_zeros(self@, t as nat),
    {
        let words = self.as_words();
        proof {
            lemma_zero_iff_empty(words@);
        }
        if words.len() == 0 {
            None
        } else {
            Some(trailing_zeros_large(words))
        }
    }

    /// Bit length.
    ///
    /// The length of the binary representation of the number.
    ///
    /// For 0, the length is 0.
    pub fn bit_len(&self) -> (r: usize)
        ensures
            r == spec_bit_len(self@),
    {
        let words = self.as_words();
        let len = words.len();
        if len == 0 {
            0
        } else {
            let lz = word_leading_zeros(words[len - 1]);
            proof {
                lemma_words_bit_len(words@);
            }
            len * 64 - lz as usize
        }
    }

    /// The highest `n` bits of the number, that is the number shifted right by
    /// `bit_len - n` bits. `n` must not exceed the bit length.
    pub fn high_bits(&self, n: usize) -> (r: UBig)
        requires
            n <= spec_bit_len(self@),
        ensures
            r@ == self@ / pow2((spec_bit_len(self@) - n) as nat),
    {
        let bit_len = self.bit_len();
        let words = self.as_words();
        proof {
            if words@.len() > 0 {
                lemma_words_bit_len(words@);
                crate::primitive::lemma_bit_len_le(words@.last() as nat, 64);
                lemma_pow2_widths();
            } else {
                assert(spec_bit_len(0) == 0);
            }
        }
        let v = crate::gcd_ops::shr_bits(words, bit_len - n);
        UBig::from_vec(v)
    }

    /// Whether the low `n` bits of the number are not all zero.
    pub fn are_low_bits_nonzero(&self, n: usize) -> (r: bool)
        ensures
            r == (self@ % pow2(n as nat) != 0),
    {
        let words = self.as_words();
        let len = words.len();
        let k = n / 64;
        let t = (n % 64) as u32;
        let ghost s = words@;
        proof {
            assert(n as nat == 64 * k as nat + t as nat);
            lemma_pow2_adds(64 * k as nat, t as nat);
            lemma_word_pow(k as nat);
            lemma_pow2_pos(t as nat);
            lemma_pow2_pos(n as nat);
        }
        let mut i: usize = 0;
        while i < k && i < len
            invariant
                i <= k,
                i <= len,
                len == s.len(),
                s == words@,
                words_val(s) == self@,
                n as nat == 64 * k as nat + t as nat,
                forall|j: int| 0 <= j < i ==> s[j] == 0,
            decreases len - i,
        {
            if words[i] != 0 {
                proof {
                    lemma_low_words_nonzero(s, k as nat, t as nat, i as int);
                }
                return true;
            }
            i = i + 1;
        }
        if k >= len {
            proof {
                lemma_words_val_zero_iff(s);
                lemma_small_mod(0, pow2(n as nat));
            }
            return false;
        }
        let mask = crate::math::ones_word(t);
        proof {
            lemma_low_words_zero(s, k as nat, t as nat);
            lemma_u64_low_bits_mask_is_mod(s[k as int], t as nat);
            lemma_pow2_widths();
            lemma_pow2_strictly_increases(t as nat, 64);
            assert(mask == low_bits_mask(t as nat) as u64);
            assert((pow2(t as nat) as u64) as nat == pow2(t as nat));
            assert((s[k as int] & mask) as nat == (s[k as int] as nat) % pow2(t as nat));
        }
        words[k] & mask != 0
    }
}

/// A non-zero word below `k` makes the low `64 k + t` bits non-zero.
proof fn lemma_low_words_nonzero(s: Seq<Word>, k: nat, t: nat, i: int)
    requires
        0 <= i < s.len(),
        i < k,
        s[i] != 0,
    ensures
        words_val(s) % pow2(64 * k + t) != 0,
{
    let m = if k <= s.len() { k } else { s.len() };
    let x = words_val(s);
    lemma_words_val_div_pow(s, m);
    let low = s.subrange(0, m as int);
    lemma_words_val_zero_iff(low);
    assert(low[i] == s[i]);
    lemma_word_pow(m);
    lemma_pow2_pos(t);
    lemma_pow2_adds(64 * k, t);
    crate::words::lemma_word_pow_monotone(m, k);
    lemma_word_pow(k);
    // 2^(64k + t) = B^m (B^(k-m) 2^t)
    crate::words::lemma_word_pow_adds(m, (k - m) as nat);
    let rest = word_pow((k - m) as nat) * pow2(t);
    lemma_word_pow((k - m) as nat);
    lemma_mul_strictly_positive(word_pow((k - m) as nat) as int, pow2(t) as int);
    lemma_mul_is_associative(word_pow(m) as int, word_pow((k - m) as nat) as int, pow2(t) as int);
    lemma_mod_breakdown(x as int, word_pow(m) as int, rest as int);
    lemma_mul_nonnegative(word_pow(m) as int, (x / word_pow(m)) as int % rest as int);
}

/// With the words below `k` zero, the low `64 k + t` bits are those of word `k`.
proof fn lemma_low_words_zero(s: Seq<Word>, k: nat, t: nat)
    requires
        k < s.len(),
        t < 64,
        forall|j: int| 0 <= j < k ==> s[j] == 0,
    ensures
        (words_val(s) % pow2(64 * k + t) != 0) == ((s[k as int] as nat) % pow2(t) != 0),
{
    let x = words_val(s);
    lemma_words_val_div_pow(s, k);
    let low = s.subrange(0, k as int);
    let high = s.subrange(k as int, s.len() as int);
    lemma_words_val_zero_iff(low);
    lemma_word_pow(k);
    lemma_pow2_pos(t);
    lemma_pow2_adds(64 * k, t);
    lemma_mod_breakdown(x as int, word_pow(k) as int, pow2(t) as int);
    lemma_words_val_low_bit(high, t);
    assert(high[0] == s[k as int]);
    assert(words_val(low) == 0);
    let m = (words_val(high) as int) % (pow2(t) as int);
    assert(m == (s[k as int] as nat) % pow2(t));
    assert(x as int / word_pow(k) as int == words_val(high) as int);
    assert(x as int % (word_pow(k) as int * pow2(t) as int) == word_pow(k) as int * m);
    assert(pow2(64 * k + t) == word_pow(k) * pow2(t));
    if m != 0 {
        lemma_mul_strictly_positive(word_pow(k) as int, m);
    } else {
        lemma_mul_basics(word_pow(k) as int);
    }
}

impl IBig {
    /// Returns the number of trailing zeros in the two's complement binary representation.
    ///
    /// In other words, it is the largest `n` such that 2 to the power of `n` divides the number.
    ///
    /// For 0, it returns `None`.
    pub fn trailing_zeros(&self) -> (r: Option<usize>)
        ensures
            r is None <==> self@ == 0,
            r matches Some(t) ==> is_trailing_zeros(spec_abs(self@), t as nat),
    {
        self.magnitude().trailing_zeros()
    }
}

/// Bit `n` of the value of a word sequence is bit `n % 64` of its word `n / 64`, and zero
/// beyond the last word.
pub proof fn lemma_seq_bit(s: Seq<Word>, n: nat)
    ensures
        spec_bit(words_val(s), n) == ((n / 64) < s.len() && spec_bit(
            s[(n / 64) as int] as nat,
            n % 64,
        )),
{
    lemma_words_val_bit(s, n);
    lemma_pow2_pos(n);
    if n / 64 >= s.len() {
        lemma_basic_div(0, 2);
        assert(0nat % 2 == 0);
    }
}

/// The bits of the bitwise operations on words.
proof fn lemma_word_ops_bit(x: u64, y: u64, k: nat)
    requires
        k < 64,
    ensures
        spec_bit((x & y) as nat, k) == (spec_bit(x as nat, k) && spec_bit(y as nat, k)),
        spec_bit((x | y) as nat, k) == (spec_bit(x as nat, k) || spec_bit(y as nat, k)),
        spec_bit((x ^ y) as nat, k) == (spec_bit(x as nat, k) != spec_bit(y as nat, k)),
        spec_bit((x & !y) as nat, k) == (spec_bit(x as nat, k) && !spec_bit(y as nat, k)),
{
    let kk = k as u64;
    lemma_word_bit(x, kk);
    lemma_word_bit(y, kk);
    lemma_word_bit(x & y, kk);
    lemma_word_bit(x | y, kk);
    lemma_word_bit(x ^ y, kk);
    lemma_word_bit(x & !y, kk);
    assert(((x & y) & (1u64 << kk) != 0) == ((x & (1u64 << kk)) != 0 && (y & (1u64 << kk)) != 0))
        by (bit_vector)
        requires
            kk < 64,
    ;
    assert(((x | y) & (1u64 << kk) != 0) == ((x & (1u64 << kk)) != 0 || (y & (1u64 << kk)) != 0))
        by (bit_vector)
        requires
            kk < 64,
    ;
    assert(((x ^ y) & (1u64 << kk) != 0) == ((x & (1u64 << kk)) != 0 != ((y & (1u64 << kk)) != 0)))
        by (bit_vector)
        requires
            kk < 64,
    ;
    assert(((x & !y) & (1u64 << kk) != 0) == ((x & (1u64 << kk)) != 0 && (y & (1u64 << kk)) == 0))
        by (bit_vector)
        requires
            kk < 64,
    ;
}

/// The word at an index, or zero beyond the end.
pub open spec fn word_at(s: Seq<Word>, i: int) -> Word {
    if 0 <= i < s.len() {
        s[i]
    } else {
        0
    }
}

/// Bit `n` of a word sequence through `word_at`.
proof fn lemma_seq_bit_at(s: Seq<Word>, n: nat)
    ensures
        spec_bit(words_val(s), n) == spec_bit(word_at(s, (n / 64) as int) as nat, n % 64),
{
    lemma_seq_bit(s, n);
    if n / 64 >= s.len() {
        lemma_pow2_pos(n % 64);
        lemma_basic_div(0, pow2(n % 64) as int);
        assert(0nat % 2 == 0);
    }
}

/// Which bitwise operation to apply to the words.
#[derive(Clone, Copy, PartialEq, Eq, Structural)]
enum BitOp {
    And,
    Or,
    Xor,
    AndNot,
}

/// The result of a bitwise operation on two booleans.
spec fn spec_bit_op(op: BitOp, a: bool, b: bool) -> bool {
    match op {
        BitOp::And => a && b,
        BitOp::Or => a || b,
        BitOp::Xor => a != b,
        BitOp::AndNot => a && !b,
    }
}

/// Apply a bitwise operation word by word; the result has the length of the longer operand
/// (of `lhs` for `And` and `AndNot`, where the other words are zero anyway).
fn bit_op_words(lhs: &[Word], rhs: &[Word], op: BitOp) -> (r: Vec<Word>)
    ensures
        r@.len() <= lhs@.len() || r@.len() <= rhs@.len(),
        forall|n: nat|
            #![trigger spec_bit(words_val(r@), n)]
            spec_bit(words_val(r@), n) == spec_bit_op(
                op,
                spec_bit(words_val(lhs@), n),
                spec_bit(words_val(rhs@), n),
            ),
{
    let len = match op {
        BitOp::And => if lhs.len() < rhs.len() {
            lhs.len()
        } else {
            rhs.len()
        },
        BitOp::AndNot => lhs.len(),
        _ => if lhs.len() < rhs.len() {
            rhs.len()
        } else {
            lhs.len()
        },
    };
    let mut r: Vec<Word> = Vec::new();
    let mut i: usize = 0;
    while i < len
        invariant
            i <= len,
            r@.len() == i,
            len <= lhs@.len() || len <= rhs@.len(),
            op == BitOp::And ==> len <= lhs@.len() && len <= rhs@.len(),
            op == BitOp::AndNot ==> len == lhs@.len(),
            op == BitOp::Or || op == BitOp::Xor ==> len >= lhs@.len() && len >= rhs@.len(),
            forall|j: int|
                0 <= j < i ==> r@[j] == match op {
                    BitOp::And => word_at(lhs@, j) & word_at(rhs@, j),
                    BitOp::Or => word_at(lhs@, j) | word_at(rhs@, j),
                    BitOp::Xor => word_at(lhs@, j) ^ word_at(rhs@, j),
                    BitOp::AndNot => word_at(lhs@, j) & !word_at(rhs@, j),
                },
        decreases len - i,
    {
        let x = if i < lhs.len() {
            lhs[i]
        } else {
            0
        };
        let y = if i < rhs.len() {
            rhs[i]
        } else {
            0
        };
        let w = match op {
            BitOp::And => x & y,
            BitOp::Or => x | y,
            BitOp::Xor => x ^ y,
            BitOp::AndNot => x & !y,
        };
        r.push(w);
        i = i + 1;
    }
    proof {
        assert forall|n: nat|
            #![trigger spec_bit(words_val(r@), n)]
            spec_bit(words_val(r@), n) == spec_bit_op(
                op,
                spec_bit(words_val(lhs@), n),
                spec_bit(words_val(rhs@), n),
            ) by {
            let j = (n / 64) as int;
            lemma_seq_bit_at(r@, n);
            lemma_seq_bit_at(lhs@, n);
            lemma_seq_bit_at(rhs@, n);
            lemma_word_ops_bit(word_at(lhs@, j), word_at(rhs@, j), n % 64);
            if j >= len {
                // beyond the computed words every operation gives zero bits
                assert(word_at(r@, j) == 0);
                lemma_word_ops_bit(0, 0, n % 64);
                assert(0u64 & 0u64 == 0) by (bit_vector);
                lemma_zero_bit(n % 64);
                if op == BitOp::And {
                    assert(word_at(lhs@, j) == 0 || word_at(rhs@, j) == 0);
                } else if op == BitOp::AndNot {
                    assert(word_at(lhs@, j) == 0);
                } else {
                    assert(word_at(lhs@, j) == 0 && word_at(rhs@, j) == 0);
                }
            }
        }
    }
    r
}

/// The zero word has no bit set.
proof fn lemma_zero_bit(k: nat)
    ensures
        !spec_bit(0, k),
{
    lemma_pow2_pos(k);
    lemma_basic_div(0, pow2(k) as int);
    assert(0nat % 2 == 0);
}

impl UBig {
    /// The number whose bits are set where both operands have their bits set.
    pub fn bitand(&self, rhs: &UBig) -> (r: UBig)
        ensures
            forall|n: nat|
                #![trigger spec_bit(r@, n)]
                spec_bit(r@, n) == (spec_bit(self@, n) && spec_bit(rhs@, n)),
    {
        let mut v = bit_op_words(self.as_words(), rhs.as_words(), BitOp::And);
        crate::gcd_ops::trim_zeros(&mut v);
        UBig::from_vec(v)
    }

    /// The number whose bits are set where either operand has its bit set.
    pub fn bitor(&self, rhs: &UBig) -> (r: UBig)
        ensures
            forall|n: nat|
                #![trigger spec_bit(r@, n)]
                spec_bit(r@, n) == (spec_bit(self@, n) || spec_bit(rhs@, n)),
    {
        let mut v = bit_op_words(self.as_words(), rhs.as_words(), BitOp::Or);
        crate::gcd_ops::trim_zeros(&mut v);
        UBig::from_vec(v)
    }

    /// The number whose bits are set where exactly one operand has its bit set.
    pub fn bitxor(&self, rhs: &UBig) -> (r: UBig)
        ensures
            forall|n: nat|
                #![trigger spec_bit(r@, n)]
                spec_bit(r@, n) == (spec_bit(self@, n) != spec_bit(rhs@, n)),
    {
        let mut v = bit_op_words(self.as_words(), rhs.as_words(), BitOp::Xor);
        crate::gcd_ops::trim_zeros(&mut v);
        UBig::from_vec(v)
    }

    /// The number whose bits are set where `self` has its bit set and `rhs` does not.
    pub fn and_not(&self, rhs: &UBig) -> (r: UBig)
        ensures
            forall|n: nat|
                #![trigger spec_bit(r@, n)]
                spec_bit(r@, n) == (spec_bit(self@, n) && !spec_bit(rhs@, n)),
    {
        let mut v = bit_op_words(self.as_words(), rhs.as_words(), BitOp::AndNot);
        crate::gcd_ops::trim_zeros(&mut v);
        UBig::from_vec(v)
    }
}

/// `p` is the smallest power of two that is not below `x`.
pub open spec fn is_next_power_of_two(x: nat, p: nat) -> bool {
    &&& spec_is_power_of_two(p)
    &&& x <= p
    &&& (p == 1 || p / 2 < x)
}

/// The smallest power of two not below a word, if it fits in a word.
fn word_next_power_of_two(w: Word) -> (r: Option<Word>)
    ensures
        r matches Some(p) ==> is_next_power_of_two(w as nat, p as nat),
        r is None ==> w > 0x8000_0000_0000_0000u64,
{
    if w <= 1 {
        proof {
            lemma2_to64();
            assert(pow2(0) == 1);
        }
        return Some(1);
    }
    let k = crate::math::ceil_log2(w);
    proof {
        lemma_pow2_widths();
        lemma2_to64_rest();
        crate::primitive::lemma_bit_len_le((w - 1) as nat, 64);
    }
    if k >= 64 {
        proof {
            lemma_pow2_strictly_increases_or_equal(63, (k - 1) as nat);
        }
        None
    } else {
        proof {
            lemma_u64_pow2_no_overflow(k as nat);
            lemma_u64_shl_is_mul(1, k as u64);
            lemma_pow2_unfold(k as nat);
            assert(pow2(k as nat) / 2 == pow2((k - 1) as nat));
        }
        Some(1u64 << k)
    }
}

/// The smallest power of two not below a double word, if it fits in a double word.
fn dword_next_power_of_two(w: DoubleWord) -> (r: Option<DoubleWord>)
    ensures
        r matches Some(p) ==> is_next_power_of_two(w as nat, p as nat),
        r is None ==> w > 0x8000_0000_0000_0000_0000_0000_0000_0000u128,
{
    if w <= 1 {
        proof {
            lemma2_to64();
            assert(pow2(0) == 1);
        }
        return Some(1);
    }
    let k = crate::math::ceil_log2(w);
    proof {
        lemma_pow2_widths();
        lemma_pow2_adds(63, 64);
        lemma2_to64_rest();
        crate::primitive::lemma_bit_len_le((w - 1) as nat, 128);
    }
    if k >= 128 {
        proof {
            lemma_pow2_strictly_increases_or_equal(127, (k - 1) as nat);
        }
        None
    } else {
        proof {
            lemma_pow2_strictly_increases_or_equal(k as nat, 127);
            crate::primitive::lemma_u128_shl_is_mul(1, k as nat);
            lemma_pow2_unfold(k as nat);
            assert(pow2(k as nat) / 2 == pow2((k - 1) as nat));
        }
        Some(1u128 << k)
    }
}

/// Rounding the top word up: with `p` the next power of two of `top + c` (or `2^64`), the
/// number `low + top b` has `p b` as its next power of two.
proof fn lemma_next_power_scaled(top: int, c: int, low: int, b: int, p: int)
    requires
        top >= 1,
        c == 0 || c == 1,
        c == 1 <==> low > 0,
        0 <= low < b,
        b >= 2,
        b % 2 == 0,
        p >= top + c,
        p == 1 || (p % 2 == 0 && p / 2 < top + c),
    ensures
        low + top * b <= p * b,
        (p * b) / 2 < low + top * b,
{
    assert(low + top * b <= p * b) by (nonlinear_arith)
        requires
            c == 0 || c == 1,
            c == 0 ==> low == 0,
            low < b,
            p >= top + c,
            b >= 2,
    ;
    lemma_fundamental_div_mod(b, 2);
    let hb = b / 2;
    assert(b == 2 * hb);
    if p == 1 {
        assert(p * b == 2 * hb);
        assert((p * b) / 2 == hb);
        assert(hb < low + top * b) by (nonlinear_arith)
            requires
                b == 2 * hb,
                hb > 0,
                top >= 1,
                low >= 0,
        ;
    } else {
        lemma_fundamental_div_mod(p, 2);
        let hp = p / 2;
        assert(p * b == 2 * (hp * b)) by (nonlinear_arith)
            requires
                p == 2 * hp,
        ;
        assert((p * b) / 2 == hp * b) by {
            lemma_div_multiples_vanish(hp * b, 2);
            lemma_mul_is_commutative(2, hp * b);
        }
        if c == 0 {
            lemma_mul_inequality(hp, top - 1, b);
            lemma_mul_is_distributive_sub_other_way(b, top, 1);
        } else {
            lemma_mul_inequality(hp, top, b);
        }
    }
}

/// The next power of two of a number of more than two words.
fn next_power_of_two_large(words: &[Word]) -> (r: UBig)
    requires
        words@.len() > 2,
        words@.last() != 0,
        words@.len() < spec_max_capacity(),
    ensures
        is_next_power_of_two(words_val(words@), r@),
{
    let n = words.len();
    let mut buffer: Vec<Word> = Vec::new();
    let mut i: usize = 0;
    while i < n
        invariant
            i <= n,
            n == words@.len(),
            buffer@ == words@.subrange(0, i as int),
        decreases n - i,
    {
        buffer.push(words[i]);
        i = i + 1;
        proof {
            assert(buffer@ =~= words@.subrange(0, i as int));
        }
    }
    proof {
        assert(buffer@ =~= words@);
    }
    // find the lowest non-zero word below the top one
    let mut i: usize = 0;
    while i < n - 1 && buffer[i] == 0
        invariant
            i <= n - 1,
            n == words@.len(),
            buffer@ == words@,
            forall|j: int| 0 <= j < i ==> words@[j] == 0,
        decreases n - 1 - i,
    {
        i = i + 1;
    }
    let ghost low_words = words@.subrange(0, n - 1);
    let mut carry: Word = 0;
    if i < n - 1 {
        carry = 1;
        let mut j: usize = i;
        while j < n - 1
            invariant
                i <= j <= n - 1,
                n == words@.len(),
                buffer@.len() == n,
                buffer@[n - 1] == words@[n - 1],
                forall|k: int| 0 <= k < j ==> buffer@[k] == 0,
            decreases n - 1 - j,
        {
            buffer.set(j, 0);
            j = j + 1;
        }
    }
    let ghost top = words@[n - 1];
    let ghost x = words_val(words@);
    proof {
        crate::words::lemma_words_val_split(words@, n - 1);
        assert(words@.subrange(n - 1, n as int) =~= seq![top]);
        crate::words::lemma_words_val_single(top);
        lemma_words_val_zero_iff(low_words);
        crate::words::lemma_words_val_bound(low_words);
        if i < n - 1 {
            assert(low_words[i as int] != 0);
        } else {
            assert forall|j: int| 0 <= j < low_words.len() implies low_words[j] == 0 by {
                assert(low_words[j] == words@[j]);
            }
        }
        lemma_word_pow((n - 1) as nat);
        crate::words::lemma_word_pow_monotone(1, (n - 1) as nat);
        // B^(n-1) is even
        lemma_pow2_unfold(64 * (n - 1) as nat);
        lemma_mod_multiples_basic(pow2((64 * (n - 1) - 1) as nat) as int, 2);
        lemma_mul_is_commutative(2, pow2((64 * (n - 1) - 1) as nat) as int);
        // the lower words are all zero now
        let z = Seq::new((n - 1) as nat, |k: int| 0u64);
        assert(buffer@.subrange(0, n - 1) =~= z);
        lemma_words_val_zeros((n - 1) as nat);
        crate::words::lemma_words_val_split(buffer@, n - 1);
        assert(buffer@.subrange(n - 1, n as int) =~= seq![top]);
    }
    let next = match top_plus(buffer[n - 1], carry) {
        Some(t) => word_next_power_of_two(t),
        None => None,
    };
    match next {
        Some(p) => {
            let ghost before = buffer@;
            buffer.set(n - 1, p);
            proof {
                crate::words::lemma_words_val_split(buffer@, n - 1);
                assert(buffer@.subrange(0, n - 1) =~= before.subrange(0, n - 1));
                assert(buffer@.subrange(n - 1, n as int) =~= seq![p]);
                crate::words::lemma_words_val_single(p);
                lemma_mul_is_commutative(word_pow((n - 1) as nat) as int, p as int);
                lemma_mul_is_commutative(word_pow((n - 1) as nat) as int, top as int);
                if p != 1 {
                    // p is even as a power of two above one
                    lemma_power_of_two_even(p as nat);
                }
                lemma_next_power_scaled(top as int, carry as int, words_val(low_words) as int,
                    word_pow((n - 1) as nat) as int, p as int);
                // a power of two times B^(n-1) is a power of two
                let k = choose|k: nat| pow2(k) == p;
                lemma_pow2_adds(k, 64 * (n - 1) as nat);
                assert(pow2(k + 64 * (n - 1) as nat) == words_val(buffer@));
            }
        },
        None => {
            let ghost before = buffer@;
            buffer.set(n - 1, 0);
            buffer.push(1);
            proof {
                lemma_pow2_widths();
                lemma2_to64_rest();
                assert(buffer@ =~= Seq::new(n as nat, |k: int| 0u64).push(1u64));
                lemma_words_val_push(Seq::new(n as nat, |k: int| 0u64), 1u64);
                lemma_words_val_zeros(n as nat);
                lemma_word_pow((n - 1) as nat);
                lemma_next_power_scaled(top as int, carry as int, words_val(low_words) as int,
                    word_pow((n - 1) as nat) as int, word_base() as int);
                lemma_mul_is_commutative(word_pow((n - 1) as nat) as int, top as int);
                assert(pow2(64 * n as nat) == words_val(buffer@));
                lemma_mod_multiples_basic(0x8000_0000_0000_0000, 2);
            }
        },
    }
    UBig::from_vec(buffer)
}

/// `top + carry`, if it fits in a word.
fn top_plus(top: Word, carry: Word) -> (r: Option<Word>)
    requires
        carry <= 1,
    ensures
        top + carry <= u64::MAX ==> r == Some((top + carry) as Word),
        top + carry > u64::MAX ==> r is None,
{
    top.checked_add(carry)
}

/// A power of two above one is even.
proof fn lemma_power_of_two_even(p: nat)
    requires
        spec_is_power_of_two(p),
        p != 1,
    ensures
        p % 2 == 0,
{
    let k = choose|k: nat| pow2(k) == p;
    if k == 0 {
        lemma2_to64();
    } else {
        lemma_pow2_unfold(k);
        lemma_mod_multiples_basic(pow2((k - 1) as nat) as int, 2);
        lemma_mul_is_commutative(2, pow2((k - 1) as nat) as int);
    }
}

impl UBig {
    /// Whether the number is a power of two.
    pub fn is_power_of_two(&self) -> (r: bool)
        ensures
            r == spec_is_power_of_two(self@),
    {
        let words = self.as_words();
        let n = words.len();
        proof {
            lemma_zero_iff_empty(words@);
        }
        if n == 0 {
            proof {
                if spec_is_power_of_two(0) {
                    let k = choose|k: nat| pow2(k) == 0nat;
                    lemma_pow2_pos(k);
                }
            }
            return false;
        }
        let mut i: usize = 0;
        while i < n - 1
            invariant
                i <= n - 1,
                n == words@.len(),
                words@.last() != 0,
                words_val(words@) == self@,
                forall|j: int| 0 <= j < i ==> words@[j] == 0,
            decreases n - 1 - i,
        {
            if words[i] != 0 {
                proof {
                    lemma_not_power_of_two_with_low(words@, i as int);
                }
                return false;
            }
            i = i + 1;
        }
        let top = words[n - 1];
        proof {
            lemma_power_of_two_top(words@);
        }
        crate::math::word_is_power_of_two(top)
    }

    /// The smallest power of two not below the number (one for zero).
    ///
    /// The number must have fewer words than the maximal capacity.
    pub fn next_power_of_two(self) -> (r: UBig)
        requires
            self.spec_words().len() < spec_max_capacity(),
        ensures
            is_next_power_of_two(self@, r@),
    {
        match self.as_dword() {
            Some(dw) => match dword_next_power_of_two(dw) {
                Some(p) => UBig::from_dword(p),
                None => {
                    proof {
                        lemma_pow2_widths();
                        let z = seq![0u64, 0u64, 1u64];
                        assert(z =~= Seq::new(2, |k: int| 0u64).push(1u64));
                        lemma_words_val_push(Seq::new(2, |k: int| 0u64), 1u64);
                        lemma_words_val_zeros(2);
                        lemma_word_pow(2);
                        lemma_word_pow(1);
                        lemma_word_pow(0);
                        lemma_pow2_adds(64, 64);
                        lemma_pow2_adds(63, 64);
                        lemma2_to64_rest();
                        assert(word_pow(2) == pow2(128));
                        assert(pow2(128) / 2 == pow2(127));
                    }
                    let r = UBig::from_words(&[0, 0, 1]);
                    proof {
                        assert(spec_is_power_of_two(r@));
                    }
                    r
                },
            },
            None => next_power_of_two_large(self.as_words()),
        }
    }
}

/// A number with a non-zero word below its non-zero top word is not a power of two.
proof fn lemma_not_power_of_two_with_low(s: Seq<Word>, i: int)
    requires
        0 <= i < s.len() - 1,
        s[i] != 0,
        s.last() != 0,
    ensures
        !spec_is_power_of_two(words_val(s)),
{
    let n = s.len();
    let x = words_val(s);
    if spec_is_power_of_two(x) {
        let k = choose|k: nat| pow2(k) == x;
        crate::words::lemma_words_val_lower(s);
        lemma_word_pow((n - 1) as nat);
        if k < 64 * (n - 1) {
            lemma_pow2_strictly_increases(k, 64 * (n - 1) as nat);
        }
        // x is a multiple of B^(n-1), so its low part is zero
        lemma_pow2_adds((k - 64 * (n - 1)) as nat, 64 * (n - 1) as nat);
        lemma_mod_multiples_basic(pow2((k - 64 * (n - 1)) as nat) as int, word_pow((n - 1) as nat) as int);
        crate::words::lemma_words_val_div_pow(s, (n - 1) as nat);
        let low = s.subrange(0, n - 1);
        lemma_words_val_zero_iff(low);
        assert(low[i] == s[i]);
    }
}

/// A number whose words below the top are zero is a power of two exactly when its top word is.
proof fn lemma_power_of_two_top(s: Seq<Word>)
    requires
        s.len() > 0,
        s.last() != 0,
        forall|j: int| 0 <= j < s.len() - 1 ==> s[j] == 0,
    ensures
        spec_is_power_of_two(words_val(s)) == spec_is_power_of_two(s.last() as nat),
{
    let n = s.len();
    let top = s.last();
    let low = s.subrange(0, n - 1);
    crate::words::lemma_words_val_split(s, n - 1);
    assert(s.subrange(n - 1, n as int) =~= seq![top]);
    crate::words::lemma_words_val_single(top);
    assert(low =~= Seq::new((n - 1) as nat, |k: int| 0u64));
    lemma_words_val_zeros((n - 1) as nat);
    let m = 64 * (n - 1) as nat;
    lemma_word_pow((n - 1) as nat);
    assert(words_val(s) == pow2(m) * top);
    if spec_is_power_of_two(top as nat) {
        let k = choose|k: nat| pow2(k) == top;
        lemma_pow2_adds(m, k);
        assert(pow2(m + k) == words_val(s));
    }
    if spec_is_power_of_two(words_val(s)) {
        let k = choose|k: nat| pow2(k) == words_val(s);
        crate::words::lemma_words_val_lower(s);
        if k < m {
            lemma_pow2_strictly_increases(k, m);
        }
        lemma_pow2_adds(m, (k - m) as nat);
        lemma_pow2_pos(m);
        lemma_mul_is_commutative(pow2(m) as int, top as int);
        lemma_mul_is_commutative(pow2(m) as int, pow2((k - m) as nat) as int);
        lemma_div_multiples_vanish(top as int, pow2(m) as int);
        lemma_div_multiples_vanish(pow2((k - m) as nat) as int, pow2(m) as int);
        assert(pow2((k - m) as nat) == top);
    }
}

/// Bit `k + 1` of `x` is bit `k` of `x / 2`.
pub proof fn lemma_bit_shift(x: nat, k: nat)
    ensures
        spec_bit(x, k + 1) == spec_bit(x / 2, k),
{
    lemma_pow2_unfold(k + 1);
    lemma_pow2_pos(k);
    lemma_div_denominator(x as int, 2, pow2(k) as int);
    lemma_mul_is_commutative(2, pow2(k) as int);
}

/// A number is determined by its bits: two numbers with the same bits are equal.
pub proof fn lemma_bits_determine(x: nat, y: nat)
    requires
        forall|k: nat| #[trigger] spec_bit(x, k) == spec_bit(y, k),
    ensures
        x == y,
    decreases x + y,
{
    lemma2_to64();
    assert(spec_bit(x, 0) == spec_bit(y, 0));
    assert(x / 1 == x && y / 1 == y);
    if x > 0 || y > 0 {
        assert forall|k: nat| #[trigger] spec_bit(x / 2, k) == spec_bit(y / 2, k) by {
            lemma_bit_shift(x, k);
            lemma_bit_shift(y, k);
            assert(spec_bit(x, k + 1) == spec_bit(y, k + 1));
        }
        lemma_bits_determine(x / 2, y / 2);
        lemma_fundamental_div_mod(x as int, 2);
        lemma_fundamental_div_mod(y as int, 2);
    }
}

/// Setting a clear bit: adding `2^n` to a number whose bit `n` is clear sets that bit and
/// keeps all the others.
pub proof fn lemma_set_bit_bits(x: nat, n: nat)
    requires
        !spec_bit(x, n),
    ensures
        spec_bit(x + pow2(n), n),
        forall|m: nat| m != n ==> #[trigger] spec_bit(x + pow2(n), m) == spec_bit(x, m),
{
    let p = pow2(n);
    lemma_pow2_pos(n);
    lemma_div_plus_one(x, p);
    assert forall|m: nat| m != n implies #[trigger] spec_bit(x + pow2(n), m) == spec_bit(x, m) by {
        lemma_pow2_pos(m);
        if m < n {
            // 2^n is 2^(n - m) 2^m with 2^(n - m) even
            lemma_pow2_adds((n - m) as nat, m);
            lemma_div_multiples_vanish_fancy_general_nat(x, pow2((n - m) as nat), pow2(m));
            lemma_pow2_unfold((n - m) as nat);
            lemma_mod_multiples_vanish_2(pow2((n - m - 1) as nat), x / pow2(m));
        } else {
            // bit n is clear, so the low m bits of x stay below 2^m after adding 2^n
            lemma_low_bits_room(x, n, m);
        }
    }
}

/// `(x + p) / p == x / p + 1`.
proof fn lemma_div_plus_one(x: nat, p: nat)
    requires
        p > 0,
    ensures
        (x + p) / p == x / p + 1,
{
    lemma_div_multiples_vanish_fancy_general_nat(x, 1, p);
}

/// `(x + k d) / d == x / d + k`.
proof fn lemma_div_multiples_vanish_fancy_general_nat(x: nat, k: nat, d: nat)
    requires
        d > 0,
    ensures
        (x + k * d) / d == x / d + k,
{
    crate::words::lemma_div_multiples_vanish_fancy_general(x as int, k as int, d as int);
    lemma_mul_is_commutative(k as int, d as int);
}

/// Adding an even number keeps the parity.
proof fn lemma_mod_multiples_vanish_2(h: nat, y: nat)
    ensures
        (y + 2 * h) % 2 == y % 2,
{
    lemma_mod_multiples_vanish(h as int, y as int, 2);
}

/// With bit `n` of `x` clear and `m > n`, adding `2^n` does not carry into bit `m`:
/// `(x + 2^n) / 2^m == x / 2^m`.
proof fn lemma_low_bits_room(x: nat, n: nat, m: nat)
    requires
        !spec_bit(x, n),
        m > n,
    ensures
        spec_bit(x + pow2(n), m) == spec_bit(x, m),
{
    let pn = pow2(n);
    let pm = pow2(m);
    lemma_pow2_pos(n);
    lemma_pow2_pos(m);
    lemma_pow2_pos(n + 1);
    // x mod 2^m, split at bit n + 1: its bit n is clear, so it is below a multiple of 2^(n+1)
    // by at least 2^n
    let r = x % pm;
    let q = x / pm;
    lemma_fundamental_div_mod(x as int, pm as int);
    lemma_pow2_adds((m - n - 1) as nat, n + 1);
    let pn1 = pow2(n + 1);
    lemma_pow2_unfold(n + 1);
    // r / 2^n has the parity of x / 2^n
    lemma_pow2_pos((m - n) as nat);
    lemma_mod_breakdown(x as int, pn as int, pow2((m - n) as nat) as int);
    lemma_pow2_adds(n, (m - n) as nat);
    lemma_pow2_unfold((m - n) as nat);
    let t = r / pn;
    lemma_fundamental_div_mod(r as int, pn as int);
    // t == (x / 2^n) % 2^(m - n), and 2^(m - n) is even, so t is even
    assert(r == pn * ((x / pn) % pow2((m - n) as nat)) + x % pn);
    lemma_mod_bound(x as int, pn as int);
    lemma_div_multiples_vanish_fancy_general_nat(x % pn, (x / pn) % pow2((m - n) as nat), pn);
    lemma_small_div_nat(x % pn, pn);
    assert(t == (x / pn) % pow2((m - n) as nat));
    lemma_mod_mod((x / pn) as int, 2, pow2((m - n - 1) as nat) as int);
    lemma_mul_is_commutative(2, pow2((m - n - 1) as nat) as int);
    assert(t % 2 == (x / pn) % 2);
    // so r + 2^n < 2^m
    lemma_mod_bound((x / pn) as int, pow2((m - n) as nat) as int);
    assert(t + 1 < pow2((m - n) as nat) || t + 1 == pow2((m - n) as nat));
    if t + 1 == pow2((m - n) as nat) {
        lemma_mod_multiples_basic(pow2((m - n - 1) as nat) as int, 2);
        lemma_mul_is_commutative(2, pow2((m - n - 1) as nat) as int);
        assert(false);
    }
    assert(r + pn < pm) by (nonlinear_arith)
        requires
            r == pn * t + x % pn,
            x % pn < pn,
            t + 1 < pow2((m - n) as nat),
            pm == pn * pow2((m - n) as nat),
            pn > 0,
    ;
    lemma_mul_is_commutative(pm as int, q as int);
    assert(x + pn == q * pm + (r + pn));
    lemma_fundamental_div_mod_converse((x + pn) as int, pm as int, q as int, (r + pn) as int);
}

/// `x / d == 0` for `x < d`.
proof fn lemma_small_div_nat(x: nat, d: nat)
    requires
        x < d,
    ensures
        x / d == 0,
{
    lemma_basic_div(x as int, d as int);
}

/// Clearing a set bit: subtracting `2^n` from a number whose bit `n` is set clears that bit
/// and keeps all the others.
pub proof fn lemma_clear_bit_bits(x: nat, n: nat)
    requires
        spec_bit(x, n),
    ensures
        x >= pow2(n),
        !spec_bit((x - pow2(n)) as nat, n),
        forall|m: nat| m != n ==> #[trigger] spec_bit((x - pow2(n)) as nat, m) == spec_bit(x, m),
{
    let p = pow2(n);
    lemma_pow2_pos(n);
    lemma_fundamental_div_mod(x as int, p as int);
    assert(x / p >= 1);
    lemma_mul_inequality(1, (x / p) as int, p as int);
    let y = (x - p) as nat;
    lemma_div_plus_one(y, p);
    assert(y + p == x);
    assert(!spec_bit(y, n));
    lemma_set_bit_bits(y, n);
}

/// The bitwise operations commute, and `and`, `or` are idempotent while `xor` cancels:
/// `a & b == b & a`, `a | b == b | a`, `a ^ b == b ^ a`, `a & a == a`, `a | a == a`,
/// `a ^ a == 0`, and `(a ^ b) ^ b == a`, for results given by their bits.
pub proof fn lemma_bit_op_laws(a: nat, b: nat, and_ab: nat, and_ba: nat, xor_ab: nat, xor_xb: nat)
    requires
        forall|n: nat| #[trigger] spec_bit(and_ab, n) == (spec_bit(a, n) && spec_bit(b, n)),
        forall|n: nat| #[trigger] spec_bit(and_ba, n) == (spec_bit(b, n) && spec_bit(a, n)),
        forall|n: nat| #[trigger] spec_bit(xor_ab, n) == (spec_bit(a, n) != spec_bit(b, n)),
        forall|n: nat| #[trigger] spec_bit(xor_xb, n) == (spec_bit(xor_ab, n) != spec_bit(b, n)),
    ensures
        and_ab == and_ba,
        xor_xb == a,
        a == b ==> and_ab == a && xor_ab == 0,
{
    lemma_bits_determine(and_ab, and_ba);
    lemma_bits_determine(xor_xb, a);
    if a == b {
        lemma_bits_determine(and_ab, a);
        assert forall|n: nat| #[trigger] spec_bit(xor_ab, n) == spec_bit(0, n) by {
            lemma_zero_bit(n);
        }
        lemma_bits_determine(xor_ab, 0);
    }
}

/// The next power of two is unique, so the contract of [UBig::next_power_of_two] fixes the
/// result; and a power of two is its own next power of two.
pub proof fn lemma_next_power_of_two_unique(x: nat, p1: nat, p2: nat)
    requires
        is_next_power_of_two(x, p1),
        is_next_power_of_two(x, p2),
    ensures
        p1 == p2,
        spec_is_power_of_two(x) ==> p1 == x,
{
    let k1 = choose|k: nat| pow2(k) == p1;
    let k2 = choose|k: nat| pow2(k) == p2;
    lemma_next_power_exponent(x, k1, k2);
    if spec_is_power_of_two(x) {
        let k = choose|k: nat| pow2(k) == x;
        lemma_pow2_pos(k);
        lemma_next_power_exponent(x, k1, k);
    }
}

/// Two powers of two that are both the smallest not below `x` have the same exponent.
proof fn lemma_next_power_exponent(x: nat, k1: nat, k2: nat)
    requires
        x <= pow2(k1),
        pow2(k1) == 1 || pow2(k1) / 2 < x,
        x <= pow2(k2),
        pow2(k2) == 1 || pow2(k2) / 2 < x,
    ensures
        k1 == k2,
{
    lemma2_to64();
    if k1 < k2 {
        lemma_pow2_unfold(k2);
        lemma_pow2_strictly_increases_or_equal(k1, (k2 - 1) as nat);
        lemma_pow2_pos(k2);
        if pow2(k2) == 1 {
            lemma_pow2_pos((k2 - 1) as nat);
        }
    } else if k2 < k1 {
        lemma_pow2_unfold(k1);
        lemma_pow2_strictly_increases_or_equal(k2, (k1 - 1) as nat);
        lemma_pow2_pos(k1);
        if pow2(k1) == 1 {
            lemma_pow2_pos((k1 - 1) as nat);
        }
    }
}

/// The number of trailing zeros is unique, so the contract of [UBig::trailing_zeros] fixes
/// the result.
pub proof fn lemma_trailing_zeros_unique(x: nat, t1: nat, t2: nat)
    requires
        is_trailing_zeros(x, t1),
        is_trailing_zeros(x, t2),
    ensures
        t1 == t2,
{
    if t1 < t2 {
        lemma_trailing_zeros_below(x, t1, t2);
    } else if t2 < t1 {
        lemma_trailing_zeros_below(x, t2, t1);
    }
}

/// If `2^t2` divides `x` and `t1 < t2`, then `x / 2^t1` is even.
proof fn lemma_trailing_zeros_below(x: nat, t1: nat, t2: nat)
    requires
        t1 < t2,
        x % pow2(t2) == 0,
    ensures
        (x / pow2(t1)) % 2 == 0,
{
    lemma_pow2_pos(t1);
    lemma_pow2_pos(t2);
    lemma_pow2_pos((t2 - t1) as nat);
    lemma_pow2_adds(t1, (t2 - t1) as nat);
    lemma_fundamental_div_mod(x as int, pow2(t2) as int);
    let q = x / pow2(t2);
    // x == 2^t1 (2^(t2 - t1) q)
    lemma_mul_is_associative(pow2(t1) as int, pow2((t2 - t1) as nat) as int, q as int);
    lemma_div_multiples_vanish((pow2((t2 - t1) as nat) * q) as int, pow2(t1) as int);
    lemma_mul_is_commutative(pow2(t1) as int, (pow2((t2 - t1) as nat) * q) as int);
    lemma_pow2_unfold((t2 - t1) as nat);
    lemma_mul_is_associative(2, pow2((t2 - t1 - 1) as nat) as int, q as int);
    lemma_mod_multiples_basic((pow2((t2 - t1 - 1) as nat) * q) as int, 2);
    lemma_mul_is_commutative(2, (pow2((t2 - t1 - 1) as nat) * q) as int);
}

} // verus!
