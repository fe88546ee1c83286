//! Conversions between big integers and bytes or bit chunks.
use vstd::prelude::*;
use vstd::arithmetic::power2::*;
use vstd::arithmetic::div_mod::*;
use vstd::arithmetic::mul::*;
use crate::arch::word::Word;
use crate::buffer::spec_max_capacity;
use crate::add::{add_word_in_place, add_word_at, add_same_len_at, sub_word_at};
use crate::shift::shl_in_place;
use crate::ibig::{IBig, spec_abs};
use crate::primitive::{lemma_pow2_widths, spec_bit_len, lemma_bit_len_bounds};
use crate::sign::Sign;
use crate::ubig::UBig;
use crate::words::{
    words_val, word_pow, is_normalized, lemma_words_val_push, lemma_words_val_bound, lemma_word_pow,
    lemma_words_val_div_pow, lemma_words_val_low_bit, lemma_word_pow_monotone,
    lemma_div_multiples_vanish_fancy_general, lemma_words_val_window, lemma_word_pow_adds,
};
use crate::gcd_ops::{trim_zeros, shr_bits, lemma_normalized_len_bound};
use crate::math::{spec_ceil_div, ceil_div_usize, ones_word};
use vstd::slice::slice_to_vec;
use vstd::bits::low_bits_mask;

verus! {

/// `256^k`, the weight of the byte at position `k`.
pub open spec fn byte_pow(k: nat) -> nat {
    pow2(8 * k)
}

/// The value of little-endian bytes: `s[0] + 256 s[1] + 256^2 s[2] + ...`.
pub open spec fn le_bytes_val(s: Seq<u8>) -> nat
    decreases s.len(),
{
    if s.len() == 0 {
        0
    } else {
        s[0] as nat + 256 * le_bytes_val(s.drop_first())
    }
}

/// The value of big-endian bytes.
pub open spec fn be_bytes_val(s: Seq<u8>) -> nat {
    le_bytes_val(s.reverse())
}

/// Little-endian bytes without a most significant zero byte.
pub open spec fn is_trimmed_le(s: Seq<u8>) -> bool {
    s.len() == 0 || s.last() != 0
}

/// `256^0 == 1`, `256^(k+1) == 256 * 256^k`, and eight bytes make a word.
pub proof fn lemma_byte_pow(k: nat)
    ensures
        byte_pow(0) == 1,
        byte_pow(k + 1) == 256 * byte_pow(k),
        byte_pow(k) > 0,
        byte_pow(8 * k) == word_pow(k),
        byte_pow(8) == 0x1_0000_0000_0000_0000,
{
    lemma2_to64();
    lemma_pow2_widths();
    lemma_pow2_adds(8, 8 * k);
    assert(8 * (k + 1) == 8 + 8 * k) by (nonlinear_arith);
    assert(8 * (8 * k) == 64 * k) by (nonlinear_arith);
    lemma_pow2_pos(8 * k);
}

/// `val(a + b) == val(a) + 256^|a| val(b)`.
pub proof fn lemma_le_bytes_append(a: Seq<u8>, b: Seq<u8>)
    ensures
        le_bytes_val(a + b) == le_bytes_val(a) + byte_pow(a.len()) * le_bytes_val(b),
    decreases a.len(),
{
    lemma_byte_pow(0);
    if a.len() == 0 {
        assert(a + b =~= b);
    } else {
        let rest = a.drop_first();
        assert((a + b).drop_first() =~= rest + b);
        lemma_le_bytes_append(rest, b);
        lemma_byte_pow(rest.len());
        let p = byte_pow(rest.len()) as int;
        let vb = le_bytes_val(b) as int;
        assert(256 * (le_bytes_val(rest) + p * vb) == 256 * le_bytes_val(rest) + (256 * p) * vb)
            by (nonlinear_arith);
    }
}

/// Pushing a byte: `val(s.push(x)) == val(s) + 256^|s| x`.
pub proof fn lemma_le_bytes_push(s: Seq<u8>, x: u8)
    ensures
        le_bytes_val(s.push(x)) == le_bytes_val(s) + byte_pow(s.len()) * x,
{
    assert(s.push(x) =~= s + seq![x]);
    lemma_le_bytes_append(s, seq![x]);
    assert(seq![x].drop_first() =~= Seq::<u8>::empty());
    assert(le_bytes_val(Seq::<u8>::empty()) == 0);
    assert(le_bytes_val(seq![x]) == x as nat);
}

/// The value of `n` bytes is below `256^n`.
pub proof fn lemma_le_bytes_bound(s: Seq<u8>)
    ensures
        le_bytes_val(s) < byte_pow(s.len()),
    decreases s.len(),
{
    lemma_byte_pow(0);
    if s.len() > 0 {
        let rest = s.drop_first();
        lemma_le_bytes_bound(rest);
        lemma_byte_pow(rest.len());
        assert(s[0] + 256 * le_bytes_val(rest) < 256 * byte_pow(rest.len())) by (nonlinear_arith)
            requires
                s[0] < 256,
                le_bytes_val(rest) + 1 <= byte_pow(rest.len()),
        ;
    }
}

/// Bytes whose top byte is non-zero have value at least `256^(n-1)`.
pub proof fn lemma_le_bytes_lower(s: Seq<u8>)
    requires
        s.len() > 0,
        s.last() != 0,
    ensures
        le_bytes_val(s) >= byte_pow((s.len() - 1) as nat),
{
    let init = s.drop_last();
    assert(init.push(s.last()) =~= s);
    lemma_le_bytes_push(init, s.last());
    lemma_mul_inequality(1, s.last() as int, byte_pow(init.len()) as int);
    lemma_mul_is_commutative(s.last() as int, byte_pow(init.len()) as int);
}

/// The word of the (at most eight) little-endian bytes `bytes[start..end]`.
fn word_from_le_bytes(bytes: &[u8], start: usize, end: usize) -> (r: Word)
    requires
        start <= end <= bytes@.len(),
        end - start <= 8,
    ensures
        r == le_bytes_val(bytes@.subrange(start as int, end as int)),
{
    let mut w: Word = 0;
    let mut j = end;
    proof {
        lemma_byte_pow(0);
        assert(bytes@.subrange(end as int, end as int) =~= Seq::<u8>::empty());
    }
    while j > start
        invariant
            start <= j <= end,
            end <= bytes@.len(),
            end - start <= 8,
            w == le_bytes_val(bytes@.subrange(j as int, end as int)),
            w < byte_pow((end - j) as nat),
        decreases j - start,
    {
        j = j - 1;
        proof {
            let s = bytes@.subrange(j as int, end as int);
            assert(s.drop_first() =~= bytes@.subrange(j + 1, end as int));
            lemma_byte_pow((end - j - 1) as nat);
            lemma_byte_pow(8);
            if end - j < 8 {
                lemma_pow2_strictly_increases(8 * (end - j) as nat, 64);
            }
            assert(w * 256 + bytes@[j as int] < 256 * byte_pow((end - j - 1) as nat))
                by (nonlinear_arith)
                requires
                    w + 1 <= byte_pow((end - j - 1) as nat),
                    bytes@[j as int] < 256,
            ;
        }
        w = w * 256 + bytes[j] as u64;
    }
    w
}

/// Append the bytes of `w`, least significant first: all eight of them, or, when `all` is false,
/// as many as its value needs, the last one non-zero.
fn push_word_bytes(bytes: &mut Vec<u8>, w: Word, all: bool)
    ensures
        le_bytes_val(final(bytes)@) == le_bytes_val(old(bytes)@) + byte_pow(old(bytes)@.len()) * w,
        final(bytes)@.subrange(0, old(bytes)@.len() as int) == old(bytes)@,
        final(bytes)@.len() <= old(bytes)@.len() + 8,
        all ==> final(bytes)@.len() == old(bytes)@.len() + 8,
        !all && w != 0 ==> final(bytes)@.len() > old(bytes)@.len() && final(bytes)@.last() != 0,
        !all && w == 0 ==> final(bytes)@ == old(bytes)@,
{
    let ghost start = bytes@;
    let mut v = w;
    let mut k: usize = 0;
    proof {
        lemma_byte_pow(8);
        assert(bytes@.subrange(0, start.len() as int) =~= start);
    }
    while (all && k < 8) || (!all && v > 0)
        invariant
            bytes@.len() == start.len() + k,
            k <= 8,
            bytes@.subrange(0, start.len() as int) == start,
            le_bytes_val(bytes@) + byte_pow(bytes@.len()) * v == le_bytes_val(start) + byte_pow(
                start.len(),
            ) * w,
            v < byte_pow((8 - k) as nat),
            !all && k > 0 ==> (v > 0 || bytes@.last() != 0),
            v <= w,
            k == 0 ==> v == w,
            !all && w == 0 ==> k == 0,
        decreases 8 - k,
    {
        let ghost before = bytes@;
        let b = (v % 256) as u8;
        let nv = v / 256;
        proof {
            lemma_byte_pow(0);
            lemma_byte_pow(before.len());
            lemma_byte_pow((8 - k - 1) as nat);
            lemma_fundamental_div_mod(v as int, 256);
            lemma_le_bytes_push(before, b);
            let p = byte_pow(before.len()) as int;
            assert(p * b + (256 * p) * nv == p * v) by (nonlinear_arith)
                requires
                    v == 256 * nv + b,
            ;
            lemma_multiply_divide_lt(v as int, 256, byte_pow((8 - k - 1) as nat) as int);
            assert(nv <= v);
            assert(before.push(b).subrange(0, start.len() as int) =~= start);
        }
        bytes.push(b);
        v = nv;
        k = k + 1;
    }
    proof {
        lemma_byte_pow(0);
        if k == 0 {
            assert(bytes@ =~= start);
        }
    }
}

/// The words of little-endian bytes: eight bytes to a word, the last word possibly partial.
fn le_bytes_to_words(bytes: &[u8]) -> (r: Vec<Word>)
    requires
        bytes@.len() <= 8 * spec_max_capacity(),
    ensures
        words_val(r@) == le_bytes_val(bytes@),
        r@.len() <= spec_max_capacity(),
        8 * r@.len() >= bytes@.len(),
{
    let n = bytes.len();
    let mut words: Vec<Word> = Vec::new();
    let mut i: usize = 0;
    proof {
        assert(bytes@.subrange(0, 0) =~= Seq::<u8>::empty());
    }
    while i < n
        invariant
            i <= n,
            n == bytes@.len(),
            n <= 8 * spec_max_capacity(),
            i < n ==> i == 8 * words@.len(),
            8 * words@.len() >= i,
            words@.len() <= spec_max_capacity(),
            words_val(words@) == le_bytes_val(bytes@.subrange(0, i as int)),
        decreases n - i,
    {
        let end = if n - i > 8 { i + 8 } else { n };
        let w = word_from_le_bytes(bytes, i, end);
        proof {
            assert(bytes@.subrange(0, end as int) =~= bytes@.subrange(0, i as int)
                + bytes@.subrange(i as int, end as int));
            lemma_le_bytes_append(bytes@.subrange(0, i as int), bytes@.subrange(i as int, end as int));
            lemma_words_val_push(words@, w);
            lemma_byte_pow(words@.len());
            lemma_mul_is_commutative(w as int, word_pow(words@.len()) as int);
        }
        words.push(w);
        i = end;
    }
    proof {
        assert(bytes@.subrange(0, n as int) =~= bytes@);
    }
    words
}

/// The length and the elements of a reversed sequence.
pub proof fn lemma_reverse_index<A>(s: Seq<A>)
    ensures
        s.reverse().len() == s.len(),
        forall|i: int| 0 <= i < s.len() ==> #[trigger] s.reverse()[i] == s[s.len() - 1 - i],
        s.reverse().reverse() == s,
{
    let r = s.reverse();
    if s.len() > 0 {
        assert(r.len() == s.len());
        assert(r.reverse() =~= s);
    } else {
        assert(r =~= s);
    }
}

/// A copy of the bytes in reverse order.
fn reversed_bytes(bytes: &[u8]) -> (r: Vec<u8>)
    ensures
        r@ == bytes@.reverse(),
{
    let n = bytes.len();
    let mut r: Vec<u8> = Vec::new();
    let mut i: usize = 0;
    while i < n
        invariant
            i <= n,
            n == bytes@.len(),
            r@.len() == i,
            forall|k: int| 0 <= k < i ==> #[trigger] r@[k] == bytes@[n - 1 - k],
        decreases n - i,
    {
        r.push(bytes[n - 1 - i]);
        i = i + 1;
    }
    proof {
        lemma_reverse_index(bytes@);
        assert(r@ =~= bytes@.reverse());
    }
    r
}

impl UBig {
    /// Construct from little-endian bytes.
    ///
    /// # Examples
    ///
    /// ```
    /// # use dashu_int::ubig::UBig;
    /// assert_eq!(UBig::from_le_bytes(&[3, 2, 1]), UBig::from_word(0x010203));
    /// ```
    pub fn from_le_bytes(bytes: &[u8]) -> (r: UBig)
        requires
            bytes@.len() <= 8 * spec_max_capacity(),
        ensures
            r@ == le_bytes_val(bytes@),
    {
        UBig::from_vec(le_bytes_to_words(bytes))
    }

    /// Construct from big-endian bytes.
    ///
    /// # Examples
    ///
    /// ```
    /// # use dashu_int::ubig::UBig;
    /// assert_eq!(UBig::from_be_bytes(&[1, 2, 3]), UBig::from_word(0x010203));
    /// ```
    pub fn from_be_bytes(bytes: &[u8]) -> (r: UBig)
        requires
            bytes@.len() <= 8 * spec_max_capacity(),
        ensures
            r@ == be_bytes_val(bytes@),
    {
        let le = reversed_bytes(bytes);
        UBig::from_le_bytes(le.as_slice())
    }

    /// Return little-endian bytes, without a most significant zero byte.
    ///
    /// # Examples
    ///
    /// ```
    /// # use dashu_int::ubig::UBig;
    /// assert!(UBig::zero().to_le_bytes().is_empty());
    /// assert_eq!(*UBig::from_word(0x010203).to_le_bytes(), [3, 2, 1]);
    /// ```
    pub fn to_le_bytes(&self) -> (r: Vec<u8>)
        ensures
            le_bytes_val(r@) == self@,
            is_trimmed_le(r@),
    {
        let words = self.as_words();
        let n = words.len();
        let mut bytes: Vec<u8> = Vec::new();
        if n == 0 {
            return bytes;
        }
        let mut i: usize = 0;
        proof {
            assert(words@.subrange(0, 0) =~= Seq::<Word>::empty());
        }
        while i < n - 1
            invariant
                i <= n - 1,
                n == words@.len(),
                n > 0,
                bytes@.len() == 8 * i,
                le_bytes_val(bytes@) == words_val(words@.subrange(0, i as int)),
            decreases n - 1 - i,
        {
            let ghost before = bytes@;
            push_word_bytes(&mut bytes, words[i], true);
            proof {
                assert(words@.subrange(0, i as int).push(words@[i as int]) =~= words@.subrange(
                    0,
                    i + 1,
                ));
                lemma_words_val_push(words@.subrange(0, i as int), words@[i as int]);
                lemma_byte_pow(i as nat);
                lemma_mul_is_commutative(words@[i as int] as int, word_pow(i as nat) as int);
            }
            i = i + 1;
        }
        push_word_bytes(&mut bytes, words[n - 1], false);
        proof {
            assert(words@.subrange(0, (n - 1) as int).push(words@[n - 1]) =~= words@);
            lemma_words_val_push(words@.subrange(0, (n - 1) as int), words@[n - 1]);
            lemma_byte_pow((n - 1) as nat);
            lemma_mul_is_commutative(words@[n - 1] as int, word_pow((n - 1) as nat) as int);
        }
        bytes
    }

    /// Return big-endian bytes, without a most significant zero byte.
    ///
    /// # Examples
    ///
    /// ```
    /// # use dashu_int::ubig::UBig;
    /// assert!(UBig::zero().to_be_bytes().is_empty());
    /// assert_eq!(*UBig::from_word(0x010203).to_be_bytes(), [1, 2, 3]);
    /// ```
    pub fn to_be_bytes(&self) -> (r: Vec<u8>)
        ensures
            be_bytes_val(r@) == self@,
            r@.len() == 0 || r@[0] != 0,
    {
        let le = self.to_le_bytes();
        let r = reversed_bytes(le.as_slice());
        proof {
            lemma_reverse_index(le@);
        }
        r
    }
}

/// The value of little-endian bytes in two's complement: negative when the top bit of the last
/// byte is set.
pub open spec fn signed_le_bytes_val(s: Seq<u8>) -> int {
    if s.len() > 0 && s.last() >= 0x80 {
        le_bytes_val(s) - byte_pow(s.len())
    } else {
        le_bytes_val(s) as int
    }
}

/// The value of big-endian bytes in two's complement.
pub open spec fn signed_be_bytes_val(s: Seq<u8>) -> int {
    signed_le_bytes_val(s.reverse())
}

/// The number of two's complement bytes written for an integer of magnitude `mag`: none for
/// zero, otherwise enough for its bits and a sign bit.
pub open spec fn signed_bytes_len(mag: nat) -> nat {
    if mag == 0 {
        0
    } else {
        spec_bit_len(mag) / 8 + 1
    }
}

/// Every bit of every byte inverted.
pub open spec fn flip_bytes(s: Seq<u8>) -> Seq<u8> {
    s.map_values(|b: u8| (255 - b) as u8)
}

/// `val(!s) + val(s) + 1 == 256^n`.
proof fn lemma_flip_bytes(s: Seq<u8>)
    ensures
        flip_bytes(s).len() == s.len(),
        le_bytes_val(flip_bytes(s)) + le_bytes_val(s) + 1 == byte_pow(s.len()),
    decreases s.len(),
{
    lemma_byte_pow(0);
    if s.len() > 0 {
        let rest = s.drop_first();
        assert(flip_bytes(s).drop_first() =~= flip_bytes(rest));
        lemma_flip_bytes(rest);
        lemma_byte_pow(rest.len());
    } else {
        assert(flip_bytes(s) =~= Seq::<u8>::empty());
    }
}

/// The top bit of the last byte is set exactly when the value reaches `2^(8n-1)`.
proof fn lemma_le_bytes_top_bit(s: Seq<u8>)
    requires
        s.len() > 0,
    ensures
        (s.last() >= 0x80) == (le_bytes_val(s) >= 128 * byte_pow((s.len() - 1) as nat)),
{
    let init = s.drop_last();
    assert(init.push(s.last()) =~= s);
    lemma_le_bytes_push(init, s.last());
    lemma_le_bytes_bound(init);
    let p = byte_pow(init.len()) as int;
    let t = s.last() as int;
    if t >= 0x80 {
        lemma_mul_inequality(128, t, p);
    } else {
        lemma_mul_inequality(t, 127, p);
    }
    lemma_mul_is_commutative(t, p);
}

/// Trimmed bytes of a value below `256^k` number at most `k`.
proof fn lemma_trimmed_len(s: Seq<u8>, k: nat)
    requires
        is_trimmed_le(s),
        le_bytes_val(s) < byte_pow(k),
    ensures
        s.len() <= k,
{
    if s.len() > k {
        lemma_le_bytes_lower(s);
        if k < s.len() - 1 {
            lemma_pow2_strictly_increases(8 * k, (8 * (s.len() - 1)) as nat);
        }
    }
}

/// `2^(8n-1) == 128 * 256^(n-1)` and the two's complement length fits the bits of `mag`:
/// `mag < 2^(8n-1)` for `n = bit_len(mag) / 8 + 1`.
proof fn lemma_signed_len(mag: nat)
    requires
        mag > 0,
    ensures
        mag < 128 * byte_pow((signed_bytes_len(mag) - 1) as nat),
        byte_pow(signed_bytes_len(mag)) == 256 * byte_pow((signed_bytes_len(mag) - 1) as nat),
{
    let bl = spec_bit_len(mag);
    let n = bl / 8 + 1;
    lemma_bit_len_bounds(mag);
    lemma2_to64();
    lemma_pow2_adds(7, 8 * (n - 1) as nat);
    assert(bl <= 7 + 8 * (n - 1)) by (nonlinear_arith)
        requires
            n == bl / 8 + 1,
    ;
    if bl < 7 + 8 * (n - 1) {
        lemma_pow2_strictly_increases(bl, (7 + 8 * (n - 1)) as nat);
    }
    lemma_byte_pow((n - 1) as nat);
}

/// A copy of the bytes with every bit inverted.
fn flipped_bytes(bytes: &[u8]) -> (r: Vec<u8>)
    ensures
        r@ == flip_bytes(bytes@),
{
    let n = bytes.len();
    let mut r: Vec<u8> = Vec::new();
    let mut i: usize = 0;
    while i < n
        invariant
            i <= n,
            n == bytes@.len(),
            r@.len() == i,
            forall|k: int| 0 <= k < i ==> #[trigger] r@[k] == (255 - bytes@[k]) as u8,
        decreases n - i,
    {
        r.push(255 - bytes[i]);
        i = i + 1;
    }
    proof {
        assert(r@ =~= flip_bytes(bytes@));
    }
    r
}

/// Append zero bytes up to the length `len`.
fn pad_zero_bytes(bytes: &mut Vec<u8>, len: usize)
    requires
        old(bytes)@.len() <= len,
    ensures
        final(bytes)@.len() == len,
        le_bytes_val(final(bytes)@) == le_bytes_val(old(bytes)@),
{
    let ghost orig = bytes@;
    while bytes.len() < len
        invariant
            bytes@.len() <= len,
            le_bytes_val(bytes@) == le_bytes_val(orig),
        decreases len - bytes@.len(),
    {
        proof {
            lemma_le_bytes_push(bytes@, 0u8);
        }
        bytes.push(0);
    }
}

/// `x - 1` for a positive number.
pub(crate) fn ubig_sub_one(x: &UBig) -> (r: UBig)
    requires
        x@ > 0,
    ensures
        r@ == x@ - 1,
{
    let mut v = slice_to_vec(x.as_words());
    proof {
        crate::ubig::lemma_zero_iff_empty(v@);
        lemma_word_pow(0);
    }
    let _borrow = sub_word_at(v.as_mut_slice(), 0, 1);
    proof {
        lemma_words_val_bound(v@);
    }
    UBig::from_vec(v)
}

impl IBig {
    /// Construct from signed little-endian bytes.
    ///
    /// The negative number must be represented in a two's complement format, assuming
    /// the top bits are all ones. The number is assumed negative when the top bit of
    /// the top byte is set.
    ///
    /// # Examples
    ///
    /// ```
    /// # use dashu_int::{ibig::IBig, sign::Sign, ubig::UBig};
    /// // 0xfff30201 as i32 is -0xcfdff
    /// let x = IBig::from_parts(Sign::Negative, UBig::from_word(0xcfdff));
    /// assert_eq!(IBig::from_le_bytes(&[1, 2, 0xf3]), x);
    /// ```
    pub fn from_le_bytes(bytes: &[u8]) -> (r: IBig)
        requires
            bytes@.len() <= 8 * spec_max_capacity(),
        ensures
            r@ == signed_le_bytes_val(bytes@),
    {
        let n = bytes.len();
        if n == 0 || bytes[n - 1] < 0x80 {
            return IBig::from_parts(Sign::Positive, UBig::from_le_bytes(bytes));
        }
        // negative: the magnitude is 256^n - val(bytes) == val(!bytes) + 1
        let flipped = flipped_bytes(bytes);
        let mut words = le_bytes_to_words(flipped.as_slice());
        proof {
            lemma_flip_bytes(bytes@);
            lemma_le_bytes_top_bit(bytes@);
            lemma_byte_pow((n - 1) as nat);
            lemma_byte_pow(words@.len());
            if n < 8 * words@.len() {
                lemma_pow2_strictly_increases(8 * n as nat, 8 * (8 * words@.len()));
            }
            lemma_word_pow(words@.len());
        }
        let _overflow = add_word_in_place(words.as_mut_slice(), 1);
        proof {
            lemma_words_val_bound(words@);
        }
        IBig::from_parts(Sign::Negative, UBig::from_vec(words))
    }

    /// Construct from signed big-endian bytes, in two's complement as for [IBig::from_le_bytes].
    ///
    /// # Examples
    ///
    /// ```
    /// # use dashu_int::{ibig::IBig, sign::Sign, ubig::UBig};
    /// let x = IBig::from_parts(Sign::Negative, UBig::from_word(0xcfdff));
    /// assert_eq!(IBig::from_be_bytes(&[0xf3, 2, 1]), x);
    /// ```
    pub fn from_be_bytes(bytes: &[u8]) -> (r: IBig)
        requires
            bytes@.len() <= 8 * spec_max_capacity(),
        ensures
            r@ == signed_be_bytes_val(bytes@),
    {
        let le = reversed_bytes(bytes);
        IBig::from_le_bytes(le.as_slice())
    }

    /// Return little-endian bytes in two's complement: empty for zero, otherwise
    /// `bit_len(|x|) / 8 + 1` bytes.
    ///
    /// # Examples
    ///
    /// ```
    /// # use dashu_int::{ibig::IBig, sign::Sign, ubig::UBig};
    /// assert!(IBig::zero().to_le_bytes().is_empty());
    /// let x = IBig::from_parts(Sign::Negative, UBig::from_word(0xcfdff));
    /// assert_eq!(*x.to_le_bytes(), [1, 2, 0xf3]);
    /// ```
    pub fn to_le_bytes(&self) -> (r: Vec<u8>)
        ensures
            signed_le_bytes_val(r@) == self@,
            r@.len() == signed_bytes_len(spec_abs(self@)),
    {
        let mag = self.magnitude();
        if mag.is_zero() {
            return Vec::new();
        }
        let len = mag.bit_len() / 8 + 1;
        let ghost m = mag@;
        proof {
            lemma_signed_len(m);
            lemma_byte_pow((len - 1) as nat);
        }
        match self.sign() {
            Sign::Positive => {
                let mut bytes = mag.to_le_bytes();
                proof {
                    lemma_trimmed_len(bytes@, len as nat);
                }
                pad_zero_bytes(&mut bytes, len);
                proof {
                    lemma_le_bytes_top_bit(bytes@);
                }
                bytes
            },
            Sign::Negative => {
                let m1 = ubig_sub_one(mag);
                let mut bytes = m1.to_le_bytes();
                proof {
                    lemma_trimmed_len(bytes@, len as nat);
                }
                pad_zero_bytes(&mut bytes, len);
                let r = flipped_bytes(bytes.as_slice());
                proof {
                    lemma_flip_bytes(bytes@);
                    lemma_le_bytes_top_bit(r@);
                }
                r
            },
        }
    }

    /// Return big-endian bytes in two's complement, as many as [IBig::to_le_bytes] returns.
    ///
    /// # Examples
    ///
    /// ```
    /// # use dashu_int::{ibig::IBig, sign::Sign, ubig::UBig};
    /// assert!(IBig::zero().to_be_bytes().is_empty());
    /// let x = IBig::from_parts(Sign::Negative, UBig::from_word(0xcfdff));
    /// assert_eq!(*x.to_be_bytes(), [0xf3, 2, 1]);
    /// ```
    pub fn to_be_bytes(&self) -> (r: Vec<u8>)
        ensures
            signed_be_bytes_val(r@) == self@,
            r@.len() == signed_bytes_len(spec_abs(self@)),
    {
        let le = self.to_le_bytes();
        let r = reversed_bytes(le.as_slice());
        proof {
            lemma_reverse_index(le@);
        }
        r
    }
}

/// `((y % 2^m) / 2^s) % 2^n == (y / 2^s) % 2^n` when `s + n <= m`: bits below `m` do not
/// depend on the bits above.
proof fn lemma_bits_below(y: nat, m: nat, s: nat, n: nat)
    requires
        s + n <= m,
    ensures
        ((y % pow2(m)) / pow2(s)) % pow2(n) == (y / pow2(s)) % pow2(n),
{
    let pm = pow2(m) as int;
    let ps = pow2(s) as int;
    let pn = pow2(n) as int;
    let pr = pow2((m - s - n) as nat) as int;
    lemma_pow2_pos(m);
    lemma_pow2_pos(s);
    lemma_pow2_pos(n);
    lemma_pow2_pos((m - s - n) as nat);
    lemma_pow2_adds(s, (m - s) as nat);
    lemma_pow2_adds(n, (m - s - n) as nat);
    let q = y as int / pm;
    let r = y as int % pm;
    lemma_fundamental_div_mod(y as int, pm);
    lemma_mod_bound(y as int, pm);
    // y == ps * (pn * pr * q) + r
    let k = pn * pr * q;
    assert(pm * q == ps * k) by {
        lemma_mul_is_associative(ps, pn * pr, q);
        lemma_mul_is_associative(pn, pr, q);
    }
    lemma_div_multiples_vanish_fancy_general(r, k, ps);
    assert(y as int / ps == r / ps + k);
    lemma_mul_is_associative(pn, pr, q);
    lemma_mod_multiples_vanish(pr * q, r / ps, pn);
    lemma_div_pos_is_pos(r, ps);
}

/// The low `n` bits of a number, `val % 2^n`, as words without leading zero words.
fn low_bits_words(v: Vec<Word>, n: usize) -> (r: Vec<Word>)
    ensures
        words_val(r@) == words_val(v@) % pow2(n as nat),
        is_normalized(r@),
        r@.len() <= v@.len(),
{
    let k = n / 64;
    let t = (n % 64) as u32;
    let mut v = v;
    let ghost x = words_val(v@);
    proof {
        assert(n as nat == 64 * k as nat + t as nat);
        lemma_pow2_adds(64 * k as nat, t as nat);
        lemma_word_pow(k as nat);
        lemma_pow2_pos(t as nat);
    }
    if v.len() <= k {
        proof {
            lemma_words_val_bound(v@);
            lemma_word_pow_monotone(v@.len(), k as nat);
            lemma_mul_inequality(1, pow2(t as nat) as int, word_pow(k as nat) as int);
            lemma_mul_is_commutative(pow2(t as nat) as int, word_pow(k as nat) as int);
            lemma_small_mod(x, pow2(n as nat));
        }
        trim_zeros(&mut v);
        return v;
    }
    let top = v[k];
    let ghost orig = v@;
    proof {
        lemma_words_val_div_pow(orig, k as nat);
        lemma_words_val_low_bit(orig.subrange(k as int, orig.len() as int), t as nat);
        lemma_mod_breakdown(x as int, word_pow(k as nat) as int, pow2(t as nat) as int);
    }
    let mask = ones_word(t);
    let low = top & mask;
    proof {
        vstd::bits::lemma_u64_low_bits_mask_is_mod(top, t as nat);
        lemma_pow2_widths();
        lemma_pow2_strictly_increases(t as nat, 64);
        assert(mask == low_bits_mask(t as nat) as u64);
        assert((pow2(t as nat) as u64) as nat == pow2(t as nat));
        assert(low as nat == (top as nat) % pow2(t as nat));
    }
    while v.len() > k
        invariant
            k <= v@.len() <= orig.len(),
            v@ == orig.subrange(0, v@.len() as int),
        decreases v@.len(),
    {
        v.pop();
    }
    let ghost lo = v@;
    v.push(low);
    proof {
        lemma_words_val_push(lo, low);
        lemma_mul_is_commutative(low as int, word_pow(k as nat) as int);
        assert(lo =~= orig.subrange(0, k as int));
        assert(orig.subrange(k as int, orig.len() as int)[0] == top);
    }
    trim_zeros(&mut v);
    v
}

/// The bits `start .. start + n` of a number: `(val / 2^start) % 2^n`, as words without
/// leading zero words.
fn extract_bits(words: &[Word], start: usize, n: usize) -> (r: Vec<Word>)
    ensures
        words_val(r@) == (words_val(words@) / pow2(start as nat)) % pow2(n as nat),
        is_normalized(r@),
        r@.len() <= words@.len(),
{
    let len = words.len();
    let a = start / 64;
    let s = start % 64;
    let ghost x = words_val(words@);
    proof {
        assert(start as nat == 64 * a as nat + s as nat);
        lemma_pow2_adds(64 * a as nat, s as nat);
        lemma_pow2_pos(64 * a as nat);
        lemma_pow2_pos(s as nat);
        lemma_pow2_pos(n as nat);
        lemma_div_denominator(x as int, pow2(64 * a as nat) as int, pow2(s as nat) as int);
    }
    if a >= len {
        proof {
            lemma_words_val_bound(words@);
            lemma_word_pow_monotone(len as nat, a as nat);
            lemma_basic_div(x as int, pow2(64 * a as nat) as int);
            lemma_basic_div(0, pow2(s as nat) as int);
            lemma_small_mod(0, pow2(n as nat));
        }
        return Vec::new();
    }
    // the window of words that holds the bits
    let width = n / 64 + 2;
    let b = if len - a <= width { len } else { a + width };
    let window = slice_subrange(words, a, b);
    let shifted = shr_bits(window.as_slice(), s);
    proof {
        let tail = words@.subrange(a as int, len as int);
        lemma_words_val_div_pow(words@, a as nat);
        if b < len {
            lemma_words_val_div_pow(tail, (b - a) as nat);
            assert(tail.subrange(0, (b - a) as int) =~= window@);
            assert(64 * (b - a) >= s + n) by (nonlinear_arith)
                requires
                    b - a == n / 64 + 2,
                    s < 64,
            ;
            lemma_bits_below(words_val(tail), 64 * (b - a) as nat, s as nat, n as nat);
        } else {
            assert(tail =~= window@);
        }
    }
    low_bits_words(shifted, n)
}

/// A copy of `words[start..end]`.
fn slice_subrange(words: &[Word], start: usize, end: usize) -> (r: Vec<Word>)
    requires
        start <= end <= words@.len(),
    ensures
        r@ == words@.subrange(start as int, end as int),
{
    let mut r: Vec<Word> = Vec::new();
    let mut i = start;
    while i < end
        invariant
            start <= i <= end,
            end <= words@.len(),
            r@ == words@.subrange(start as int, i as int),
        decreases end - i,
    {
        r.push(words[i]);
        i = i + 1;
        proof {
            assert(r@ =~= words@.subrange(start as int, i as int));
        }
    }
    r
}

/// The values of a sequence of big integers.
pub open spec fn ubig_values(s: Seq<UBig>) -> Seq<nat> {
    s.map_values(|u: UBig| u@)
}

/// The value of chunks of `bits` bits each, least significant first:
/// `c[0] + 2^bits c[1] + 2^(2 bits) c[2] + ...`; a chunk may have more bits than that.
pub open spec fn chunks_val(c: Seq<nat>, bits: nat) -> nat
    decreases c.len(),
{
    if c.len() == 0 {
        0
    } else {
        c[0] + pow2(bits) * chunks_val(c.drop_first(), bits)
    }
}

impl UBig {
    /// Slice the integer into group of bit chunks from the least significant end to the most
    /// significant end: chunk `i` holds the bits `i * chunk_bits .. (i + 1) * chunk_bits`,
    /// and there are just enough chunks for the bit length.
    ///
    /// # Examples
    ///
    /// ```
    /// # use dashu_int::ubig::UBig;
    /// assert!(UBig::zero().to_chunks(1).is_empty());
    /// assert_eq!(UBig::from_word(0x010203).to_chunks(8),
    ///     [UBig::from_word(3), UBig::from_word(2), UBig::from_word(1)]);
    /// ```
    ///
    /// `chunk_bits` must not be zero.
    pub fn to_chunks(&self, chunk_bits: usize) -> (r: Vec<UBig>)
        requires
            chunk_bits > 0,
        ensures
            r@.len() == spec_ceil_div(spec_bit_len(self@), chunk_bits as nat),
            forall|i: int|
                0 <= i < r@.len() ==> #[trigger] r@[i]@ == (self@ / pow2((i * chunk_bits) as nat))
                    % pow2(chunk_bits as nat),
    {
        let words = self.as_words();
        let bits = self.bit_len();
        let count = ceil_div_usize(bits, chunk_bits);
        let mut chunks: Vec<UBig> = Vec::new();
        let mut i: usize = 0;
        while i < count
            invariant
                i <= count,
                count == spec_ceil_div(bits as nat, chunk_bits as nat),
                chunk_bits > 0,
                words_val(words@) == self@,
                words@.len() <= spec_max_capacity(),
                chunks@.len() == i,
                forall|j: int|
                    0 <= j < i ==> #[trigger] chunks@[j]@ == (self@ / pow2((j * chunk_bits) as nat))
                        % pow2(chunk_bits as nat),
            decreases count - i,
        {
            proof {
                // i * chunk_bits < bits
                assert(i * chunk_bits < bits) by (nonlinear_arith)
                    requires
                        i < count,
                        count == (bits + chunk_bits - 1) / chunk_bits as int,
                        chunk_bits > 0,
                ;
            }
            let c = extract_bits(words, i * chunk_bits, chunk_bits);
            chunks.push(UBig::from_vec(c));
            i = i + 1;
        }
        chunks
    }
}

/// `val(a + b) == val(a) + 2^(bits |a|) val(b)` for chunk sequences.
pub proof fn lemma_chunks_val_append(a: Seq<nat>, b: Seq<nat>, bits: nat)
    ensures
        chunks_val(a + b, bits) == chunks_val(a, bits) + pow2(bits * a.len()) * chunks_val(b, bits),
    decreases a.len(),
{
    lemma2_to64();
    if a.len() == 0 {
        assert(a + b =~= b);
        assert(bits * a.len() == 0);
    } else {
        let rest = a.drop_first();
        assert((a + b).drop_first() =~= rest + b);
        assert((a + b)[0] == a[0]);
        assert(chunks_val(a + b, bits) == a[0] + pow2(bits) * chunks_val(rest + b, bits));
        assert(chunks_val(a, bits) == a[0] + pow2(bits) * chunks_val(rest, bits));
        lemma_chunks_val_append(rest, b, bits);
        assert(bits * a.len() == bits + bits * rest.len()) by (nonlinear_arith)
            requires
                a.len() == rest.len() + 1,
        ;
        lemma_pow2_adds(bits, bits * rest.len());
        let p = pow2(bits) as int;
        let q = pow2(bits * rest.len()) as int;
        let vb = chunks_val(b, bits) as int;
        assert(p * (chunks_val(rest, bits) + q * vb) == p * chunks_val(rest, bits) + (p * q) * vb)
            by (nonlinear_arith);
    }
}

/// A single chunk is its own value.
proof fn lemma_chunks_val_single(x: nat, bits: nat)
    ensures
        chunks_val(seq![x], bits) == x,
{
    let s = seq![x];
    assert(s.drop_first().len() == 0);
    assert(chunks_val(s.drop_first(), bits) == 0);
    assert(chunks_val(s, bits) == s[0] + pow2(bits) * chunks_val(s.drop_first(), bits));
    assert(s[0] == x);
}

/// Add `c * 2^offset` to the words, which have room for the sum.
fn add_shifted(words: &mut Vec<Word>, c: &[Word], offset: usize)
    requires
        offset / 64 + c@.len() + 1 <= old(words)@.len(),
        words_val(old(words)@) + words_val(c@) * pow2(offset as nat) < word_pow(old(words)@.len()),
    ensures
        final(words)@.len() == old(words)@.len(),
        words_val(final(words)@) == words_val(old(words)@) + words_val(c@) * pow2(offset as nat),
{
    let wo = offset / 64;
    let sh = (offset % 64) as u32;
    let ghost orig = words@;
    let ghost vc = words_val(c@) as int;
    let ghost ps = pow2(sh as nat) as int;
    let ghost bw = word_pow(wo as nat) as int;
    let mut buf = slice_to_vec(c);
    proof {
        lemma_words_val_push(buf@, 0u64);
        lemma_words_val_bound(c@);
        lemma_word_pow(c@.len());
        lemma_pow2_widths();
        lemma_pow2_strictly_increases(sh as nat, 64);
        assert(offset as nat == 64 * wo as nat + sh as nat);
        lemma_pow2_adds(64 * wo as nat, sh as nat);
        lemma_pow2_pos(sh as nat);
        let w = word_pow(c@.len()) as int;
        assert(vc * ps < word_pow(c@.len() + 1)) by (nonlinear_arith)
            requires
                0 <= vc < w,
                0 < ps < 0x1_0000_0000_0000_0000,
                word_pow(c@.len() + 1) == 0x1_0000_0000_0000_0000 * w,
        ;
    }
    buf.push(0);
    let carry_out = shl_in_place(buf.as_mut_slice(), sh);
    proof {
        // the shifted chunk fits its words, so nothing is shifted out
        lemma_words_val_bound(buf@);
        if carry_out > 0 {
            lemma_mul_inequality(1, carry_out as int, word_pow(buf@.len()) as int);
        }
        assert(words_val(buf@) == vc * ps);
    }
    let ghost before = words@;
    let carry = add_same_len_at(words.as_mut_slice(), wo, buf.as_slice());
    let ghost mid = words@;
    let ghost bb = word_pow(buf@.len()) as int;
    proof {
        lemma_words_val_window(before, mid, wo as int, buf@.len() as int);
        if carry {
            assert(words_val(mid) == words_val(before) + bw * (vc * ps) - bw * bb) by {
                lemma_mul_is_distributive_sub(bw, vc * ps, bb);
            }
        } else {
            assert(words_val(mid) == words_val(before) + bw * (vc * ps));
        }
        lemma_word_pow_adds(wo as nat, buf@.len());
        // B^wo (vc 2^sh) == vc 2^offset
        lemma_mul_is_associative(bw, vc, ps);
        lemma_mul_is_commutative(bw, vc);
        lemma_mul_is_associative(vc, bw, ps);
    }
    let total_len = words.len();
    assert(wo + buf@.len() <= total_len);
    if carry {
        let _overflow = add_word_at(words.as_mut_slice(), wo + buf.len(), 1);
        proof {
            lemma_words_val_bound(words@);
        }
    }
}

impl UBig {
    /// Reconstruct an integer from a group of bit chunks: with the chunks `C_i`, the sum of
    /// `C_i * 2^(i * chunk_bits)`. A chunk may have more bits than `chunk_bits`.
    ///
    /// # Examples
    ///
    /// ```
    /// # use dashu_int::ubig::UBig;
    /// assert_eq!(
    ///     UBig::from_chunks(&[UBig::from_word(3), UBig::from_word(2), UBig::from_word(1)], 8),
    ///     UBig::from_word(0x010203)
    /// );
    /// ```
    ///
    /// `chunk_bits` must not be zero.
    pub fn from_chunks(chunks: &[UBig], chunk_bits: usize) -> (r: UBig)
        requires
            chunk_bits > 0,
            forall|i: int|
                0 <= i < chunks@.len() ==> #[trigger] chunks@[i].spec_words().len() + chunks@.len()
                    * chunk_bits / 64 + 2 <= spec_max_capacity(),
        ensures
            r@ == chunks_val(ubig_values(chunks@), chunk_bits as nat),
    {
        let n = chunks.len();
        if n == 0 {
            proof {
                assert(ubig_values(chunks@) =~= Seq::<nat>::empty());
            }
            return UBig::zero();
        }
        let ghost cs = ubig_values(chunks@);
        // the longest chunk
        let mut max_len: usize = 0;
        let mut i: usize = 0;
        proof {
            assert(chunks@[0].spec_words().len() + n * chunk_bits / 64 + 2 <= spec_max_capacity());
        }
        while i < n
            invariant
                i <= n,
                n == chunks@.len(),
                n > 0,
                forall|j: int| 0 <= j < i ==> #[trigger] chunks@[j].spec_words().len() <= max_len,
                i == 0 ==> max_len == 0,
                i > 0 ==> exists|j: int| 0 <= j < i && #[trigger] chunks@[j].spec_words().len() == max_len,
            decreases n - i,
        {
            let l = chunks[i].len();
            if l > max_len {
                max_len = l;
            }
            i = i + 1;
        }
        let ghost jmax = choose|j: int| 0 <= j < n && #[trigger] chunks@[j].spec_words().len() == max_len;
        proof {
            assert(chunks@[jmax].spec_words().len() + n * chunk_bits / 64 + 2 <= spec_max_capacity());
            assert(n * chunk_bits <= usize::MAX) by (nonlinear_arith)
                requires
                    n * chunk_bits / 64 + 2 <= spec_max_capacity(),
                    spec_max_capacity() == usize::MAX / 64,
            ;
        }
        let total = max_len + n * chunk_bits / 64 + 2;
        let mut result: Vec<Word> = Vec::new();
        while result.len() < total
            invariant
                result@.len() <= total,
                words_val(result@) == 0,
            decreases total - result@.len(),
        {
            proof {
                lemma_words_val_push(result@, 0u64);
            }
            result.push(0);
        }
        let ghost m = max_len as nat;
        proof {
            lemma_word_pow(m);
            lemma2_to64();
            assert(cs.subrange(0, 0) =~= Seq::<nat>::empty());
            assert((0 * chunk_bits) as nat == 0);
            assert(words_val(result@) < word_pow(m) * pow2((0 * chunk_bits) as nat));
        }
        i = 0;
        while i < n
            invariant
                i <= n,
                n == chunks@.len(),
                cs == ubig_values(chunks@),
                chunk_bits > 0,
                result@.len() == total,
                total == max_len + n * chunk_bits / 64 + 2,
                total <= spec_max_capacity(),
                m == max_len as nat,
                n * chunk_bits <= usize::MAX,
                forall|j: int| 0 <= j < n ==> #[trigger] chunks@[j].spec_words().len() <= max_len,
                words_val(result@) == chunks_val(cs.subrange(0, i as int), chunk_bits as nat),
                words_val(result@) < word_pow(m) * pow2((i * chunk_bits) as nat),
            decreases n - i,
        {
            let cw = chunks[i].as_words();
            let ghost vc = words_val(cw@);
            let ghost p = pow2((i * chunk_bits) as nat);
            proof {
                assert(i * chunk_bits <= n * chunk_bits) by (nonlinear_arith)
                    requires
                        i <= n,
                ;
                assert(chunks@[i as int].spec_words().len() <= max_len);
                assert(cw@ == chunks@[i as int].spec_words());
                assert(cw@.len() <= m);
                lemma_words_val_bound(cw@);
                lemma_word_pow_monotone(cw@.len(), m);
                // the partial sum stays below B^m 2^((i+1) chunk_bits) <= B^total
                lemma_pow2_adds((i * chunk_bits) as nat, chunk_bits as nat);
                lemma_pow2_strictly_increases(0, chunk_bits as nat);
                lemma2_to64();
                lemma_pow2_pos((i * chunk_bits) as nat);
                lemma_mul_strict_inequality(vc as int, word_pow(m) as int, p as int);
                lemma_mul_is_commutative(vc as int, p as int);
                assert(word_pow(m) * p + word_pow(m) * p <= word_pow(m) * (p * pow2(chunk_bits as nat)))
                    by (nonlinear_arith)
                    requires
                        pow2(chunk_bits as nat) >= 2,
                        p >= 0,
                        word_pow(m) >= 0,
                ;
                assert((i + 1) * chunk_bits <= 64 * (n * chunk_bits / 64 + 2)) by (nonlinear_arith)
                    requires
                        i < n,
                ;
                lemma_pow2_strictly_increases_or_equal_local(((i + 1) * chunk_bits) as nat, (64 * (n * chunk_bits / 64 + 2)) as nat);
                lemma_word_pow_adds(m, (n * chunk_bits / 64 + 2) as nat);
                assert(i * chunk_bits + chunk_bits == (i + 1) * chunk_bits) by (nonlinear_arith);
                lemma_mul_inequality(pow2(((i + 1) * chunk_bits) as nat) as int, word_pow((n * chunk_bits / 64 + 2) as nat) as int, word_pow(m) as int);
                lemma_mul_is_commutative(word_pow(m) as int, pow2(((i + 1) * chunk_bits) as nat) as int);
                lemma_mul_is_commutative(word_pow(m) as int, word_pow((n * chunk_bits / 64 + 2) as nat) as int);
                assert((i * chunk_bits) / 64 + cw@.len() + 1 <= total) by (nonlinear_arith)
                    requires
                        i * chunk_bits <= n * chunk_bits,
                        cw@.len() <= max_len,
                        total == max_len + n * chunk_bits / 64 + 2,
                ;
            }
            add_shifted(&mut result, cw, i * chunk_bits);
            proof {
                assert(cs.subrange(0, i + 1) =~= cs.subrange(0, i as int) + seq![vc]);
                lemma_chunks_val_append(cs.subrange(0, i as int), seq![vc], chunk_bits as nat);
                lemma_chunks_val_single(vc, chunk_bits as nat);
                assert(chunk_bits * i == i * chunk_bits) by (nonlinear_arith);
                lemma_mul_is_commutative(p as int, vc as int);
            }
            i = i + 1;
        }
        proof {
            assert(cs.subrange(0, n as int) =~= cs);
        }
        trim_zeros(&mut result);
        UBig::from_vec(result)
    }
}

/// Powers of two are monotone.
proof fn lemma_pow2_strictly_increases_or_equal_local(a: nat, b: nat)
    requires
        a <= b,
    ensures
        pow2(a) <= pow2(b),
{
    if a < b {
        lemma_pow2_strictly_increases(a, b);
    }
}

/// Chunks that are the base-`2^bits` digits of `x` add up to `x` modulo `2^(bits * count)`.
proof fn lemma_digits_val(x: nat, bits: nat, c: Seq<nat>)
    requires
        forall|i: int| 0 <= i < c.len() ==> #[trigger] c[i] == (x / pow2((i * bits) as nat)) % pow2(bits),
    ensures
        chunks_val(c, bits) == x % pow2(bits * c.len()),
    decreases c.len(),
{
    lemma2_to64();
    lemma_pow2_pos(bits);
    if c.len() == 0 {
        assert(bits * c.len() == 0);
        lemma_small_mod(0, 1);
        assert(x % 1 == 0);
    } else {
        let rest = c.drop_first();
        let y = x / pow2(bits);
        assert forall|i: int| 0 <= i < rest.len() implies #[trigger] rest[i] == (y / pow2(
            (i * bits) as nat,
        )) % pow2(bits) by {
            assert(rest[i] == c[i + 1]);
            assert((i + 1) * bits == bits + i * bits) by (nonlinear_arith);
            assert(i * bits >= 0) by (nonlinear_arith)
                requires
                    i >= 0,
            ;
            lemma_pow2_adds(bits, (i * bits) as nat);
            lemma_pow2_pos((i * bits) as nat);
            lemma_div_denominator(x as int, pow2(bits) as int, pow2((i * bits) as nat) as int);
        }
        lemma_digits_val(y, bits, rest);
        assert(c[0] == x % pow2(bits)) by {
            assert((0 * bits) as nat == 0);
            assert(x / 1 == x);
        }
        assert(bits * c.len() == bits + bits * rest.len()) by (nonlinear_arith)
            requires
                c.len() == rest.len() + 1,
        ;
        lemma_pow2_adds(bits, bits * rest.len());
        lemma_pow2_pos(bits * rest.len());
        lemma_mod_breakdown(x as int, pow2(bits) as int, pow2(bits * rest.len()) as int);
    }
}

/// Putting chunks together undoes slicing into chunks: the chunks that [UBig::to_chunks]
/// returns for `x` are the ones whose [UBig::from_chunks] value is `x`.
pub proof fn lemma_chunks_roundtrip(x: nat, bits: nat, c: Seq<nat>)
    requires
        bits > 0,
        c.len() == spec_ceil_div(spec_bit_len(x), bits),
        forall|i: int| 0 <= i < c.len() ==> #[trigger] c[i] == (x / pow2((i * bits) as nat)) % pow2(bits),
    ensures
        chunks_val(c, bits) == x,
{
    lemma_digits_val(x, bits, c);
    lemma_bit_len_bounds(x);
    let l = spec_bit_len(x);
    assert(l <= bits * c.len()) by (nonlinear_arith)
        requires
            c.len() == ((l + bits - 1) as nat) / bits,
            bits > 0,
    ;
    if l < bits * c.len() {
        lemma_pow2_strictly_increases(l, bits * c.len());
    }
    lemma_small_mod(x, pow2(bits * c.len()));
}

/// Bytes without a most significant zero byte are determined by their value, so
/// [UBig::to_le_bytes] gives back such bytes after [UBig::from_le_bytes].
pub proof fn lemma_trimmed_le_unique(s: Seq<u8>, t: Seq<u8>)
    requires
        is_trimmed_le(s),
        is_trimmed_le(t),
        le_bytes_val(s) == le_bytes_val(t),
    ensures
        s == t,
    decreases s.len(),
{
    lemma_byte_pow(0);
    if s.len() == 0 || t.len() == 0 {
        if s.len() > 0 {
            lemma_le_bytes_lower(s);
            lemma_byte_pow((s.len() - 1) as nat);
        }
        if t.len() > 0 {
            lemma_le_bytes_lower(t);
            lemma_byte_pow((t.len() - 1) as nat);
        }
        assert(s =~= t);
    } else {
        let s1 = s.drop_first();
        let t1 = t.drop_first();
        let v = le_bytes_val(s) as int;
        lemma_fundamental_div_mod_converse(v, 256, le_bytes_val(s1) as int, s[0] as int);
        lemma_fundamental_div_mod_converse(v, 256, le_bytes_val(t1) as int, t[0] as int);
        assert(s1.len() > 0 ==> s1.last() == s.last());
        assert(t1.len() > 0 ==> t1.last() == t.last());
        lemma_trimmed_le_unique(s1, t1);
        assert(s =~= seq![s[0]] + s1);
        assert(t =~= seq![t[0]] + t1);
    }
}

} // verus!
