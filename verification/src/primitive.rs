//! Primitive integer helpers: word splitting, bit lengths and the
//! [PrimitiveUnsigned] abstraction over the unsigned machine integers.
use vstd::prelude::*;
use vstd::arithmetic::power2::*;
use vstd::arithmetic::div_mod::*;
use vstd::arithmetic::mul::*;
use vstd::bits::*;
use crate::arch::word::{DoubleWord, Word};

verus! {

/// Number of bits in a [Word].
pub const WORD_BITS: u32 = 64;
/// Number of bits in a [Word], as `usize`.
pub const WORD_BITS_USIZE: usize = 64;
/// Number of bits in a [DoubleWord].
pub const DWORD_BITS: u32 = 128;
/// Number of bits in a [DoubleWord], as `usize`.
pub const DWORD_BITS_USIZE: usize = 128;

/// The radix of one word: 2^64.
pub open spec fn word_base() -> nat {
    0x1_0000_0000_0000_0000
}

/// Number of binary digits of `x` (0 for 0).
pub open spec fn spec_bit_len(x: nat) -> nat
    decreases x,
{
    if x == 0 {
        0
    } else {
        1 + spec_bit_len(x / 2)
    }
}

/// `x < 2^bit_len(x)` and, for non-zero `x`, `2^(bit_len(x)-1) <= x`.
pub proof fn lemma_bit_len_bounds(x: nat)
    ensures
        x < pow2(spec_bit_len(x)),
        x > 0 ==> spec_bit_len(x) > 0 && pow2((spec_bit_len(x) - 1) as nat) <= x,
        x == 0 <==> spec_bit_len(x) == 0,
    decreases x,
{
    reveal(pow2);
    lemma2_to64();
    if x > 0 {
        lemma_bit_len_bounds(x / 2);
        let k = spec_bit_len(x / 2);
        lemma_pow2_unfold(k + 1);
        if x / 2 > 0 {
            lemma_pow2_unfold(k);
        }
    }
}

/// The bit length is the unique `k` with `2^(k-1) <= x < 2^k`.
pub proof fn lemma_bit_len_unique(x: nat, k: nat)
    requires
        x < pow2(k),
        k > 0 ==> pow2((k - 1) as nat) <= x,
    ensures
        spec_bit_len(x) == k,
    decreases k,
{
    lemma2_to64();
    if k == 0 {
        assert(x == 0);
    } else {
        lemma_pow2_unfold(k);
        assert(x > 0) by {
            lemma_pow2_pos((k - 1) as nat);
        }
        if k > 1 {
            lemma_pow2_unfold((k - 1) as nat);
        }
        lemma_bit_len_unique(x / 2, (k - 1) as nat);
    }
}

/// Bit length is monotone.
pub proof fn lemma_bit_len_monotone(x: nat, y: nat)
    requires
        x <= y,
    ensures
        spec_bit_len(x) <= spec_bit_len(y),
    decreases y,
{
    if x > 0 {
        lemma_bit_len_monotone(x / 2, y / 2);
    }
}

/// `x < 2^k` exactly when the bit length of `x` is at most `k`.
pub proof fn lemma_bit_len_le(x: nat, k: nat)
    ensures
        x < pow2(k) <==> spec_bit_len(x) <= k,
{
    lemma_bit_len_bounds(x);
    if x < pow2(k) && spec_bit_len(x) > k {
        lemma_pow2_increases(k, (spec_bit_len(x) - 1) as nat);
    }
    if spec_bit_len(x) <= k && spec_bit_len(x) < k {
        lemma_pow2_strictly_increases(spec_bit_len(x), k);
    }
}

/// Powers of two are monotone.
pub proof fn lemma_pow2_increases(a: nat, b: nat)
    requires
        a <= b,
    ensures
        pow2(a) <= pow2(b),
{
    if a < b {
        lemma_pow2_strictly_increases(a, b);
    }
}

/// Bit length of a value of the form `hi * 2^64 + lo` with a non-zero high part.
pub proof fn lemma_bit_len_split(hi: nat, lo: nat)
    requires
        hi > 0,
        lo < word_base(),
    ensures
        spec_bit_len(hi * word_base() + lo) == 64 + spec_bit_len(hi),
{
    let k = spec_bit_len(hi);
    lemma_bit_len_bounds(hi);
    lemma2_to64();
    lemma_pow2_adds(64, k);
    lemma_pow2_adds(64, (k - 1) as nat);
    assert(pow2(64) == word_base());
    let x = hi * word_base() + lo;
    assert(x < pow2(64 + k)) by {
        lemma_mul_inequality(hi as int + 1, pow2(k) as int, word_base() as int);
        lemma_mul_is_distributive_add(word_base() as int, hi as int, 1);
        lemma_mul_is_commutative(word_base() as int, pow2(k) as int);
    }
    assert(pow2((64 + k - 1) as nat) <= x) by {
        assert((64 + k - 1) as nat == 64 + (k - 1) as nat);
        lemma_mul_inequality(pow2((k - 1) as nat) as int, hi as int, word_base() as int);
        lemma_mul_is_commutative(word_base() as int, pow2((k - 1) as nat) as int);
    }
    lemma_bit_len_unique(x, 64 + k);
}

/// The leading zero count of std agrees with the bit length.
pub proof fn lemma_u64_leading_zeros(i: u64)
    ensures
        vstd::std_specs::bits::u64_leading_zeros(i) == 64 - spec_bit_len(i as nat),
        spec_bit_len(i as nat) <= 64,
    decreases i,
{
    reveal(vstd::std_specs::bits::u64_leading_zeros);
    if i > 0 {
        lemma_u64_leading_zeros(i / 2);
    }
}

/// The trailing zero count of std: `i` is divisible by `2^tz` and, when non-zero, `i / 2^tz` is odd.
pub proof fn lemma_u64_trailing_zeros(i: u64)
    requires
        i != 0,
    ensures
        vstd::std_specs::bits::u64_trailing_zeros(i) < 64,
        (i as nat) % pow2(vstd::std_specs::bits::u64_trailing_zeros(i) as nat) == 0,
        ((i as nat) / pow2(vstd::std_specs::bits::u64_trailing_zeros(i) as nat)) % 2 == 1,
{
    vstd::std_specs::bits::axiom_u64_trailing_zeros(i);
    let t = vstd::std_specs::bits::u64_trailing_zeros(i) as u64;
    assert(t < 64);
    let q = i >> t;
    assert(q & 1 == 1);
    assert(q % 2 == 1) by (bit_vector)
        requires q & 1 == 1;
    lemma_u64_shr_is_div(i, t);
    lemma_pow2_pos(t as nat);
    if t > 0 {
        assert(i << ((64 - t) as u64) == 0);
        assert((i >> t) << t == i) by (bit_vector)
            requires i << ((64 - t) as u64) == 0, 0 < t < 64;
        lemma_u64_pow2_no_overflow(t as nat);
        lemma_u64_mul_pow2_le_max_iff_max_shr(q, t, u64::MAX);
        lemma_u64_shr_is_div(u64::MAX, t);
        lemma_div_is_ordered(i as int, u64::MAX as int, pow2(t as nat) as int);
        lemma_u64_shl_is_mul(q, t);
        lemma_mod_multiples_basic(q as int, pow2(t as nat) as int);
    } else {
        lemma2_to64();
    }
}

/// `x << s == x * 2^s` for u128 values when the product fits.
pub proof fn lemma_u128_shl_is_mul(x: u128, s: nat)
    requires
        s < 128,
        x * pow2(s) < pow2(128),
    ensures
        x << s == x * pow2(s),
    decreases s,
{
    lemma_pow2_widths();
    if s == 0 {
        lemma2_to64();
        assert(x << 0u128 == x) by (bit_vector);
    } else {
        lemma_pow2_unfold(s);
        lemma_pow2_pos((s - 1) as nat);
        assert(x * pow2((s - 1) as nat) <= x * pow2(s)) by {
            lemma_mul_inequality(pow2((s - 1) as nat) as int, pow2(s) as int, x as int);
            lemma_mul_is_commutative(pow2((s - 1) as nat) as int, x as int);
            lemma_mul_is_commutative(pow2(s) as int, x as int);
        }
        lemma_u128_shl_is_mul(x, (s - 1) as nat);
        let t = (s - 1) as u128;
        let y = x << t;
        assert(x * pow2(s) == 2 * (x * pow2((s - 1) as nat))) by {
            lemma_mul_is_associative(x as int, 2, pow2((s - 1) as nat) as int);
            lemma_mul_is_commutative(x as int, 2);
            lemma_mul_is_associative(2, x as int, pow2((s - 1) as nat) as int);
        }
        assert(y < 0x8000_0000_0000_0000_0000_0000_0000_0000);
        assert(y << 1u128 == 2 * y) by (bit_vector)
            requires y < 0x8000_0000_0000_0000_0000_0000_0000_0000u128;
        assert((x << t) << 1u128 == x << (t + 1)) by (bit_vector)
            requires t < 127;
    }
}

/// Split a [DoubleWord] into its low and high [Word]s.
pub fn split_dword(dw: DoubleWord) -> (res: (Word, Word))
    ensures
        dw == res.1 * word_base() + res.0,
{
    let lo = dw as Word;
    let hi = (dw >> 64u32) as Word;
    proof {
        assert(dw == (((dw >> 64u32) as u64) as u128) * 0x1_0000_0000_0000_0000u128 + ((dw as u64) as u128)) by (bit_vector);
    }
    (lo, hi)
}

/// Build a [DoubleWord] from its low and high [Word]s.
pub fn double_word(lo: Word, hi: Word) -> (res: DoubleWord)
    ensures
        res == hi * word_base() + lo,
{
    proof {
        assert(((hi as u128) << 64u32) | (lo as u128) == (hi as u128) * 0x1_0000_0000_0000_0000u128 + (lo as u128)) by (bit_vector);
    }
    ((hi as DoubleWord) << 64u32) | (lo as DoubleWord)
}

/// Widen a [Word] into a [DoubleWord].
pub fn extend_word(w: Word) -> (res: DoubleWord)
    ensures
        res == w,
{
    w as DoubleWord
}

/// Narrow a [DoubleWord] into a [Word] if it fits.
pub fn shrink_dword(dw: DoubleWord) -> (res: Option<Word>)
    ensures
        dw <= u64::MAX ==> res == Some(dw as Word),
        dw > u64::MAX ==> res is None,
{
    if dw <= u64::MAX as u128 {
        Some(dw as Word)
    } else {
        None
    }
}

/// Value of the lowest two words of a slice.
pub fn lowest_dword(words: &[Word]) -> (res: DoubleWord)
    requires
        words.len() >= 2,
    ensures
        res == words[1] * word_base() + words[0],
{
    double_word(words[0], words[1])
}

/// Value of the highest two words of a slice.
pub fn highest_dword(words: &[Word]) -> (res: DoubleWord)
    requires
        words.len() >= 2,
    ensures
        res == words[words.len() - 1] * word_base() + words[words.len() - 2],
{
    let n = words.len();
    double_word(words[n - 2], words[n - 1])
}

/// Number of leading zero bits of a [Word].
pub fn word_leading_zeros(w: Word) -> (res: u32)
    ensures
        res == 64 - spec_bit_len(w as nat),
        spec_bit_len(w as nat) <= 64,
{
    proof {
        lemma_u64_leading_zeros(w);
    }
    w.leading_zeros()
}

/// Number of leading zero bits of a [DoubleWord].
pub fn dword_leading_zeros(dw: DoubleWord) -> (res: u32)
    ensures
        res == 128 - spec_bit_len(dw as nat),
        spec_bit_len(dw as nat) <= 128,
{
    let (lo, hi) = split_dword(dw);
    if hi == 0 {
        let z = word_leading_zeros(lo);
        z + 64
    } else {
        proof {
            lemma_bit_len_split(hi as nat, lo as nat);
        }
        word_leading_zeros(hi)
    }
}

/// Unsigned primitive integers, with their arithmetic stated over `nat`.
pub trait PrimitiveUnsigned: Copy + Sized {
    /// Mathematical value.
    spec fn spec_val(self) -> nat;

    /// Number of bits of the type.
    spec fn spec_bits() -> nat;

    /// Every value fits in the bits of its type.
    proof fn lemma_val_bound(x: Self)
        ensures
            x.spec_val() < pow2(Self::spec_bits()),
            8 <= Self::spec_bits() <= 128;

    /// Number of bits of the type.
    fn bit_size() -> (r: u32)
        ensures
            r == Self::spec_bits(),
            8 <= r <= 128;

    /// Number of leading zero bits.
    fn leading_zeros_of(self) -> (r: u32)
        ensures
            spec_bit_len(self.spec_val()) <= Self::spec_bits(),
            r == Self::spec_bits() - spec_bit_len(self.spec_val());

    /// The value of a byte.
    fn from_byte(v: u8) -> (r: Self)
        ensures
            r.spec_val() == v;

    /// Test for zero.
    fn is_zero_value(self) -> (r: bool)
        ensures
            r == (self.spec_val() == 0);

    /// Difference, which must not be negative.
    fn minus(self, rhs: Self) -> (r: Self)
        requires
            rhs.spec_val() <= self.spec_val(),
        ensures
            r.spec_val() == self.spec_val() - rhs.spec_val();

    /// Sum, which must fit.
    fn plus(self, rhs: Self) -> (r: Self)
        requires
            self.spec_val() + rhs.spec_val() < pow2(Self::spec_bits()),
        ensures
            r.spec_val() == self.spec_val() + rhs.spec_val();

    /// Product, which must fit.
    fn times(self, rhs: Self) -> (r: Self)
        requires
            self.spec_val() * rhs.spec_val() < pow2(Self::spec_bits()),
        ensures
            r.spec_val() == self.spec_val() * rhs.spec_val();

    /// Floored quotient by a non-zero divisor.
    fn quot(self, rhs: Self) -> (r: Self)
        requires
            rhs.spec_val() != 0,
        ensures
            r.spec_val() == self.spec_val() / rhs.spec_val();
}

/// `2^32`, `2^64` and `2^128` as literals.
pub proof fn lemma_pow2_widths()
    ensures
        pow2(8) == 0x100,
        pow2(16) == 0x10000,
        pow2(32) == 0x1_0000_0000,
        pow2(64) == 0x1_0000_0000_0000_0000,
        pow2(128) == 0x1_0000_0000_0000_0000_0000_0000_0000_0000,
{
    lemma2_to64();
    lemma_pow2_adds(64, 64);
}

impl PrimitiveUnsigned for u32 {
    open spec fn spec_val(self) -> nat {
        self as nat
    }

    open spec fn spec_bits() -> nat {
        32
    }

    proof fn lemma_val_bound(x: Self) {
        lemma_pow2_widths();
    }

    fn bit_size() -> (r: u32) {
        32
    }

    fn leading_zeros_of(self) -> (r: u32) {
        proof {
            lemma_pow2_widths();
            lemma_bit_len_le(self as nat, 32);
        }
        word_leading_zeros(self as Word) - 32
    }

    fn from_byte(v: u8) -> (r: Self) {
        v as u32
    }

    fn is_zero_value(self) -> (r: bool) {
        self == 0
    }

    fn minus(self, rhs: Self) -> (r: Self) {
        self - rhs
    }

    fn plus(self, rhs: Self) -> (r: Self) {
        proof {
            lemma_pow2_widths();
        }
        self + rhs
    }

    fn times(self, rhs: Self) -> (r: Self) {
        proof {
            lemma_pow2_widths();
        }
        self * rhs
    }

    fn quot(self, rhs: Self) -> (r: Self) {
        self / rhs
    }
}

impl PrimitiveUnsigned for u64 {
    open spec fn spec_val(self) -> nat {
        self as nat
    }

    open spec fn spec_bits() -> nat {
        64
    }

    proof fn lemma_val_bound(x: Self) {
        lemma_pow2_widths();
    }

    fn bit_size() -> (r: u32) {
        64
    }

    fn leading_zeros_of(self) -> (r: u32) {
        word_leading_zeros(self)
    }

    fn from_byte(v: u8) -> (r: Self) {
        v as u64
    }

    fn is_zero_value(self) -> (r: bool) {
        self == 0
    }

    fn minus(self, rhs: Self) -> (r: Self) {
        self - rhs
    }

    fn plus(self, rhs: Self) -> (r: Self) {
        proof {
            lemma_pow2_widths();
        }
        self + rhs
    }

    fn times(self, rhs: Self) -> (r: Self) {
        proof {
            lemma_pow2_widths();
        }
        self * rhs
    }

    fn quot(self, rhs: Self) -> (r: Self) {
        self / rhs
    }
}

impl PrimitiveUnsigned for u128 {
    open spec fn spec_val(self) -> nat {
        self as nat
    }

    open spec fn spec_bits() -> nat {
        128
    }

    proof fn lemma_val_bound(x: Self) {
        lemma_pow2_widths();
    }

    fn bit_size() -> (r: u32) {
        128
    }

    fn leading_zeros_of(self) -> (r: u32) {
        dword_leading_zeros(self)
    }

    fn from_byte(v: u8) -> (r: Self) {
        v as u128
    }

    fn is_zero_value(self) -> (r: bool) {
        self == 0
    }

    fn minus(self, rhs: Self) -> (r: Self) {
        self - rhs
    }

    fn plus(self, rhs: Self) -> (r: Self) {
        proof {
            lemma_pow2_widths();
        }
        self + rhs
    }

    fn times(self, rhs: Self) -> (r: Self) {
        proof {
            lemma_pow2_widths();
        }
        self * rhs
    }

    fn quot(self, rhs: Self) -> (r: Self) {
        self / rhs
    }
}

} // verus!
