//! Mathematical functions on machine words.
use vstd::prelude::*;
use vstd::arithmetic::power2::*;
use vstd::arithmetic::power::*;
use vstd::arithmetic::div_mod::*;
use vstd::arithmetic::mul::*;
use vstd::bits::*;
use crate::arch::word::{DoubleWord, Word};
use crate::primitive::{PrimitiveUnsigned, spec_bit_len, lemma_bit_len_bounds, lemma_pow2_widths, word_base, split_dword, extend_word, double_word, lemma_u128_shl_is_mul, word_leading_zeros, WORD_BITS, lemma_bit_len_le, DWORD_BITS, dword_leading_zeros, lemma_bit_len_unique};

verus! {

/// The length of an integer in bits.
/// 0 for 0.
pub fn bit_len<T: PrimitiveUnsigned>(x: T) -> (r: u32)
    ensures
        r == spec_bit_len(x.spec_val()),
{
    T::bit_size() - x.leading_zeros_of()
}

/// Ceiling of log_2(x).
/// x must be non-zero.
pub fn ceil_log2<T: PrimitiveUnsigned>(x: T) -> (r: u32)
    requires
        x.spec_val() != 0,
    ensures
        r == spec_bit_len((x.spec_val() - 1) as nat),
        x.spec_val() <= pow2(r as nat),
        r > 0 ==> pow2((r - 1) as nat) < x.spec_val(),
{
    let one = T::from_byte(1);
    let r = bit_len(x.minus(one));
    proof {
        let y = (x.spec_val() - 1) as nat;
        lemma_bit_len_bounds(y);
    }
    r
}

/// The ceiling of `a / b`.
pub open spec fn spec_ceil_div(a: nat, b: nat) -> nat
    recommends
        b > 0,
{
    ((a + b - 1) as nat) / b
}

/// `(a - 1) / b + 1 == (a + b - 1) / b` for positive `a`.
proof fn lemma_ceil_div_step(a: nat, b: nat)
    requires
        a > 0,
        b > 0,
    ensures
        ((a - 1) as nat) / b + 1 == spec_ceil_div(a, b),
        ((a - 1) as nat) / b + 1 <= a,
{
    let c = (a - 1) as nat;
    lemma_fundamental_div_mod(c as int, b as int);
    lemma_div_multiples_vanish_fancy(c as int / b as int + 1, c as int % b as int, b as int);
    assert((c / b + 1) * b + c % b == c + b) by {
        lemma_mul_is_distributive_add_other_way(b as int, c as int / b as int, 1);
        lemma_mul_is_commutative(b as int, c as int / b as int);
    }
    lemma_div_is_ordered_by_denominator(c as int, 1, b as int);
}

/// Ceiling of a / b.
pub fn ceil_div<T: PrimitiveUnsigned>(a: T, b: T) -> (r: T)
    requires
        b.spec_val() != 0,
    ensures
        r.spec_val() == spec_ceil_div(a.spec_val(), b.spec_val()),
{
    if a.is_zero_value() {
        proof {
            lemma_basic_div((b.spec_val() - 1) as int, b.spec_val() as int);
        }
        T::from_byte(0)
    } else {
        let one = T::from_byte(1);
        proof {
            lemma_ceil_div_step(a.spec_val(), b.spec_val());
            T::lemma_val_bound(a);
        }
        a.minus(one).quot(b).plus(one)
    }
}

/// Ceiling of a / b.
pub fn ceil_div_usize(a: usize, b: usize) -> (r: usize)
    requires
        b != 0,
    ensures
        r == spec_ceil_div(a as nat, b as nat),
{
    if a == 0 {
        proof {
            lemma_basic_div((b - 1) as int, b as int);
        }
        0
    } else {
        proof {
            lemma_ceil_div_step(a as nat, b as nat);
            assert(((a - 1) as usize / b) as nat == ((a - 1) as nat) / (b as nat));
        }
        (a - 1) / b + 1
    }
}

/// Round up a to a multiple of b.
pub fn round_up<T: PrimitiveUnsigned>(a: T, b: T) -> (r: T)
    requires
        b.spec_val() != 0,
        spec_ceil_div(a.spec_val(), b.spec_val()) * b.spec_val() < pow2(T::spec_bits()),
    ensures
        r.spec_val() == spec_ceil_div(a.spec_val(), b.spec_val()) * b.spec_val(),
{
    ceil_div(a, b).times(b)
}

/// Round up a to a multiple of b.
pub fn round_up_usize(a: usize, b: usize) -> (r: usize)
    requires
        b != 0,
        spec_ceil_div(a as nat, b as nat) * b <= usize::MAX,
    ensures
        r == spec_ceil_div(a as nat, b as nat) * b,
{
    ceil_div_usize(a, b) * b
}

/// `(2^(a+b) - 1) / 2^b == 2^a - 1`.
proof fn lemma_ones_div(a: nat, b: nat)
    ensures
        ((pow2(a + b) - 1) as nat) / pow2(b) == (pow2(a) - 1) as nat,
{
    lemma_pow2_adds(a, b);
    lemma_pow2_pos(a);
    lemma_pow2_pos(b);
    let x = (pow2(a + b) - 1) as int;
    assert(x == (pow2(a) as int - 1) * pow2(b) as int + (pow2(b) as int - 1)) by {
        lemma_mul_is_distributive_sub_other_way(pow2(b) as int, pow2(a) as int, 1);
    }
    lemma_div_multiples_vanish_fancy(pow2(a) as int - 1, pow2(b) as int - 1, pow2(b) as int);
}

/// n ones: 2^n - 1
pub fn ones_word(n: u32) -> (r: Word)
    requires
        n <= 64,
    ensures
        r == low_bits_mask(n as nat),
{
    if n == 0 {
        proof {
            lemma2_to64();
        }
        0
    } else {
        proof {
            lemma_u64_shr_is_div(u64::MAX, (64 - n) as u64);
            lemma_ones_div(n as nat, (64 - n) as nat);
            lemma_pow2_widths();
            assert(n as nat + (64 - n) as nat == 64);
        }
        Word::MAX >> (64 - n)
    }
}

/// n ones: 2^n - 1
pub fn ones_dword(n: u32) -> (r: DoubleWord)
    requires
        n <= 128,
    ensures
        r == low_bits_mask(n as nat),
{
    if n == 0 {
        proof {
            lemma2_to64();
        }
        0
    } else {
        proof {
            lemma_u128_shr_is_div(u128::MAX, (128 - n) as u128);
            lemma_ones_div(n as nat, (128 - n) as nat);
            lemma_pow2_widths();
            assert(n as nat + (128 - n) as nat == 128);
        }
        DoubleWord::MAX >> (128 - n)
    }
}

/// Multiply two `Word`s with carry and return the (low, high) parts of the product
/// This operation will not overflow.
pub fn mul_add_carry(lhs: Word, rhs: Word, carry: Word) -> (res: (Word, Word))
    ensures
        res.0 + res.1 * word_base() == lhs * rhs + carry,
{
    proof {
        lemma_mul_upper_bound(lhs as int, u64::MAX as int, rhs as int, u64::MAX as int);
    }
    let (lo, hi) = split_dword(extend_word(lhs) * extend_word(rhs) + extend_word(carry));
    (lo, hi)
}

/// Multiply two `Word`s with 2 carries and return the (low, high) parts of the product.
/// This operation will not overflow.
pub fn mul_add_2carry(lhs: Word, rhs: Word, c0: Word, c1: Word) -> (res: (Word, Word))
    ensures
        res.0 + res.1 * word_base() == lhs * rhs + c0 + c1,
{
    proof {
        lemma_mul_upper_bound(lhs as int, u64::MAX as int, rhs as int, u64::MAX as int);
    }
    let (lo, hi) = split_dword(extend_word(lhs) * extend_word(rhs) + extend_word(c0) + extend_word(c1));
    (lo, hi)
}

/// Calculate dw << shift, assuming shift <= Word::BIT_SIZE, returns (lo, mid, hi).
pub fn shl_dword(dw: DoubleWord, shift: u32) -> (res: (Word, Word, Word))
    requires
        shift <= 64,
    ensures
        res.0 + res.1 * word_base() + res.2 * word_base() * word_base() == dw * pow2(shift as nat),
{
    let (lo, hi) = split_dword(dw);
    proof {
        lemma_pow2_widths();
        lemma_pow2_increases(shift as nat, 64);
        lemma_pow2_pos(shift as nat);
        lemma_mul_upper_bound(lo as int, u64::MAX as int, pow2(shift as nat) as int, pow2(64) as int);
        lemma_u128_shl_is_mul(lo as u128, shift as nat);
        lemma_mul_upper_bound(hi as int, u64::MAX as int, pow2(shift as nat) as int, pow2(64) as int);
        lemma_u128_shl_is_mul(hi as u128, shift as nat);
    }
    let (n0, carry) = split_dword(extend_word(lo) << shift);
    proof {
        // the carry is below 2^shift
        assert(carry < pow2(shift as nat)) by {
            lemma_mul_strict_inequality(lo as int, pow2(64) as int, pow2(shift as nat) as int);
            lemma_mul_is_commutative(pow2(64) as int, pow2(shift as nat) as int);
            if carry >= pow2(shift as nat) {
                lemma_mul_inequality(pow2(shift as nat) as int, carry as int, word_base() as int);
            }
        }
        let h = (hi as u128) << shift;
        let c = carry as u128;
        assert((h as nat) % pow2(shift as nat) == 0) by {
            lemma_mod_multiples_basic(hi as int, pow2(shift as nat) as int);
        }
        lemma_or_is_add_low(hi as u128, c, shift);
    }
    let (n1, n2) = split_dword((extend_word(hi) << shift) | extend_word(carry));
    proof {
        let p = pow2(shift as nat) as int;
        let bb = word_base() as int;
        assert(n0 + n1 * bb + n2 * bb * bb == (hi * bb + lo) * p) by (nonlinear_arith)
            requires
                lo * p == carry * bb + n0,
                hi * p + carry == n2 * bb + n1;
    }
    (n0, n1, n2)
}

/// `(h << s) | c == (h << s) + c` when `c < 2^s`.
proof fn lemma_or_is_add_low(h: u128, c: u128, s: u32)
    requires
        s <= 64,
        h < 0x1_0000_0000_0000_0000,
        c < pow2(s as nat),
    ensures
        (h << s) | c == (h << s) + c,
{
    lemma_u128_pow2_shl(s as nat);
    let m = 1u128 << s;
    assert((h << s) | c == (h << s) + c) by (bit_vector)
        requires
            s <= 64,
            h < 0x1_0000_0000_0000_0000,
            c < m,
            m == 1u128 << s;
}

/// `1 << s == 2^s` for u128.
pub proof fn lemma_u128_pow2_shl(s: nat)
    requires
        s < 128,
    ensures
        (1u128 << s) == pow2(s),
    decreases s,
{
    if s == 0 {
        lemma2_to64();
        assert(1u128 << 0u128 == 1) by (bit_vector);
    } else {
        lemma_u128_pow2_shl((s - 1) as nat);
        lemma_pow2_unfold(s);
        let t = (s - 1) as u128;
        assert((1u128 << (t + 1)) == 2 * (1u128 << t)) by (bit_vector)
            requires t < 127;
    }
}

/// Calculate w >> shift, return (result, shifted bits)
/// Note that the shifted bits are put on the highest bits of the Word
pub fn shr_word(w: Word, shift: u32) -> (res: (Word, Word))
    requires
        shift <= 64,
    ensures
        res.0 == (w as nat) / pow2(shift as nat),
        res.1 == ((w as nat) % pow2(shift as nat)) * pow2((64 - shift) as nat),
{
    let x = double_word(0, w);
    proof {
        lemma_pow2_widths();
        lemma_pow2_pos(shift as nat);
        lemma_pow2_pos((64 - shift) as nat);
        if shift < 128 {
            lemma_u128_shr_is_div(x, shift as u128);
        }
        lemma_pow2_adds(shift as nat, (64 - shift) as nat);
        assert(shift as nat + (64 - shift) as nat == 64);
        let p = pow2(shift as nat) as int;
        let pc = pow2((64 - shift) as nat) as int;
        lemma_fundamental_div_mod(w as int, p);
        let q = w as int / p;
        let r = w as int % p;
        // w * 2^64 / 2^s == w * 2^(64-s)
        assert(x as int == (w as int * pc) * p) by {
            lemma_mul_is_associative(w as int, pc, p);
        }
        lemma_div_multiples_vanish(w as int * pc, p);
        lemma_mul_is_commutative(w as int * pc, p);
        // w * 2^(64-s) = q * 2^64 + r * 2^(64-s)
        assert(w as int * pc == q * (pc * p) + r * pc) by (nonlinear_arith)
            requires w as int == p * q + r;
        lemma_mod_bound(w as int, p);
        assert(r * pc < pc * p) by (nonlinear_arith)
            requires 0 <= r < p, pc > 0;
        lemma_mul_is_commutative(pc, p);
        assert(r * pc >= 0) by (nonlinear_arith) requires r >= 0, pc > 0;
        lemma_fundamental_div_mod_converse(w as int * pc, pc * p, q, r * pc);
    }
    let (c, r) = split_dword(x >> shift);
    proof {
        let p = pow2(shift as nat) as int;
        let pc = pow2((64 - shift) as nat) as int;
        lemma_fundamental_div_mod_converse((x >> shift) as int, word_base() as int, r as int, c as int);
    }
    (r, c)
}

/// Powers of two are monotone.
proof fn lemma_pow2_increases(a: nat, b: nat)
    requires
        a <= b,
    ensures
        pow2(a) <= pow2(b),
{
    if a < b {
        lemma_pow2_strictly_increases(a, b);
    }
}

/// `(x1 b + x0)(y1 b + y0) = x1 y1 b^2 + (x1 y0 + x0 y1) b + x0 y0`.
proof fn lemma_expand_product(x1: int, x0: int, y1: int, y0: int, b: int)
    ensures
        (x1 * b + x0) * (y1 * b + y0) == (x1 * y1) * (b * b) + (x1 * y0 + x0 * y1) * b + x0 * y0,
{
    let lhs = x1 * b + x0;
    let rhs = y1 * b + y0;
    lemma_mul_is_distributive_add_other_way(rhs, x1 * b, x0);
    lemma_mul_is_distributive_add(x1 * b, y1 * b, y0);
    lemma_mul_is_distributive_add(x0, y1 * b, y0);
    assert((x1 * b) * (y1 * b) == (x1 * y1) * (b * b)) by {
        lemma_mul_is_associative(x1, b, y1 * b);
        lemma_mul_is_associative(b, y1, b);
        lemma_mul_is_commutative(b, y1);
        lemma_mul_is_associative(y1, b, b);
        lemma_mul_is_associative(x1, y1, b * b);
    }
    assert((x1 * b) * y0 == (x1 * y0) * b) by {
        lemma_mul_is_associative(x1, b, y0);
        lemma_mul_is_commutative(b, y0);
        lemma_mul_is_associative(x1, y0, b);
    }
    assert(x0 * (y1 * b) == (x0 * y1) * b) by {
        lemma_mul_is_associative(x0, y1, b);
    }
    lemma_mul_is_distributive_add_other_way(b, x1 * y0, x0 * y1);
}

/// Multiply two `DoubleWord`s with carry and return the (low, high) parts of the product.
/// This operation will not overflow.
pub fn mul_add_carry_dword(lhs: DoubleWord, rhs: DoubleWord, carry: DoubleWord) -> (res: (DoubleWord, DoubleWord))
    ensures
        res.0 + res.1 * (word_base() * word_base()) == lhs * rhs + carry,
{
    let (x0, x1) = split_dword(lhs);
    let (y0, y1) = split_dword(rhs);
    let (ic0, ic1) = split_dword(carry);

    let (z0, c0) = mul_add_carry(x0, y0, ic0);
    let (z1, c1a) = mul_add_carry(x1, y0, c0);
    let (z1b, c1b) = mul_add_2carry(x0, y1, z1, ic1);
    let (z2, z3) = mul_add_2carry(x1, y1, c1a, c1b);

    let lo = double_word(z0, z1b);
    let hi = double_word(z2, z3);
    proof {
        let bb = word_base() as int;
        let p = x0 * y0;
        let q = x1 * y0;
        let r = x0 * y1;
        let t = x1 * y1;
        lemma_expand_product(x1 as int, x0 as int, y1 as int, y0 as int, bb);
        assert(bb * bb == 0x1_0000_0000_0000_0000_0000_0000_0000_0000int);
        assert(z0 + c0 * bb == p + ic0);
        assert(z1 + c1a * bb == q + c0);
        assert(z1b + c1b * bb == r + z1 + ic1);
        assert(z2 + z3 * bb == t + c1a + c1b);
        let prod = lhs * rhs;
        assert(prod + carry == z0 + z1b * bb + (z2 + z3 * bb) * (bb * bb)) by (nonlinear_arith)
            requires
                bb == 0x1_0000_0000_0000_0000int,
                prod == t * (bb * bb) + (q + r) * bb + p,
                carry == ic1 * bb + ic0,
                z0 + c0 * bb == p + ic0,
                z1 + c1a * bb == q + c0,
                z1b + c1b * bb == r + z1 + ic1,
                z2 + z3 * bb == t + c1a + c1b;
        assert(lo == z1b * bb + z0);
        assert(hi == z3 * bb + z2);
    }
    (lo, hi)
}

/// `a^e <= b^e` for `0 <= a <= b`, strictly when `a < b` and `e > 0`.
proof fn lemma_pow_base_monotone(a: nat, b: nat, e: nat)
    requires
        a <= b,
    ensures
        pow(a as int, e) <= pow(b as int, e),
        a < b && e > 0 ==> pow(a as int, e) < pow(b as int, e),
    decreases e,
{
    reveal(pow);
    if e > 0 {
        lemma_pow_base_monotone(a, b, (e - 1) as nat);
        let pa = pow(a as int, (e - 1) as nat);
        let pb = pow(b as int, (e - 1) as nat);
        lemma_pow_nonneg(a, (e - 1) as nat);
        lemma_pow_nonneg(b, (e - 1) as nat);
        if b > 0 {
            lemma_pow_positive(b as int, (e - 1) as nat);
        }
        assert(a * pa <= b * pb) by (nonlinear_arith)
            requires 0 <= a <= b, 0 <= pa <= pb;
        assert(a < b ==> a * pa < b * pb) by (nonlinear_arith)
            requires 0 <= a, 0 <= pa <= pb, b > 0 ==> pb > 0;
    }
}

/// Natural numbers have natural powers.
proof fn lemma_pow_nonneg(a: nat, e: nat)
    ensures
        pow(a as int, e) >= 0,
    decreases e,
{
    reveal(pow);
    if e > 0 {
        lemma_pow_nonneg(a, (e - 1) as nat);
        let pa = pow(a as int, (e - 1) as nat);
        assert(a * pa >= 0) by (nonlinear_arith) requires a >= 0, pa >= 0;
    }
}

/// base^exp for a word base, computed by repeated multiplication.
fn pow_word(base: Word, exp: u32) -> (r: Word)
    requires
        base >= 1,
        pow(base as int, exp as nat) <= u64::MAX,
    ensures
        r == pow(base as int, exp as nat),
{
    let mut r: Word = 1;
    let mut i: u32 = 0;
    proof {
        lemma_pow0(base as int);
    }
    while i < exp
        invariant
            i <= exp,
            base >= 1,
            pow(base as int, exp as nat) <= u64::MAX,
            r == pow(base as int, i as nat),
        decreases exp - i,
    {
        proof {
            lemma_pow_increases(base as nat, (i + 1) as nat, exp as nat);
            reveal(pow);
            assert(pow(base as int, (i + 1) as nat) == base * pow(base as int, i as nat));
        }
        r = r * base;
        i = i + 1;
    }
    r
}

/// Calculate the max k such that base^k <= Word::MAX, return (k, base^k)
pub fn max_exp_in_word(base: Word) -> (res: (usize, Word))
    requires
        base > 2,
    ensures
        res.1 == pow(base as int, res.0 as nat),
        res.1 * base > u64::MAX,
        res.0 >= 1,
{
    // shortcut
    if base > ones_word(WORD_BITS / 2) {
        proof {
            lemma_pow1(base as int);
            lemma_pow2_widths();
            assert(base * base > u64::MAX) by (nonlinear_arith)
                requires base >= 0x1_0000_0000int;
        }
        return (1, base);
    }

    // estimate log_base(Word::MAX)
    let bits = WORD_BITS - word_leading_zeros(base);
    let mut exp = WORD_BITS / bits;
    proof {
        lemma_bit_len_bounds(base as nat);
        let bl = bits as nat;
        lemma_pow_base_monotone(base as nat, pow2(bl), exp as nat);
        lemma_pow2(bl);
        lemma_pow_multiplies(2, bl, exp as nat);
        lemma_pow2(bl * exp as nat);
        assert(bl * (exp as nat) <= 64) by {
            lemma_fundamental_div_mod(64, bl as int);
            lemma_mod_bound(64, bl as int);
            lemma_mul_is_commutative(bl as int, exp as int);
        }
        lemma_pow2_increases(bl * exp as nat, 64);
        lemma_pow2_widths();
        assert(exp >= 1) by {
            lemma_div_is_ordered(bl as int, 64, bl as int);
            lemma_div_by_self(bl as int);
        }
    }
    let mut pow_val: Word = pow_word(base, exp);
    proof {
        lemma_pow_base_monotone(2, base as nat, exp as nat);
        lemma_pow2(exp as nat);
    }
    loop
        invariant
            base > 2,
            pow_val == pow(base as int, exp as nat),
            pow2(exp as nat) <= pow_val,
            exp >= 1,
        ensures
            pow_val == pow(base as int, exp as nat),
            pow_val * base > u64::MAX,
            exp >= 1,
        decreases u64::MAX - pow_val,
    {
        match pow_val.checked_mul(base) {
            Some(prod) => {
                proof {
                    reveal(pow);
                    lemma_pow_adds(base as int, exp as nat, 1);
                    lemma_pow1(base as int);
                    lemma_pow2_unfold(exp as nat + 1);
                    lemma_pow2_widths();
                    lemma_pow2_pos(exp as nat);
                    assert(pow2(exp as nat) < pow2(64) ==> exp < 64) by {
                        if exp >= 64 {
                            lemma_pow2_increases(64, exp as nat);
                        }
                    }
                    assert(pow_val * 2 <= prod) by (nonlinear_arith)
                        requires prod == pow_val * base, base > 2, pow_val >= 0;
                    assert(prod > pow_val) by (nonlinear_arith)
                        requires prod == pow_val * base, base > 2, pow_val >= 1;
                }
                exp = exp + 1;
                pow_val = prod;
            },
            None => {
                break;
            },
        }
    }
    (exp as usize, pow_val)
}

/// Calculate the max k such that base^k <= DoubleWord::MAX, return (k, base^k)
pub fn max_exp_in_dword(base: Word) -> (res: (usize, DoubleWord))
    requires
        base > 2,
    ensures
        res.1 == pow(base as int, res.0 as nat),
        res.1 * base > u128::MAX,
{
    let (exp, pow_w) = max_exp_in_word(base);
    proof {
        lemma_pow_adds(base as int, exp as nat, exp as nat);
        lemma_mul_upper_bound(pow_w as int, u64::MAX as int, pow_w as int, u64::MAX as int);
        assert(exp <= 64) by {
            lemma_pow_base_monotone(2, base as nat, exp as nat);
            lemma_pow2(exp as nat);
            lemma_pow2_widths();
            if exp > 64 {
                lemma_pow2_increases(64, exp as nat);
            }
        }
    }
    let (exp2, pow2_val) = (2 * exp, extend_word(pow_w) * extend_word(pow_w));
    proof {
        // base^(exp+1) > Word::MAX, so base^(2 exp + 2) > DoubleWord::MAX
        let e = pow_w as int * base as int;
        assert(e * e > u128::MAX) by (nonlinear_arith)
            requires e > u64::MAX as int;
        assert(pow2_val * base * base == e * e) by (nonlinear_arith)
            requires pow2_val == pow_w * pow_w, e == pow_w * base;
    }
    match pow2_val.checked_mul(extend_word(base)) {
        Some(prod) => {
            proof {
                lemma_pow_adds(base as int, (2 * exp) as nat, 1);
                lemma_pow1(base as int);
                assert(prod * base > u128::MAX) by (nonlinear_arith)
                    requires prod == pow2_val * base, pow2_val * base * base > u128::MAX;
            }
            (exp2 + 1, prod)
        },
        None => (exp2, pow2_val),
    }
}

// 8bit fixed point estimation of log2(x), x from 0x80 to 0xff, rounding down.
const LOG2_TAB: [u8; 128] = [
    0x00, 0x02, 0x05, 0x08, 0x0b, 0x0e, 0x10, 0x13,
    0x16, 0x19, 0x1b, 0x1e, 0x21, 0x23, 0x26, 0x28,
    0x2b, 0x2e, 0x30, 0x33, 0x35, 0x38, 0x3a, 0x3d,
    0x3f, 0x41, 0x44, 0x46, 0x49, 0x4b, 0x4d, 0x50,
    0x52, 0x54, 0x57, 0x59, 0x5b, 0x5d, 0x60, 0x62,
    0x64, 0x66, 0x68, 0x6a, 0x6d, 0x6f, 0x71, 0x73,
    0x75, 0x77, 0x79, 0x7b, 0x7d, 0x7f, 0x81, 0x84,
    0x86, 0x88, 0x8a, 0x8c, 0x8d, 0x8f, 0x91, 0x93,
    0x95, 0x97, 0x99, 0x9b, 0x9d, 0x9f, 0xa1, 0xa2,
    0xa4, 0xa6, 0xa8, 0xaa, 0xac, 0xad, 0xaf, 0xb1,
    0xb3, 0xb5, 0xb6, 0xb8, 0xba, 0xbc, 0xbd, 0xbf,
    0xc1, 0xc2, 0xc4, 0xc6, 0xc8, 0xc9, 0xcb, 0xcd,
    0xce, 0xd0, 0xd1, 0xd3, 0xd5, 0xd6, 0xd8, 0xda,
    0xdb, 0xdd, 0xde, 0xe0, 0xe1, 0xe3, 0xe5, 0xe6,
    0xe8, 0xe9, 0xeb, 0xec, 0xee, 0xef, 0xf1, 0xf2,
    0xf4, 0xf5, 0xf7, 0xf8, 0xfa, 0xfb, 0xfd, 0xfe,
];

/// Every entry of the table is a fraction below one (in 1/256 units), at most 254.
proof fn lemma_log2_tab_bound(i: int)
    requires
        0 <= i < 128,
    ensures
        LOG2_TAB[i] <= 254,
{
    assert(LOG2_TAB[i] <= 254);
}

/// If `2^(b-1) <= n < 2^b` and `s < b`, then `2^(b-1-s) <= n / 2^s < 2^(b-s)`.
proof fn lemma_div_pow2_range(n: nat, b: nat, s: nat)
    requires
        b >= 1,
        s < b,
        pow2((b - 1) as nat) <= n < pow2(b),
    ensures
        pow2((b - 1 - s) as nat) <= n / pow2(s) < pow2((b - s) as nat),
{
    lemma_pow2_pos(s);
    lemma_pow2_adds((b - 1 - s) as nat, s);
    lemma_pow2_adds((b - s) as nat, s);
    assert((b - 1 - s) as nat + s == (b - 1) as nat);
    assert((b - s) as nat + s == b);
    lemma_div_is_ordered(pow2((b - 1) as nat) as int, n as int, pow2(s) as int);
    lemma_div_multiples_vanish(pow2((b - 1 - s) as nat) as int, pow2(s) as int);
    lemma_mul_is_commutative(pow2((b - 1 - s) as nat) as int, pow2(s) as int);
    lemma_div_strictly_bounded_helper(n, pow2(s), pow2((b - s) as nat));
}

/// `x < a * b` with `a > 0` gives `x / a < b`.
proof fn lemma_div_strictly_bounded_helper(x: nat, a: nat, b: nat)
    requires
        a > 0,
        x < b * a,
    ensures
        x / a < b,
{
    lemma_mul_is_commutative(b as int, a as int);
    lemma_div_by_multiple_is_strongly_ordered(x as int, (b * a) as int, b as int, a as int);
    lemma_div_by_multiple(b as int, a as int);
}

/// Whether `n` is a power of two.
pub open spec fn spec_is_power_of_two(n: nat) -> bool {
    exists|k: nat| pow2(k) == n
}

/// A word is a power of two exactly when it is non-zero and shares no bit with its predecessor;
/// its trailing zero count is then its exponent.
pub proof fn lemma_word_power_of_two(x: Word)
    ensures
        spec_is_power_of_two(x as nat) <==> (x != 0 && x & ((x - 1) as u64) == 0),
        spec_is_power_of_two(x as nat) ==> pow2(vstd::std_specs::bits::u64_trailing_zeros(x) as nat)
            == x,
{
    vstd::std_specs::bits::axiom_u64_trailing_zeros(x);
    let t = vstd::std_specs::bits::u64_trailing_zeros(x) as u64;
    if spec_is_power_of_two(x as nat) {
        let k = choose|k: nat| pow2(k) == x as nat;
        lemma_pow2_widths();
        if k >= 64 {
            lemma_pow2_strictly_increases_or_equal_local(64, k);
        }
        assert(k < 64);
        lemma_u64_pow2_no_overflow(k);
        lemma_u64_shl_is_mul(1, k as u64);
        let kk = k as u64;
        assert(x == 1u64 << kk);
        assert(kk < 64 ==> (1u64 << kk) != 0 && (1u64 << kk) & (((1u64 << kk) - 1) as u64) == 0) by (bit_vector);
        assert(kk < 64 && t < 64 && ((1u64 << kk) >> t) & 1 == 1 ==> t == kk) by (bit_vector);
    }
    if x != 0 && x & ((x - 1) as u64) == 0 {
        assert(t < 64);
        assert(x != 0 && x & ((x - 1) as u64) == 0 && t < 64 && (x >> t) & 1 == 1 ==> x == 1u64 << t)
            by (bit_vector);
        lemma_u64_pow2_no_overflow(t as nat);
        lemma_u64_shl_is_mul(1, t);
        assert(pow2(t as nat) == x as nat);
    }
}

/// Powers of two are monotone.
proof fn lemma_pow2_strictly_increases_or_equal_local(a: nat, b: nat)
    requires
        a <= b,
    ensures
        pow2(a) <= pow2(b),
{
    if a < b {
        lemma_pow2_strictly_increases(a, b);
    }
}

/// Whether a word is a power of two.
pub fn word_is_power_of_two(x: Word) -> (r: bool)
    ensures
        r == spec_is_power_of_two(x as nat),
{
    proof {
        lemma_word_power_of_two(x);
    }
    x != 0 && x & (x - 1) == 0
}

/// The exponent of a power of two word.
pub fn word_log2_exact(x: Word) -> (r: u32)
    requires
        spec_is_power_of_two(x as nat),
    ensures
        pow2(r as nat) == x,
        r < 64,
{
    proof {
        lemma_word_power_of_two(x);
        vstd::std_specs::bits::axiom_u64_trailing_zeros(x);
    }
    x.trailing_zeros()
}

/// A value strictly between `2^(b-1)` and `2^b` is not a power of two.
proof fn lemma_not_power_of_two_between(n: nat, b: nat)
    requires
        b >= 1,
        pow2((b - 1) as nat) < n < pow2(b),
    ensures
        !spec_is_power_of_two(n),
{
    if spec_is_power_of_two(n) {
        let k = choose|k: nat| pow2(k) == n;
        if k <= b - 1 {
            lemma_pow2_increases(k, (b - 1) as nat);
        } else {
            lemma_pow2_increases(b, k);
        }
    }
}

/// `x^256`, by eight squarings.
spec fn pow256(x: int) -> int {
    let x2 = x * x;
    let x4 = x2 * x2;
    let x8 = x4 * x4;
    let x16 = x8 * x8;
    let x32 = x16 * x16;
    let x64 = x32 * x32;
    let x128 = x64 * x64;
    x128 * x128
}

/// `2^t` for `0 <= t < 256`, as the product over the bits of `t`.
spec fn pow2_small(t: int) -> int {
    (if t % 2 == 1 { 2int } else { 1int }) * (if (t / 2) % 2 == 1 { 4int } else { 1int }) * (if (t
        / 4) % 2 == 1 { 16int } else { 1int }) * (if (t / 8) % 2 == 1 { 0x100int } else { 1int })
        * (if (t / 16) % 2 == 1 { 0x1_0000int } else { 1int }) * (if (t / 32) % 2 == 1 {
        0x1_0000_0000int
    } else { 1int }) * (if (t / 64) % 2 == 1 { 0x1_0000_0000_0000_0000int } else { 1int }) * (
    if (t / 128) % 2 == 1 { 0x1_0000_0000_0000_0000_0000_0000_0000_0000int } else { 1int })
}

/// Two to the power of the table entry for the leading byte `m` (from 0x80 to 0xff).
#[verifier::opaque]
spec fn log2_tab_pow(m: int) -> int {
    pow2_small(LOG2_TAB[m - 128] as int)
}

/// What the estimates need of the table entry for the leading byte `m`, given `t`, two to the
/// power of the entry, and `u`, two to the power of the next entry; `2^(e + 256 k)` is written
/// `(2^k)^256 2^e`. The entry is the floor of `256 log2(m / 128)`, and the steps that the
/// estimates take from it (an extra bit, the next entry) stay within their error bounds.
spec fn log2_tab_fits_with(m: int, t: int, u: int) -> bool {
    &&& pow256(128) * t <= pow256(m)
    &&& pow256(m) <= pow256(128) * t * 2
    &&& pow256(2 * m + 1) < pow256(256) * t * 8
    &&& pow256(512) * t * 2 <= pow256(4 * m + 3)
    &&& (m != 129 ==> pow256(4 * m + 3) <= pow256(512) * t * 8)
    &&& pow256(m + 1) <= pow256(128) * t * 16
    &&& pow256(16384) * t * 2 <= pow256(128 * m + 80)
    &&& pow256(128 * m + 80) <= pow256(16384) * t * 8
    &&& (m < 255 ==> pow256(4 * m + 1) <= pow256(512) * u)
    &&& (m < 255 ==> pow256(128) * u < pow256(m) * 8)
    &&& (m < 255 ==> pow256(512) * u < pow256(4 * m + 1) * 4)
}

/// The windows of `4 * 129 + 3` for the bits below the leading byte 129: the numbers just
/// below `(4 * 129 + 3) 2^(s - 2)` stay within the error bound (`t` is two to the power of the
/// entry for 129).
spec fn log2_tab_129_window_fits(s: int, t: int) -> bool {
    pow256(519 * pow2_small(s - 2) - 1) < pow256(128 * pow2_small(s)) * t * 8
}

/// [log2_tab_fits_with] for the table itself.
#[verifier::opaque]
spec fn log2_tab_fits(m: int) -> bool {
    log2_tab_fits_with(m, log2_tab_pow(m), if m < 255 { log2_tab_pow(m + 1) } else { 0 })
}


/// [log2_tab_fits] for the leading bytes 0x80 to 0x87.
proof fn lemma_log2_tab_fits_80(m: int)
    requires
        128 <= m < 136,
    ensures
        log2_tab_fits(m),
        forall|s: int| 2 <= s <= 7 ==> #[trigger] log2_tab_129_window_fits(s, log2_tab_pow(129)),
{
    reveal(log2_tab_fits);
    reveal(log2_tab_pow);
    assert(log2_tab_fits_with(128, 0x1int, 0x4int) && log2_tab_fits_with(129, 0x4int, 0x20int) && log2_tab_fits_with(130, 0x20int, 0x100int) && log2_tab_fits_with(131, 0x100int, 0x800int) && log2_tab_fits_with(132, 0x800int, 0x4000int) && log2_tab_fits_with(133, 0x4000int, 0x10000int) && log2_tab_fits_with(134, 0x10000int, 0x80000int) && log2_tab_fits_with(135, 0x80000int, 0x400000int) && log2_tab_129_window_fits(2, 0x4int) && log2_tab_129_window_fits(3, 0x4int) && log2_tab_129_window_fits(4, 0x4int) && log2_tab_129_window_fits(5, 0x4int) && log2_tab_129_window_fits(6, 0x4int) && log2_tab_129_window_fits(7, 0x4int)) by (bit_vector);
    assert(log2_tab_pow(129) == 0x4int);
    if m == 128 {
        assert(log2_tab_pow(128) == 0x1int);
        assert(log2_tab_pow(129) == 0x4int);
    } else if m == 129 {
        assert(log2_tab_pow(129) == 0x4int);
        assert(log2_tab_pow(130) == 0x20int);
    } else if m == 130 {
        assert(log2_tab_pow(130) == 0x20int);
        assert(log2_tab_pow(131) == 0x100int);
    } else if m == 131 {
        assert(log2_tab_pow(131) == 0x100int);
        assert(log2_tab_pow(132) == 0x800int);
    } else if m == 132 {
        assert(log2_tab_pow(132) == 0x800int);
        assert(log2_tab_pow(133) == 0x4000int);
    } else if m == 133 {
        assert(log2_tab_pow(133) == 0x4000int);
        assert(log2_tab_pow(134) == 0x10000int);
    } else if m == 134 {
        assert(log2_tab_pow(134) == 0x10000int);
        assert(log2_tab_pow(135) == 0x80000int);
    } else {
        assert(log2_tab_pow(135) == 0x80000int);
        assert(log2_tab_pow(136) == 0x400000int);
    }
}

/// [log2_tab_fits] for the leading bytes 0x88 to 0x8f.
proof fn lemma_log2_tab_fits_88(m: int)
    requires
        136 <= m < 144,
    ensures
        log2_tab_fits(m),
{
    reveal(log2_tab_fits);
    reveal(log2_tab_pow);
    assert(log2_tab_fits_with(136, 0x400000int, 0x2000000int) && log2_tab_fits_with(137, 0x2000000int, 0x8000000int) && log2_tab_fits_with(138, 0x8000000int, 0x40000000int) && log2_tab_fits_with(139, 0x40000000int, 0x200000000int) && log2_tab_fits_with(140, 0x200000000int, 0x800000000int) && log2_tab_fits_with(141, 0x800000000int, 0x4000000000int) && log2_tab_fits_with(142, 0x4000000000int, 0x10000000000int) && log2_tab_fits_with(143, 0x10000000000int, 0x80000000000int)) by (bit_vector);
    if m == 136 {
        assert(log2_tab_pow(136) == 0x400000int);
        assert(log2_tab_pow(137) == 0x2000000int);
    } else if m == 137 {
        assert(log2_tab_pow(137) == 0x2000000int);
        assert(log2_tab_pow(138) == 0x8000000int);
    } else if m == 138 {
        assert(log2_tab_pow(138) == 0x8000000int);
        assert(log2_tab_pow(139) == 0x40000000int);
    } else if m == 139 {
        assert(log2_tab_pow(139) == 0x40000000int);
        assert(log2_tab_pow(140) == 0x200000000int);
    } else if m == 140 {
        assert(log2_tab_pow(140) == 0x200000000int);
        assert(log2_tab_pow(141) == 0x800000000int);
    } else if m == 141 {
        assert(log2_tab_pow(141) == 0x800000000int);
        assert(log2_tab_pow(142) == 0x4000000000int);
    } else if m == 142 {
        assert(log2_tab_pow(142) == 0x4000000000int);
        assert(log2_tab_pow(143) == 0x10000000000int);
    } else {
        assert(log2_tab_pow(143) == 0x10000000000int);
        assert(log2_tab_pow(144) == 0x80000000000int);
    }
}

/// [log2_tab_fits] for the leading bytes 0x90 to 0x97.
proof fn lemma_log2_tab_fits_90(m: int)
    requires
        144 <= m < 152,
    ensures
        log2_tab_fits(m),
{
    reveal(log2_tab_fits);
    reveal(log2_tab_pow);
    assert(log2_tab_fits_with(144, 0x80000000000int, 0x400000000000int) && log2_tab_fits_with(145, 0x400000000000int, 0x1000000000000int) && log2_tab_fits_with(146, 0x1000000000000int, 0x8000000000000int) && log2_tab_fits_with(147, 0x8000000000000int, 0x20000000000000int) && log2_tab_fits_with(148, 0x20000000000000int, 0x100000000000000int) && log2_tab_fits_with(149, 0x100000000000000int, 0x400000000000000int) && log2_tab_fits_with(150, 0x400000000000000int, 0x2000000000000000int) && log2_tab_fits_with(151, 0x2000000000000000int, 0x8000000000000000int)) by (bit_vector);
    if m == 144 {
        assert(log2_tab_pow(144) == 0x80000000000int);
        assert(log2_tab_pow(145) == 0x400000000000int);
    } else if m == 145 {
        assert(log2_tab_pow(145) == 0x400000000000int);
        assert(log2_tab_pow(146) == 0x1000000000000int);
    } else if m == 146 {
        assert(log2_tab_pow(146) == 0x1000000000000int);
        assert(log2_tab_pow(147) == 0x8000000000000int);
    } else if m == 147 {
        assert(log2_tab_pow(147) == 0x8000000000000int);
        assert(log2_tab_pow(148) == 0x20000000000000int);
    } else if m == 148 {
        assert(log2_tab_pow(148) == 0x20000000000000int);
        assert(log2_tab_pow(149) == 0x100000000000000int);
    } else if m == 149 {
        assert(log2_tab_pow(149) == 0x100000000000000int);
        assert(log2_tab_pow(150) == 0x400000000000000int);
    } else if m == 150 {
        assert(log2_tab_pow(150) == 0x400000000000000int);
        assert(log2_tab_pow(151) == 0x2000000000000000int);
    } else {
        assert(log2_tab_pow(151) == 0x2000000000000000int);
        assert(log2_tab_pow(152) == 0x8000000000000000int);
    }
}

/// [log2_tab_fits] for the leading bytes 0x98 to 0x9f.
proof fn lemma_log2_tab_fits_98(m: int)
    requires
        152 <= m < 160,
    ensures
        log2_tab_fits(m),
{
    reveal(log2_tab_fits);
    reveal(log2_tab_pow);
    assert(log2_tab_fits_with(152, 0x8000000000000000int, 0x20000000000000000int) && log2_tab_fits_with(153, 0x20000000000000000int, 0x100000000000000000int) && log2_tab_fits_with(154, 0x100000000000000000int, 0x400000000000000000int) && log2_tab_fits_with(155, 0x400000000000000000int, 0x2000000000000000000int) && log2_tab_fits_with(156, 0x2000000000000000000int, 0x8000000000000000000int) && log2_tab_fits_with(157, 0x8000000000000000000int, 0x20000000000000000000int) && log2_tab_fits_with(158, 0x20000000000000000000int, 0x100000000000000000000int) && log2_tab_fits_with(159, 0x100000000000000000000int, 0x400000000000000000000int)) by (bit_vector);
    if m == 152 {
        assert(log2_tab_pow(152) == 0x8000000000000000int);
        assert(log2_tab_pow(153) == 0x20000000000000000int);
    } else if m == 153 {
        assert(log2_tab_pow(153) == 0x20000000000000000int);
        assert(log2_tab_pow(154) == 0x100000000000000000int);
    } else if m == 154 {
        assert(log2_tab_pow(154) == 0x100000000000000000int);
        assert(log2_tab_pow(155) == 0x400000000000000000int);
    } else if m == 155 {
        assert(log2_tab_pow(155) == 0x400000000000000000int);
        assert(log2_tab_pow(156) == 0x2000000000000000000int);
    } else if m == 156 {
        assert(log2_tab_pow(156) == 0x2000000000000000000int);
        assert(log2_tab_pow(157) == 0x8000000000000000000int);
    } else if m == 157 {
        assert(log2_tab_pow(157) == 0x8000000000000000000int);
        assert(log2_tab_pow(158) == 0x20000000000000000000int);
    } else if m == 158 {
        assert(log2_tab_pow(158) == 0x20000000000000000000int);
        assert(log2_tab_pow(159) == 0x100000000000000000000int);
    } else {
        assert(log2_tab_pow(159) == 0x100000000000000000000int);
        assert(log2_tab_pow(160) == 0x400000000000000000000int);
    }
}

/// [log2_tab_fits] for the leading bytes 0xa0 to 0xa7.
proof fn lemma_log2_tab_fits_a0(m: int)
    requires
        160 <= m < 168,
    ensures
        log2_tab_fits(m),
{
    reveal(log2_tab_fits);
    reveal(log2_tab_pow);
    assert(log2_tab_fits_with(160, 0x400000000000000000000int, 0x1000000000000000000000int) && log2_tab_fits_with(161, 0x1000000000000000000000int, 0x8000000000000000000000int) && log2_tab_fits_with(162, 0x8000000000000000000000int, 0x20000000000000000000000int) && log2_tab_fits_with(163, 0x20000000000000000000000int, 0x80000000000000000000000int) && log2_tab_fits_with(164, 0x80000000000000000000000int, 0x200000000000000000000000int) && log2_tab_fits_with(165, 0x200000000000000000000000int, 0x1000000000000000000000000int) && log2_tab_fits_with(166, 0x1000000000000000000000000int, 0x4000000000000000000000000int) && log2_tab_fits_with(167, 0x4000000000000000000000000int, 0x10000000000000000000000000int)) by (bit_vector);
    if m == 160 {
        assert(log2_tab_pow(160) == 0x400000000000000000000int);
        assert(log2_tab_pow(161) == 0x1000000000000000000000int);
    } else if m == 161 {
        assert(log2_tab_pow(161) == 0x1000000000000000000000int);
        assert(log2_tab_pow(162) == 0x8000000000000000000000int);
    } else if m == 162 {
        assert(log2_tab_pow(162) == 0x8000000000000000000000int);
        assert(log2_tab_pow(163) == 0x20000000000000000000000int);
    } else if m == 163 {
        assert(log2_tab_pow(163) == 0x20000000000000000000000int);
        assert(log2_tab_pow(164) == 0x80000000000000000000000int);
    } else if m == 164 {
        assert(log2_tab_pow(164) == 0x80000000000000000000000int);
        assert(log2_tab_pow(165) == 0x200000000000000000000000int);
    } else if m == 165 {
        assert(log2_tab_pow(165) == 0x200000000000000000000000int);
        assert(log2_tab_pow(166) == 0x1000000000000000000000000int);
    } else if m == 166 {
        assert(log2_tab_pow(166) == 0x1000000000000000000000000int);
        assert(log2_tab_pow(167) == 0x4000000000000000000000000int);
    } else {
        assert(log2_tab_pow(167) == 0x4000000000000000000000000int);
        assert(log2_tab_pow(168) == 0x10000000000000000000000000int);
    }
}

/// [log2_tab_fits] for the leading bytes 0xa8 to 0xaf.
proof fn lemma_log2_tab_fits_a8(m: int)
    requires
        168 <= m < 176,
    ensures
        log2_tab_fits(m),
{
    reveal(log2_tab_fits);
    reveal(log2_tab_pow);
    assert(log2_tab_fits_with(168, 0x10000000000000000000000000int, 0x40000000000000000000000000int) && log2_tab_fits_with(169, 0x40000000000000000000000000int, 0x100000000000000000000000000int) && log2_tab_fits_with(170, 0x100000000000000000000000000int, 0x400000000000000000000000000int) && log2_tab_fits_with(171, 0x400000000000000000000000000int, 0x2000000000000000000000000000int) && log2_tab_fits_with(172, 0x2000000000000000000000000000int, 0x8000000000000000000000000000int) && log2_tab_fits_with(173, 0x8000000000000000000000000000int, 0x20000000000000000000000000000int) && log2_tab_fits_with(174, 0x20000000000000000000000000000int, 0x80000000000000000000000000000int) && log2_tab_fits_with(175, 0x80000000000000000000000000000int, 0x200000000000000000000000000000int)) by (bit_vector);
    if m == 168 {
        assert(log2_tab_pow(168) == 0x10000000000000000000000000int);
        assert(log2_tab_pow(169) == 0x40000000000000000000000000int);
    } else if m == 169 {
        assert(log2_tab_pow(169) == 0x40000000000000000000000000int);
        assert(log2_tab_pow(170) == 0x100000000000000000000000000int);
    } else if m == 170 {
        assert(log2_tab_pow(170) == 0x100000000000000000000000000int);
        assert(log2_tab_pow(171) == 0x400000000000000000000000000int);
    } else if m == 171 {
        assert(log2_tab_pow(171) == 0x400000000000000000000000000int);
        assert(log2_tab_pow(172) == 0x2000000000000000000000000000int);
    } else if m == 172 {
        assert(log2_tab_pow(172) == 0x2000000000000000000000000000int);
        assert(log2_tab_pow(173) == 0x8000000000000000000000000000int);
    } else if m == 173 {
        assert(log2_tab_pow(173) == 0x8000000000000000000000000000int);
        assert(log2_tab_pow(174) == 0x20000000000000000000000000000int);
    } else if m == 174 {
        assert(log2_tab_pow(174) == 0x20000000000000000000000000000int);
        assert(log2_tab_pow(175) == 0x80000000000000000000000000000int);
    } else {
        assert(log2_tab_pow(175) == 0x80000000000000000000000000000int);
        assert(log2_tab_pow(176) == 0x200000000000000000000000000000int);
    }
}

/// [log2_tab_fits] for the leading bytes 0xb0 to 0xb7.
proof fn lemma_log2_tab_fits_b0(m: int)
    requires
        176 <= m < 184,
    ensures
        log2_tab_fits(m),
{
    reveal(log2_tab_fits);
    reveal(log2_tab_pow);
    assert(log2_tab_fits_with(176, 0x200000000000000000000000000000int, 0x800000000000000000000000000000int) && log2_tab_fits_with(177, 0x800000000000000000000000000000int, 0x2000000000000000000000000000000int) && log2_tab_fits_with(178, 0x2000000000000000000000000000000int, 0x8000000000000000000000000000000int) && log2_tab_fits_with(179, 0x8000000000000000000000000000000int, 0x20000000000000000000000000000000int) && log2_tab_fits_with(180, 0x20000000000000000000000000000000int, 0x80000000000000000000000000000000int) && log2_tab_fits_with(181, 0x80000000000000000000000000000000int, 0x200000000000000000000000000000000int) && log2_tab_fits_with(182, 0x200000000000000000000000000000000int, 0x1000000000000000000000000000000000int) && log2_tab_fits_with(183, 0x1000000000000000000000000000000000int, 0x4000000000000000000000000000000000int)) by (bit_vector);
    if m == 176 {
        assert(log2_tab_pow(176) == 0x200000000000000000000000000000int);
        assert(log2_tab_pow(177) == 0x800000000000000000000000000000int);
    } else if m == 177 {
        assert(log2_tab_pow(177) == 0x800000000000000000000000000000int);
        assert(log2_tab_pow(178) == 0x2000000000000000000000000000000int);
    } else if m == 178 {
        assert(log2_tab_pow(178) == 0x2000000000000000000000000000000int);
        assert(log2_tab_pow(179) == 0x8000000000000000000000000000000int);
    } else if m == 179 {
        assert(log2_tab_pow(179) == 0x8000000000000000000000000000000int);
        assert(log2_tab_pow(180) == 0x20000000000000000000000000000000int);
    } else if m == 180 {
        assert(log2_tab_pow(180) == 0x20000000000000000000000000000000int);
        assert(log2_tab_pow(181) == 0x80000000000000000000000000000000int);
    } else if m == 181 {
        assert(log2_tab_pow(181) == 0x80000000000000000000000000000000int);
        assert(log2_tab_pow(182) == 0x200000000000000000000000000000000int);
    } else if m == 182 {
        assert(log2_tab_pow(182) == 0x200000000000000000000000000000000int);
        assert(log2_tab_pow(183) == 0x1000000000000000000000000000000000int);
    } else {
        assert(log2_tab_pow(183) == 0x1000000000000000000000000000000000int);
        assert(log2_tab_pow(184) == 0x4000000000000000000000000000000000int);
    }
}

/// [log2_tab_fits] for the leading bytes 0xb8 to 0xbf.
proof fn lemma_log2_tab_fits_b8(m: int)
    requires
        184 <= m < 192,
    ensures
        log2_tab_fits(m),
{
    reveal(log2_tab_fits);
    reveal(log2_tab_pow);
    assert(log2_tab_fits_with(184, 0x4000000000000000000000000000000000int, 0x10000000000000000000000000000000000int) && log2_tab_fits_with(185, 0x10000000000000000000000000000000000int, 0x40000000000000000000000000000000000int) && log2_tab_fits_with(186, 0x40000000000000000000000000000000000int, 0x100000000000000000000000000000000000int) && log2_tab_fits_with(187, 0x100000000000000000000000000000000000int, 0x200000000000000000000000000000000000int) && log2_tab_fits_with(188, 0x200000000000000000000000000000000000int, 0x800000000000000000000000000000000000int) && log2_tab_fits_with(189, 0x800000000000000000000000000000000000int, 0x2000000000000000000000000000000000000int) && log2_tab_fits_with(190, 0x2000000000000000000000000000000000000int, 0x8000000000000000000000000000000000000int) && log2_tab_fits_with(191, 0x8000000000000000000000000000000000000int, 0x20000000000000000000000000000000000000int)) by (bit_vector);
    if m == 184 {
        assert(log2_tab_pow(184) == 0x4000000000000000000000000000000000int);
        assert(log2_tab_pow(185) == 0x10000000000000000000000000000000000int);
    } else if m == 185 {
        assert(log2_tab_pow(185) == 0x10000000000000000000000000000000000int);
        assert(log2_tab_pow(186) == 0x40000000000000000000000000000000000int);
    } else if m == 186 {
        assert(log2_tab_pow(186) == 0x40000000000000000000000000000000000int);
        assert(log2_tab_pow(187) == 0x100000000000000000000000000000000000int);
    } else if m == 187 {
        assert(log2_tab_pow(187) == 0x100000000000000000000000000000000000int);
        assert(log2_tab_pow(188) == 0x200000000000000000000000000000000000int);
    } else if m == 188 {
        assert(log2_tab_pow(188) == 0x200000000000000000000000000000000000int);
        assert(log2_tab_pow(189) == 0x800000000000000000000000000000000000int);
    } else if m == 189 {
        assert(log2_tab_pow(189) == 0x800000000000000000000000000000000000int);
        assert(log2_tab_pow(190) == 0x2000000000000000000000000000000000000int);
    } else if m == 190 {
        assert(log2_tab_pow(190) == 0x2000000000000000000000000000000000000int);
        assert(log2_tab_pow(191) == 0x8000000000000000000000000000000000000int);
    } else {
        assert(log2_tab_pow(191) == 0x8000000000000000000000000000000000000int);
        assert(log2_tab_pow(192) == 0x20000000000000000000000000000000000000int);
    }
}

/// [log2_tab_fits] for the leading bytes 0xc0 to 0xc7.
proof fn lemma_log2_tab_fits_c0(m: int)
    requires
        192 <= m < 200,
    ensures
        log2_tab_fits(m),
{
    reveal(log2_tab_fits);
    reveal(log2_tab_pow);
    assert(log2_tab_fits_with(192, 0x20000000000000000000000000000000000000int, 0x80000000000000000000000000000000000000int) && log2_tab_fits_with(193, 0x80000000000000000000000000000000000000int, 0x200000000000000000000000000000000000000int) && log2_tab_fits_with(194, 0x200000000000000000000000000000000000000int, 0x800000000000000000000000000000000000000int) && log2_tab_fits_with(195, 0x800000000000000000000000000000000000000int, 0x2000000000000000000000000000000000000000int) && log2_tab_fits_with(196, 0x2000000000000000000000000000000000000000int, 0x8000000000000000000000000000000000000000int) && log2_tab_fits_with(197, 0x8000000000000000000000000000000000000000int, 0x20000000000000000000000000000000000000000int) && log2_tab_fits_with(198, 0x20000000000000000000000000000000000000000int, 0x40000000000000000000000000000000000000000int) && log2_tab_fits_with(199, 0x40000000000000000000000000000000000000000int, 0x100000000000000000000000000000000000000000int)) by (bit_vector);
    if m == 192 {
        assert(log2_tab_pow(192) == 0x20000000000000000000000000000000000000int);
        assert(log2_tab_pow(193) == 0x80000000000000000000000000000000000000int);
    } else if m == 193 {
        assert(log2_tab_pow(193) == 0x80000000000000000000000000000000000000int);
        assert(log2_tab_pow(194) == 0x200000000000000000000000000000000000000int);
    } else if m == 194 {
        assert(log2_tab_pow(194) == 0x200000000000000000000000000000000000000int);
        assert(log2_tab_pow(195) == 0x800000000000000000000000000000000000000int);
    } else if m == 195 {
        assert(log2_tab_pow(195) == 0x800000000000000000000000000000000000000int);
        assert(log2_tab_pow(196) == 0x2000000000000000000000000000000000000000int);
    } else if m == 196 {
        assert(log2_tab_pow(196) == 0x2000000000000000000000000000000000000000int);
        assert(log2_tab_pow(197) == 0x8000000000000000000000000000000000000000int);
    } else if m == 197 {
        assert(log2_tab_pow(197) == 0x8000000000000000000000000000000000000000int);
        assert(log2_tab_pow(198) == 0x20000000000000000000000000000000000000000int);
    } else if m == 198 {
        assert(log2_tab_pow(198) == 0x20000000000000000000000000000000000000000int);
        assert(log2_tab_pow(199) == 0x40000000000000000000000000000000000000000int);
    } else {
        assert(log2_tab_pow(199) == 0x40000000000000000000000000000000000000000int);
        assert(log2_tab_pow(200) == 0x100000000000000000000000000000000000000000int);
    }
}

/// [log2_tab_fits] for the leading bytes 0xc8 to 0xcf.
proof fn lemma_log2_tab_fits_c8(m: int)
    requires
        200 <= m < 208,
    ensures
        log2_tab_fits(m),
{
    reveal(log2_tab_fits);
    reveal(log2_tab_pow);
    assert(log2_tab_fits_with(200, 0x100000000000000000000000000000000000000000int, 0x400000000000000000000000000000000000000000int) && log2_tab_fits_with(201, 0x400000000000000000000000000000000000000000int, 0x1000000000000000000000000000000000000000000int) && log2_tab_fits_with(202, 0x1000000000000000000000000000000000000000000int, 0x4000000000000000000000000000000000000000000int) && log2_tab_fits_with(203, 0x4000000000000000000000000000000000000000000int, 0x10000000000000000000000000000000000000000000int) && log2_tab_fits_with(204, 0x10000000000000000000000000000000000000000000int, 0x20000000000000000000000000000000000000000000int) && log2_tab_fits_with(205, 0x20000000000000000000000000000000000000000000int, 0x80000000000000000000000000000000000000000000int) && log2_tab_fits_with(206, 0x80000000000000000000000000000000000000000000int, 0x200000000000000000000000000000000000000000000int) && log2_tab_fits_with(207, 0x200000000000000000000000000000000000000000000int, 0x800000000000000000000000000000000000000000000int)) by (bit_vector);
    if m == 200 {
        assert(log2_tab_pow(200) == 0x100000000000000000000000000000000000000000int);
        assert(log2_tab_pow(201) == 0x400000000000000000000000000000000000000000int);
    } else if m == 201 {
        assert(log2_tab_pow(201) == 0x400000000000000000000000000000000000000000int);
        assert(log2_tab_pow(202) == 0x1000000000000000000000000000000000000000000int);
    } else if m == 202 {
        assert(log2_tab_pow(202) == 0x1000000000000000000000000000000000000000000int);
        assert(log2_tab_pow(203) == 0x4000000000000000000000000000000000000000000int);
    } else if m == 203 {
        assert(log2_tab_pow(203) == 0x4000000000000000000000000000000000000000000int);
        assert(log2_tab_pow(204) == 0x10000000000000000000000000000000000000000000int);
    } else if m == 204 {
        assert(log2_tab_pow(204) == 0x10000000000000000000000000000000000000000000int);
        assert(log2_tab_pow(205) == 0x20000000000000000000000000000000000000000000int);
    } else if m == 205 {
        assert(log2_tab_pow(205) == 0x20000000000000000000000000000000000000000000int);
        assert(log2_tab_pow(206) == 0x80000000000000000000000000000000000000000000int);
    } else if m == 206 {
        assert(log2_tab_pow(206) == 0x80000000000000000000000000000000000000000000int);
        assert(log2_tab_pow(207) == 0x200000000000000000000000000000000000000000000int);
    } else {
        assert(log2_tab_pow(207) == 0x200000000000000000000000000000000000000000000int);
        assert(log2_tab_pow(208) == 0x800000000000000000000000000000000000000000000int);
    }
}

/// [log2_tab_fits] for the leading bytes 0xd0 to 0xd7.
proof fn lemma_log2_tab_fits_d0(m: int)
    requires
        208 <= m < 216,
    ensures
        log2_tab_fits(m),
{
    reveal(log2_tab_fits);
    reveal(log2_tab_pow);
    assert(log2_tab_fits_with(208, 0x800000000000000000000000000000000000000000000int, 0x2000000000000000000000000000000000000000000000int) && log2_tab_fits_with(209, 0x2000000000000000000000000000000000000000000000int, 0x4000000000000000000000000000000000000000000000int) && log2_tab_fits_with(210, 0x4000000000000000000000000000000000000000000000int, 0x10000000000000000000000000000000000000000000000int) && log2_tab_fits_with(211, 0x10000000000000000000000000000000000000000000000int, 0x40000000000000000000000000000000000000000000000int) && log2_tab_fits_with(212, 0x40000000000000000000000000000000000000000000000int, 0x100000000000000000000000000000000000000000000000int) && log2_tab_fits_with(213, 0x100000000000000000000000000000000000000000000000int, 0x200000000000000000000000000000000000000000000000int) && log2_tab_fits_with(214, 0x200000000000000000000000000000000000000000000000int, 0x800000000000000000000000000000000000000000000000int) && log2_tab_fits_with(215, 0x800000000000000000000000000000000000000000000000int, 0x2000000000000000000000000000000000000000000000000int)) by (bit_vector);
    if m == 208 {
        assert(log2_tab_pow(208) == 0x800000000000000000000000000000000000000000000int);
        assert(log2_tab_pow(209) == 0x2000000000000000000000000000000000000000000000int);
    } else if m == 209 {
        assert(log2_tab_pow(209) == 0x2000000000000000000000000000000000000000000000int);
        assert(log2_tab_pow(210) == 0x4000000000000000000000000000000000000000000000int);
    } else if m == 210 {
        assert(log2_tab_pow(210) == 0x4000000000000000000000000000000000000000000000int);
        assert(log2_tab_pow(211) == 0x10000000000000000000000000000000000000000000000int);
    } else if m == 211 {
        assert(log2_tab_pow(211) == 0x10000000000000000000000000000000000000000000000int);
        assert(log2_tab_pow(212) == 0x40000000000000000000000000000000000000000000000int);
    } else if m == 212 {
        assert(log2_tab_pow(212) == 0x40000000000000000000000000000000000000000000000int);
        assert(log2_tab_pow(213) == 0x100000000000000000000000000000000000000000000000int);
    } else if m == 213 {
        assert(log2_tab_pow(213) == 0x100000000000000000000000000000000000000000000000int);
        assert(log2_tab_pow(214) == 0x200000000000000000000000000000000000000000000000int);
    } else if m == 214 {
        assert(log2_tab_pow(214) == 0x200000000000000000000000000000000000000000000000int);
        assert(log2_tab_pow(215) == 0x800000000000000000000000000000000000000000000000int);
    } else {
        assert(log2_tab_pow(215) == 0x800000000000000000000000000000000000000000000000int);
        assert(log2_tab_pow(216) == 0x2000000000000000000000000000000000000000000000000int);
    }
}

/// [log2_tab_fits] for the leading bytes 0xd8 to 0xdf.
proof fn lemma_log2_tab_fits_d8(m: int)
    requires
        216 <= m < 224,
    ensures
        log2_tab_fits(m),
{
    reveal(log2_tab_fits);
    reveal(log2_tab_pow);
    assert(log2_tab_fits_with(216, 0x2000000000000000000000000000000000000000000000000int, 0x4000000000000000000000000000000000000000000000000int) && log2_tab_fits_with(217, 0x4000000000000000000000000000000000000000000000000int, 0x10000000000000000000000000000000000000000000000000int) && log2_tab_fits_with(218, 0x10000000000000000000000000000000000000000000000000int, 0x40000000000000000000000000000000000000000000000000int) && log2_tab_fits_with(219, 0x40000000000000000000000000000000000000000000000000int, 0x100000000000000000000000000000000000000000000000000int) && log2_tab_fits_with(220, 0x100000000000000000000000000000000000000000000000000int, 0x200000000000000000000000000000000000000000000000000int) && log2_tab_fits_with(221, 0x200000000000000000000000000000000000000000000000000int, 0x800000000000000000000000000000000000000000000000000int) && log2_tab_fits_with(222, 0x800000000000000000000000000000000000000000000000000int, 0x2000000000000000000000000000000000000000000000000000int) && log2_tab_fits_with(223, 0x2000000000000000000000000000000000000000000000000000int, 0x4000000000000000000000000000000000000000000000000000int)) by (bit_vector);
    if m == 216 {
        assert(log2_tab_pow(216) == 0x2000000000000000000000000000000000000000000000000int);
        assert(log2_tab_pow(217) == 0x4000000000000000000000000000000000000000000000000int);
    } else if m == 217 {
        assert(log2_tab_pow(217) == 0x4000000000000000000000000000000000000000000000000int);
        assert(log2_tab_pow(218) == 0x10000000000000000000000000000000000000000000000000int);
    } else if m == 218 {
        assert(log2_tab_pow(218) == 0x10000000000000000000000000000000000000000000000000int);
        assert(log2_tab_pow(219) == 0x40000000000000000000000000000000000000000000000000int);
    } else if m == 219 {
        assert(log2_tab_pow(219) == 0x40000000000000000000000000000000000000000000000000int);
        assert(log2_tab_pow(220) == 0x100000000000000000000000000000000000000000000000000int);
    } else if m == 220 {
        assert(log2_tab_pow(220) == 0x100000000000000000000000000000000000000000000000000int);
        assert(log2_tab_pow(221) == 0x200000000000000000000000000000000000000000000000000int);
    } else if m == 221 {
        assert(log2_tab_pow(221) == 0x200000000000000000000000000000000000000000000000000int);
        assert(log2_tab_pow(222) == 0x800000000000000000000000000000000000000000000000000int);
    } else if m == 222 {
        assert(log2_tab_pow(222) == 0x800000000000000000000000000000000000000000000000000int);
        assert(log2_tab_pow(223) == 0x2000000000000000000000000000000000000000000000000000int);
    } else {
        assert(log2_tab_pow(223) == 0x2000000000000000000000000000000000000000000000000000int);
        assert(log2_tab_pow(224) == 0x4000000000000000000000000000000000000000000000000000int);
    }
}

/// [log2_tab_fits] for the leading bytes 0xe0 to 0xe7.
proof fn lemma_log2_tab_fits_e0(m: int)
    requires
        224 <= m < 232,
    ensures
        log2_tab_fits(m),
{
    reveal(log2_tab_fits);
    reveal(log2_tab_pow);
    assert(log2_tab_fits_with(224, 0x4000000000000000000000000000000000000000000000000000int, 0x10000000000000000000000000000000000000000000000000000int) && log2_tab_fits_with(225, 0x10000000000000000000000000000000000000000000000000000int, 0x20000000000000000000000000000000000000000000000000000int) && log2_tab_fits_with(226, 0x20000000000000000000000000000000000000000000000000000int, 0x80000000000000000000000000000000000000000000000000000int) && log2_tab_fits_with(227, 0x80000000000000000000000000000000000000000000000000000int, 0x200000000000000000000000000000000000000000000000000000int) && log2_tab_fits_with(228, 0x200000000000000000000000000000000000000000000000000000int, 0x400000000000000000000000000000000000000000000000000000int) && log2_tab_fits_with(229, 0x400000000000000000000000000000000000000000000000000000int, 0x1000000000000000000000000000000000000000000000000000000int) && log2_tab_fits_with(230, 0x1000000000000000000000000000000000000000000000000000000int, 0x4000000000000000000000000000000000000000000000000000000int) && log2_tab_fits_with(231, 0x4000000000000000000000000000000000000000000000000000000int, 0x8000000000000000000000000000000000000000000000000000000int)) by (bit_vector);
    if m == 224 {
        assert(log2_tab_pow(224) == 0x4000000000000000000000000000000000000000000000000000int);
        assert(log2_tab_pow(225) == 0x10000000000000000000000000000000000000000000000000000int);
    } else if m == 225 {
        assert(log2_tab_pow(225) == 0x10000000000000000000000000000000000000000000000000000int);
        assert(log2_tab_pow(226) == 0x20000000000000000000000000000000000000000000000000000int);
    } else if m == 226 {
        assert(log2_tab_pow(226) == 0x20000000000000000000000000000000000000000000000000000int);
        assert(log2_tab_pow(227) == 0x80000000000000000000000000000000000000000000000000000int);
    } else if m == 227 {
        assert(log2_tab_pow(227) == 0x80000000000000000000000000000000000000000000000000000int);
        assert(log2_tab_pow(228) == 0x200000000000000000000000000000000000000000000000000000int);
    } else if m == 228 {
        assert(log2_tab_pow(228) == 0x200000000000000000000000000000000000000000000000000000int);
        assert(log2_tab_pow(229) == 0x400000000000000000000000000000000000000000000000000000int);
    } else if m == 229 {
        assert(log2_tab_pow(229) == 0x400000000000000000000000000000000000000000000000000000int);
        assert(log2_tab_pow(230) == 0x1000000000000000000000000000000000000000000000000000000int);
    } else if m == 230 {
        assert(log2_tab_pow(230) == 0x1000000000000000000000000000000000000000000000000000000int);
        assert(log2_tab_pow(231) == 0x4000000000000000000000000000000000000000000000000000000int);
    } else {
        assert(log2_tab_pow(231) == 0x4000000000000000000000000000000000000000000000000000000int);
        assert(log2_tab_pow(232) == 0x8000000000000000000000000000000000000000000000000000000int);
    }
}

/// [log2_tab_fits] for the leading bytes 0xe8 to 0xef.
proof fn lemma_log2_tab_fits_e8(m: int)
    requires
        232 <= m < 240,
    ensures
        log2_tab_fits(m),
{
    reveal(log2_tab_fits);
    reveal(log2_tab_pow);
    assert(log2_tab_fits_with(232, 0x8000000000000000000000000000000000000000000000000000000int, 0x20000000000000000000000000000000000000000000000000000000int) && log2_tab_fits_with(233, 0x20000000000000000000000000000000000000000000000000000000int, 0x40000000000000000000000000000000000000000000000000000000int) && log2_tab_fits_with(234, 0x40000000000000000000000000000000000000000000000000000000int, 0x100000000000000000000000000000000000000000000000000000000int) && log2_tab_fits_with(235, 0x100000000000000000000000000000000000000000000000000000000int, 0x200000000000000000000000000000000000000000000000000000000int) && log2_tab_fits_with(236, 0x200000000000000000000000000000000000000000000000000000000int, 0x800000000000000000000000000000000000000000000000000000000int) && log2_tab_fits_with(237, 0x800000000000000000000000000000000000000000000000000000000int, 0x2000000000000000000000000000000000000000000000000000000000int) && log2_tab_fits_with(238, 0x2000000000000000000000000000000000000000000000000000000000int, 0x4000000000000000000000000000000000000000000000000000000000int) && log2_tab_fits_with(239, 0x4000000000000000000000000000000000000000000000000000000000int, 0x10000000000000000000000000000000000000000000000000000000000int)) by (bit_vector);
    if m == 232 {
        assert(log2_tab_pow(232) == 0x8000000000000000000000000000000000000000000000000000000int);
        assert(log2_tab_pow(233) == 0x20000000000000000000000000000000000000000000000000000000int);
    } else if m == 233 {
        assert(log2_tab_pow(233) == 0x20000000000000000000000000000000000000000000000000000000int);
        assert(log2_tab_pow(234) == 0x40000000000000000000000000000000000000000000000000000000int);
    } else if m == 234 {
        assert(log2_tab_pow(234) == 0x40000000000000000000000000000000000000000000000000000000int);
        assert(log2_tab_pow(235) == 0x100000000000000000000000000000000000000000000000000000000int);
    } else if m == 235 {
        assert(log2_tab_pow(235) == 0x100000000000000000000000000000000000000000000000000000000int);
        assert(log2_tab_pow(236) == 0x200000000000000000000000000000000000000000000000000000000int);
    } else if m == 236 {
        assert(log2_tab_pow(236) == 0x200000000000000000000000000000000000000000000000000000000int);
        assert(log2_tab_pow(237) == 0x800000000000000000000000000000000000000000000000000000000int);
    } else if m == 237 {
        assert(log2_tab_pow(237) == 0x800000000000000000000000000000000000000000000000000000000int);
        assert(log2_tab_pow(238) == 0x2000000000000000000000000000000000000000000000000000000000int);
    } else if m == 238 {
        assert(log2_tab_pow(238) == 0x2000000000000000000000000000000000000000000000000000000000int);
        assert(log2_tab_pow(239) == 0x4000000000000000000000000000000000000000000000000000000000int);
    } else {
        assert(log2_tab_pow(239) == 0x4000000000000000000000000000000000000000000000000000000000int);
        assert(log2_tab_pow(240) == 0x10000000000000000000000000000000000000000000000000000000000int);
    }
}

/// [log2_tab_fits] for the leading bytes 0xf0 to 0xf7.
proof fn lemma_log2_tab_fits_f0(m: int)
    requires
        240 <= m < 248,
    ensures
        log2_tab_fits(m),
{
    reveal(log2_tab_fits);
    reveal(log2_tab_pow);
    assert(log2_tab_fits_with(240, 0x10000000000000000000000000000000000000000000000000000000000int, 0x20000000000000000000000000000000000000000000000000000000000int) && log2_tab_fits_with(241, 0x20000000000000000000000000000000000000000000000000000000000int, 0x80000000000000000000000000000000000000000000000000000000000int) && log2_tab_fits_with(242, 0x80000000000000000000000000000000000000000000000000000000000int, 0x100000000000000000000000000000000000000000000000000000000000int) && log2_tab_fits_with(243, 0x100000000000000000000000000000000000000000000000000000000000int, 0x400000000000000000000000000000000000000000000000000000000000int) && log2_tab_fits_with(244, 0x400000000000000000000000000000000000000000000000000000000000int, 0x800000000000000000000000000000000000000000000000000000000000int) && log2_tab_fits_with(245, 0x800000000000000000000000000000000000000000000000000000000000int, 0x2000000000000000000000000000000000000000000000000000000000000int) && log2_tab_fits_with(246, 0x2000000000000000000000000000000000000000000000000000000000000int, 0x4000000000000000000000000000000000000000000000000000000000000int) && log2_tab_fits_with(247, 0x4000000000000000000000000000000000000000000000000000000000000int, 0x10000000000000000000000000000000000000000000000000000000000000int)) by (bit_vector);
    if m == 240 {
        assert(log2_tab_pow(240) == 0x10000000000000000000000000000000000000000000000000000000000int);
        assert(log2_tab_pow(241) == 0x20000000000000000000000000000000000000000000000000000000000int);
    } else if m == 241 {
        assert(log2_tab_pow(241) == 0x20000000000000000000000000000000000000000000000000000000000int);
        assert(log2_tab_pow(242) == 0x80000000000000000000000000000000000000000000000000000000000int);
    } else if m == 242 {
        assert(log2_tab_pow(242) == 0x80000000000000000000000000000000000000000000000000000000000int);
        assert(log2_tab_pow(243) == 0x100000000000000000000000000000000000000000000000000000000000int);
    } else if m == 243 {
        assert(log2_tab_pow(243) == 0x100000000000000000000000000000000000000000000000000000000000int);
        assert(log2_tab_pow(244) == 0x400000000000000000000000000000000000000000000000000000000000int);
    } else if m == 244 {
        assert(log2_tab_pow(244) == 0x400000000000000000000000000000000000000000000000000000000000int);
        assert(log2_tab_pow(245) == 0x800000000000000000000000000000000000000000000000000000000000int);
    } else if m == 245 {
        assert(log2_tab_pow(245) == 0x800000000000000000000000000000000000000000000000000000000000int);
        assert(log2_tab_pow(246) == 0x2000000000000000000000000000000000000000000000000000000000000int);
    } else if m == 246 {
        assert(log2_tab_pow(246) == 0x2000000000000000000000000000000000000000000000000000000000000int);
        assert(log2_tab_pow(247) == 0x4000000000000000000000000000000000000000000000000000000000000int);
    } else {
        assert(log2_tab_pow(247) == 0x4000000000000000000000000000000000000000000000000000000000000int);
        assert(log2_tab_pow(248) == 0x10000000000000000000000000000000000000000000000000000000000000int);
    }
}

/// [log2_tab_fits] for the leading bytes 0xf8 to 0xff.
proof fn lemma_log2_tab_fits_f8(m: int)
    requires
        248 <= m < 256,
    ensures
        log2_tab_fits(m),
        pow256(256) < pow256(255) * 8,
        pow256(0x8000_0000_0000_0001) <= pow256(0x8000_0000_0000_0000) * 2,
{
    reveal(log2_tab_fits);
    reveal(log2_tab_pow);
    assert(log2_tab_fits_with(248, 0x10000000000000000000000000000000000000000000000000000000000000int, 0x20000000000000000000000000000000000000000000000000000000000000int) && log2_tab_fits_with(249, 0x20000000000000000000000000000000000000000000000000000000000000int, 0x80000000000000000000000000000000000000000000000000000000000000int) && log2_tab_fits_with(250, 0x80000000000000000000000000000000000000000000000000000000000000int, 0x100000000000000000000000000000000000000000000000000000000000000int) && log2_tab_fits_with(251, 0x100000000000000000000000000000000000000000000000000000000000000int, 0x400000000000000000000000000000000000000000000000000000000000000int) && log2_tab_fits_with(252, 0x400000000000000000000000000000000000000000000000000000000000000int, 0x800000000000000000000000000000000000000000000000000000000000000int) && log2_tab_fits_with(253, 0x800000000000000000000000000000000000000000000000000000000000000int, 0x2000000000000000000000000000000000000000000000000000000000000000int) && log2_tab_fits_with(254, 0x2000000000000000000000000000000000000000000000000000000000000000int, 0x4000000000000000000000000000000000000000000000000000000000000000int) && log2_tab_fits_with(255, 0x4000000000000000000000000000000000000000000000000000000000000000int, 0int) && pow256(256) < pow256(255) * 8 && pow256(0x8000_0000_0000_0001) <= pow256(0x8000_0000_0000_0000) * 2) by (bit_vector);
    if m == 248 {
        assert(log2_tab_pow(248) == 0x10000000000000000000000000000000000000000000000000000000000000int);
        assert(log2_tab_pow(249) == 0x20000000000000000000000000000000000000000000000000000000000000int);
    } else if m == 249 {
        assert(log2_tab_pow(249) == 0x20000000000000000000000000000000000000000000000000000000000000int);
        assert(log2_tab_pow(250) == 0x80000000000000000000000000000000000000000000000000000000000000int);
    } else if m == 250 {
        assert(log2_tab_pow(250) == 0x80000000000000000000000000000000000000000000000000000000000000int);
        assert(log2_tab_pow(251) == 0x100000000000000000000000000000000000000000000000000000000000000int);
    } else if m == 251 {
        assert(log2_tab_pow(251) == 0x100000000000000000000000000000000000000000000000000000000000000int);
        assert(log2_tab_pow(252) == 0x400000000000000000000000000000000000000000000000000000000000000int);
    } else if m == 252 {
        assert(log2_tab_pow(252) == 0x400000000000000000000000000000000000000000000000000000000000000int);
        assert(log2_tab_pow(253) == 0x800000000000000000000000000000000000000000000000000000000000000int);
    } else if m == 253 {
        assert(log2_tab_pow(253) == 0x800000000000000000000000000000000000000000000000000000000000000int);
        assert(log2_tab_pow(254) == 0x2000000000000000000000000000000000000000000000000000000000000000int);
    } else if m == 254 {
        assert(log2_tab_pow(254) == 0x2000000000000000000000000000000000000000000000000000000000000000int);
        assert(log2_tab_pow(255) == 0x4000000000000000000000000000000000000000000000000000000000000000int);
    } else {
        assert(log2_tab_pow(255) == 0x4000000000000000000000000000000000000000000000000000000000000000int);
    }
}

/// The table meets [log2_tab_fits] at every entry.
proof fn lemma_log2_tab_fits(m: int)
    requires
        128 <= m < 256,
    ensures
        log2_tab_fits(m),
{
    if m < 136 {
        lemma_log2_tab_fits_80(m);
    } else if m < 144 {
        lemma_log2_tab_fits_88(m);
    } else if m < 152 {
        lemma_log2_tab_fits_90(m);
    } else if m < 160 {
        lemma_log2_tab_fits_98(m);
    } else if m < 168 {
        lemma_log2_tab_fits_a0(m);
    } else if m < 176 {
        lemma_log2_tab_fits_a8(m);
    } else if m < 184 {
        lemma_log2_tab_fits_b0(m);
    } else if m < 192 {
        lemma_log2_tab_fits_b8(m);
    } else if m < 200 {
        lemma_log2_tab_fits_c0(m);
    } else if m < 208 {
        lemma_log2_tab_fits_c8(m);
    } else if m < 216 {
        lemma_log2_tab_fits_d0(m);
    } else if m < 224 {
        lemma_log2_tab_fits_d8(m);
    } else if m < 232 {
        lemma_log2_tab_fits_e0(m);
    } else if m < 240 {
        lemma_log2_tab_fits_e8(m);
    } else if m < 248 {
        lemma_log2_tab_fits_f0(m);
    } else {
        lemma_log2_tab_fits_f8(m);
    }
}

/// `x^256` by squarings is `pow(x, 256)`.
proof fn lemma_pow256_is_pow(x: int)
    ensures
        pow256(x) == pow(x, 256),
{
    reveal_with_fuel(pow, 3);
    assert forall|y: int| pow(y, 2) == #[trigger] (y * y) by {
        reveal_with_fuel(pow, 3);
    }
    lemma_pow_multiplies(x, 1, 2);
    lemma_pow_multiplies(x, 2, 2);
    lemma_pow_multiplies(x, 4, 2);
    lemma_pow_multiplies(x, 8, 2);
    lemma_pow_multiplies(x, 16, 2);
    lemma_pow_multiplies(x, 32, 2);
    lemma_pow_multiplies(x, 64, 2);
    lemma_pow_multiplies(x, 128, 2);
    assert(pow(x, 1) == x);
    assert(pow(pow(x, 1), 2) == x * x);
    assert(pow(pow(x, 2), 2) == pow(x, 2) * pow(x, 2));
    assert(pow(pow(x, 4), 2) == pow(x, 4) * pow(x, 4));
    assert(pow(pow(x, 8), 2) == pow(x, 8) * pow(x, 8));
    assert(pow(pow(x, 16), 2) == pow(x, 16) * pow(x, 16));
    assert(pow(pow(x, 32), 2) == pow(x, 32) * pow(x, 32));
    assert(pow(pow(x, 64), 2) == pow(x, 64) * pow(x, 64));
    assert(pow(pow(x, 128), 2) == pow(x, 128) * pow(x, 128));
}

/// `pow2_small(t) == 2^t` for `0 <= t < 256`.
proof fn lemma_pow2_small(t: int)
    requires
        0 <= t < 256,
    ensures
        pow2_small(t) == pow2(t as nat),
{
    lemma2_to64();
    lemma_pow2_widths();
    let b0 = t % 2;
    let b1 = (t / 2) % 2;
    let b2 = (t / 4) % 2;
    let b3 = (t / 8) % 2;
    let b4 = (t / 16) % 2;
    let b5 = (t / 32) % 2;
    let b6 = (t / 64) % 2;
    let b7 = (t / 128) % 2;
    assert(t == b0 + 2 * b1 + 4 * b2 + 8 * b3 + 16 * b4 + 32 * b5 + 64 * b6 + 128 * b7);
    let e0 = b0 as nat;
    let e1 = (2 * b1) as nat;
    let e2 = (4 * b2) as nat;
    let e3 = (8 * b3) as nat;
    let e4 = (16 * b4) as nat;
    let e5 = (32 * b5) as nat;
    let e6 = (64 * b6) as nat;
    let e7 = (128 * b7) as nat;
    lemma_pow2_adds(e0, e1);
    lemma_pow2_adds(e0 + e1, e2);
    lemma_pow2_adds(e0 + e1 + e2, e3);
    lemma_pow2_adds(e0 + e1 + e2 + e3, e4);
    lemma_pow2_adds(e0 + e1 + e2 + e3 + e4, e5);
    lemma_pow2_adds(e0 + e1 + e2 + e3 + e4 + e5, e6);
    lemma_pow2_adds(e0 + e1 + e2 + e3 + e4 + e5 + e6, e7);
}

/// `(2^k)^256 == 2^(256 k)`.
proof fn lemma_pow256_pow2(k: nat)
    ensures
        pow256(pow2(k) as int) == pow2(256 * k),
{
    lemma_pow_positive(2, k);
    lemma_pow_positive(2, 256 * k);
    assert(pow2(k) as int == pow(2, k));
    lemma_pow256_is_pow(pow(2, k));
    lemma_pow_multiplies(2, k, 256);
    assert(k * 256 == 256 * k);
    assert(pow2(256 * k) as int == pow(2, 256 * k));
}

/// `(a b)^256 == a^256 b^256`.
proof fn lemma_pow256_mul(a: int, b: int)
    ensures
        pow256(a * b) == pow256(a) * pow256(b),
{
    lemma_pow256_is_pow(a * b);
    lemma_pow256_is_pow(a);
    lemma_pow256_is_pow(b);
    lemma_pow_distributes(a, b, 256);
}

/// Squaring is increasing on the naturals.
proof fn lemma_square_mono(a: int, b: int)
    requires
        0 <= a <= b,
    ensures
        0 <= a * a <= b * b,
        a < b ==> a * a < b * b,
{
    assert(0 <= a * a <= b * b && (a < b ==> a * a < b * b)) by (nonlinear_arith)
        requires
            0 <= a <= b,
    ;
}

/// `x -> x^256` is increasing on the naturals.
proof fn lemma_pow256_mono(a: int, b: int)
    requires
        0 <= a <= b,
    ensures
        pow256(a) <= pow256(b),
        a < b ==> pow256(a) < pow256(b),
{
    let (a2, b2) = (a * a, b * b);
    lemma_square_mono(a, b);
    let (a4, b4) = (a2 * a2, b2 * b2);
    lemma_square_mono(a2, b2);
    let (a8, b8) = (a4 * a4, b4 * b4);
    lemma_square_mono(a4, b4);
    let (a16, b16) = (a8 * a8, b8 * b8);
    lemma_square_mono(a8, b8);
    let (a32, b32) = (a16 * a16, b16 * b16);
    lemma_square_mono(a16, b16);
    let (a64, b64) = (a32 * a32, b32 * b32);
    lemma_square_mono(a32, b32);
    let (a128, b128) = (a64 * a64, b64 * b64);
    lemma_square_mono(a64, b64);
    lemma_square_mono(a128, b128);
}

/// [log2_tab_pow] is two to the power of the entry.
proof fn lemma_log2_tab_pow(m: int)
    requires
        128 <= m < 256,
    ensures
        log2_tab_pow(m) == pow2(LOG2_TAB[m - 128] as nat),
{
    reveal(log2_tab_pow);
    lemma_log2_tab_bound(m - 128);
    lemma_pow2_small(LOG2_TAB[m - 128] as int);
}

/// `2^(e + a + c) == 2^a 2^e 2^c`.
proof fn lemma_pow2_split3(e: nat, a: nat, c: nat)
    ensures
        pow2(e + a + c) == pow2(a) * pow2(e) * pow2(c),
{
    lemma_pow2_adds(e, a);
    lemma_pow2_adds(e + a, c);
    lemma_mul_is_commutative(pow2(e) as int, pow2(a) as int);
}

/// [log2_tab_fits] with the powers of two written as such: for the entry `e` of the leading
/// byte `m`, `2^(e + 1792) <= m^256 <= 2^(e + 1793)` (so `e` is the floor of
/// `256 log2(m / 128)`), and the bounds that the estimates take from it.
proof fn lemma_log2_tab_bounds(m: int)
    requires
        128 <= m < 256,
    ensures
        ({
            let e = LOG2_TAB[m - 128] as nat;
            &&& pow2(e + 1792) <= pow256(m)
            &&& pow256(m) <= pow2(e + 1793)
            &&& pow256(2 * m + 1) < pow2(e + 2051)
            &&& pow2(e + 2305) <= pow256(4 * m + 3)
            &&& (m != 129 ==> pow256(4 * m + 3) <= pow2(e + 2307))
            &&& pow256(m + 1) <= pow2(e + 1796)
            &&& pow2(e + 3585) <= pow256(128 * m + 80)
            &&& pow256(128 * m + 80) <= pow2(e + 3587)
        }),
        m < 255 ==> ({
            let f = LOG2_TAB[m - 127] as nat;
            &&& pow256(4 * m + 1) <= pow2(f + 2304)
            &&& pow2(f + 1789) < pow256(m)
            &&& pow2(f + 2302) < pow256(4 * m + 1)
        }),
{
    lemma_log2_tab_fits(m);
    assert(log2_tab_fits_with(m, log2_tab_pow(m), if m < 255 { log2_tab_pow(m + 1) } else { 0 })) by {
        reveal(log2_tab_fits);
    }
    lemma_log2_tab_pow(m);
    if m < 255 {
        lemma_log2_tab_pow(m + 1);
    }
    lemma2_to64();
    lemma_pow256_pow2(7);
    lemma_pow256_pow2(8);
    lemma_pow256_pow2(9);
    lemma_pow256_pow2(14);
    let e = LOG2_TAB[m - 128] as nat;
    lemma_pow2_split3(e, 1792, 0);
    lemma_pow2_split3(e, 1792, 1);
    lemma_pow2_split3(e, 2048, 3);
    lemma_pow2_split3(e, 2304, 1);
    lemma_pow2_split3(e, 2304, 3);
    lemma_pow2_split3(e, 1792, 4);
    lemma_pow2_split3(e, 3584, 1);
    lemma_pow2_split3(e, 3584, 3);
    if m < 255 {
        let f = LOG2_TAB[m - 127] as nat;
        lemma_pow2_split3(f, 2304, 0);
        lemma_pow2_adds(f + 1789, 3);
        lemma_pow2_adds(f + 2302, 2);
        lemma_pow2_adds(f, 1792);
        lemma_pow2_adds(f, 2304);
        lemma_mul_is_commutative(pow2(f) as int, pow2(1792) as int);
        lemma_mul_is_commutative(pow2(f) as int, pow2(2304) as int);
        assert(pow2(f + 1789) * 8 == pow2(f + 1792));
        assert(pow2(f + 1792) == pow256(128) * log2_tab_pow(m + 1));
        assert(pow2(f + 1789) * 8 < pow256(m) * 8);
        lemma_mul_strict_inequality_converse(pow2(f + 1789) as int, pow256(m), 8);
        assert(pow2(f + 2302) * 4 == pow2(f + 2304));
        assert(pow2(f + 2304) == pow256(512) * log2_tab_pow(m + 1));
        assert(pow2(f + 2302) * 4 < pow256(4 * m + 1) * 4);
        lemma_mul_strict_inequality_converse(pow2(f + 2302) as int, pow256(4 * m + 1), 4);
    }
}

/// A lower bound on `q^256` carries over to `n >= q 2^k`, shifted by `256 k`.
proof fn lemma_scaled_lower(n: int, q: int, k: nat, c: nat)
    requires
        0 <= q,
        q * pow2(k) <= n,
        pow2(c) <= pow256(q),
    ensures
        pow2(c + 256 * k) <= pow256(n),
{
    lemma_pow2_pos(k);
    lemma_pow256_mul(q, pow2(k) as int);
    lemma_pow256_pow2(k);
    lemma_pow256_mono(q * pow2(k), n);
    lemma_pow2_adds(c, 256 * k);
    lemma_pow2_pos(256 * k);
    lemma_mul_inequality(pow2(c) as int, pow256(q), pow2(256 * k) as int);
}

/// An upper bound on `q^256` carries over to `n < q 2^k`, shifted by `256 k`.
proof fn lemma_scaled_upper(n: int, q: int, k: nat, c: nat)
    requires
        0 <= n,
        n < q * pow2(k),
        pow256(q) <= pow2(c),
    ensures
        pow256(n) < pow2(c + 256 * k),
        pow256(n + 1) <= pow2(c + 256 * k),
{
    lemma_pow2_pos(k);
    lemma_pow256_mul(q, pow2(k) as int);
    lemma_pow256_pow2(k);
    lemma_pow256_mono(n + 1, q * pow2(k));
    lemma_pow256_mono(n, n + 1);
    lemma_pow2_adds(c, 256 * k);
    lemma_pow2_pos(256 * k);
    lemma_mul_inequality(pow256(q), pow2(c) as int, pow2(256 * k) as int);
}

/// Bounds on `m^256` for `m == n 2^s` carry over to `n`, shifted down by `256 s`.
proof fn lemma_scaled_down(n: int, m: int, s: nat, lo: nat, hi: nat)
    requires
        0 <= n,
        m == n * pow2(s),
        pow2(lo + 256 * s) <= pow256(m) <= pow2(hi + 256 * s),
    ensures
        pow2(lo) <= pow256(n) <= pow2(hi),
{
    lemma_pow256_mul(n, pow2(s) as int);
    lemma_pow256_pow2(s);
    lemma_pow2_adds(lo, 256 * s);
    lemma_pow2_adds(hi, 256 * s);
    lemma_pow2_pos(256 * s);
    lemma_mul_inequality_converse(pow2(lo) as int, pow256(n), pow2(256 * s) as int);
    lemma_mul_inequality_converse(pow256(n), pow2(hi) as int, pow2(256 * s) as int);
}

/// `2^a < 2^b` for `a < b`, and `2^a <= 2^b` for `a <= b`.
proof fn lemma_pow2_le(a: nat, b: nat)
    requires
        a <= b,
    ensures
        pow2(a) <= pow2(b),
        a < b ==> pow2(a) < pow2(b),
{
    if a < b {
        lemma_pow2_strictly_increases(a, b);
    }
}

/// The estimate below `256 log2(n)` for `n < 0x80`, read from the table at `m == n 2^s`: it is
/// exact, `2^r <= n^256 < 2^(r + 1)`.
proof fn lemma_log2_fp8_small(n: int, s: nat, m: int)
    requires
        1 <= n,
        s <= 7,
        128 <= m < 256,
        m == n * pow2(s),
    ensures
        ({
            let r = (LOG2_TAB[m - 128] as nat + 1792 - 256 * s) as nat;
            pow2(r) <= pow256(n) <= pow2(r + 1) && pow256(n) < pow2(r + 3)
        }),
{
    let e = LOG2_TAB[m - 128] as nat;
    let r = (e + 1792 - 256 * s) as nat;
    lemma_log2_tab_bounds(m);
    assert(r + 256 * s == e + 1792);
    assert((r + 1) + 256 * s == e + 1793);
    lemma_scaled_down(n, m, s, r, r + 1);
    lemma_pow2_le(r + 1, r + 3);
}

/// The estimate below `256 log2(n)` for `0x80 <= n < 0x200`, read from the table at the leading
/// byte `m == n / 2^s`.
proof fn lemma_log2_fp8_byte(n: int, s: nat, m: int)
    requires
        s <= 1,
        128 <= m < 256,
        m * pow2(s) <= n < (m + 1) * pow2(s),
    ensures
        ({
            let r = LOG2_TAB[m - 128] as nat + 1792 + 256 * s;
            pow2(r) <= pow256(n) < pow2(r + 3)
        }),
{
    let e = LOG2_TAB[m - 128] as nat;
    let r = e + 1792 + 256 * s;
    lemma_log2_tab_bounds(m);
    lemma2_to64();
    lemma_scaled_lower(n, m, s, e + 1792);
    if s == 0 {
        assert(n == m) by (nonlinear_arith)
            requires
                m * pow2(s) <= n < (m + 1) * pow2(s),
                pow2(s) == 1,
        ;
        lemma_pow2_le(e + 1793, r + 3);
    } else {
        assert(n <= 2 * m + 1) by (nonlinear_arith)
            requires
                n < (m + 1) * pow2(s),
                pow2(s) == 2,
        ;
        lemma_pow256_mono(n, 2 * m + 1);
        assert(r + 3 == e + 2051);
    }
}

/// The estimate below `256 log2(n)` from ten leading bits `q == n / 2^(s-2)` (for
/// `0x200 <= n < 0x4080`): the entry of the leading byte, and one more when the two extra bits
/// are both set.
proof fn lemma_log2_fp8_ten_bits(n: int, s: nat, q: int, extra: nat)
    requires
        2 <= s <= 7,
        512 <= q < 1024,
        q * pow2((s - 2) as nat) <= n < (q + 1) * pow2((s - 2) as nat),
        extra == (if q % 4 == 3 { 1nat } else { 0nat }),
    ensures
        ({
            let r = LOG2_TAB[q / 4 - 128] as nat + 1792 + 256 * s + extra;
            pow2(r) <= pow256(n) < pow2(r + 3)
        }),
{
    let m = q / 4;
    let e = LOG2_TAB[m - 128] as nat;
    let r = e + 1792 + 256 * s + extra;
    let k = (s - 2) as nat;
    lemma_log2_tab_bounds(m);
    lemma2_to64();
    lemma_pow2_adds(k, 2);
    assert(k + 2 == s);
    lemma_pow2_pos(k);
    let p = pow2(k) as int;
    assert(pow2(s) == p * 4);
    if extra == 1 {
        assert(q == 4 * m + 3);
        lemma_scaled_lower(n, 4 * m + 3, k, e + 2305);
        assert(e + 2305 + 256 * k == r);
        assert((q + 1) * p == (m + 1) * pow2(s)) by (nonlinear_arith)
            requires
                q == 4 * m + 3,
                pow2(s) == p * 4,
        ;
        lemma_scaled_upper(n, m + 1, s, e + 1796);
    } else {
        assert(4 * m <= q <= 4 * m + 2);
        assert(m * pow2(s) <= q * p) by (nonlinear_arith)
            requires
                4 * m <= q,
                pow2(s) == p * 4,
                p > 0,
        ;
        lemma_scaled_lower(n, m, s, e + 1792);
        assert((q + 1) * p <= (4 * m + 3) * p) by (nonlinear_arith)
            requires
                q <= 4 * m + 2,
                p > 0,
        ;
        if m != 129 {
            lemma_scaled_upper(n, 4 * m + 3, k, e + 2307);
            assert(e + 2307 + 256 * k == r + 3);
        } else {
            // the numbers just below (4 * 129 + 3) 2^(s - 2)
            lemma_log2_tab_fits_80(129);
            lemma_log2_tab_pow(129);
            lemma_pow2_small(k as int);
            lemma_pow2_small(s as int);
            assert(log2_tab_129_window_fits(s as int, log2_tab_pow(129)));
            lemma_pow256_mono(n, 519 * p - 1);
            lemma_pow256_mul(128, pow2(s) as int);
            lemma_pow256_pow2(7);
            lemma_pow256_pow2(s);
            lemma_pow2_adds(1792, 256 * s);
            lemma_pow2_split3(e, 1792 + 256 * s, 3);
            assert(r + 3 == e + (1792 + 256 * s) + 3);
        }
    }
}

/// The estimate below `256 log2(n)` from fifteen leading bits `q == n / 2^(s-7)` (for
/// `n >= 0x4080`): the entry of the leading byte, and one more when the seven extra bits are
/// at least 80. The bound above holds for `n + 1` too.
proof fn lemma_log2_fp8_fifteen_bits(n: int, s: nat, q: int, extra: nat)
    requires
        7 <= s,
        0x4000 <= q < 0x8000,
        q * pow2((s - 7) as nat) <= n < (q + 1) * pow2((s - 7) as nat),
        extra == (if q % 128 >= 80 { 1nat } else { 0nat }),
    ensures
        ({
            let r = LOG2_TAB[q / 128 - 128] as nat + 1792 + 256 * s + extra;
            &&& pow2(r) <= pow256(n)
            &&& pow256(n) < pow2(r + 3)
            &&& pow256(n + 1) <= pow2(r + 3)
        }),
{
    let m = q / 128;
    let e = LOG2_TAB[m - 128] as nat;
    let r = e + 1792 + 256 * s + extra;
    let k = (s - 7) as nat;
    lemma_log2_tab_bounds(m);
    lemma2_to64();
    lemma_pow2_adds(k, 7);
    assert(k + 7 == s);
    lemma_pow2_pos(k);
    let p = pow2(k) as int;
    assert(pow2(s) == p * 128);
    if extra == 1 {
        assert(128 * m + 80 <= q < 128 * m + 128);
        assert((128 * m + 80) * p <= q * p) by (nonlinear_arith)
            requires
                128 * m + 80 <= q,
                p > 0,
        ;
        lemma_scaled_lower(n, 128 * m + 80, k, e + 3585);
        assert(e + 3585 + 256 * k == r);
        assert((q + 1) * p <= (m + 1) * pow2(s)) by (nonlinear_arith)
            requires
                q + 1 <= 128 * m + 128,
                pow2(s) == p * 128,
                p > 0,
        ;
        lemma_scaled_upper(n, m + 1, s, e + 1796);
    } else {
        assert(128 * m <= q < 128 * m + 80);
        assert(m * pow2(s) <= q * p) by (nonlinear_arith)
            requires
                128 * m <= q,
                pow2(s) == p * 128,
                p > 0,
        ;
        lemma_scaled_lower(n, m, s, e + 1792);
        assert((q + 1) * p <= (128 * m + 80) * p) by (nonlinear_arith)
            requires
                q + 1 <= 128 * m + 80,
                p > 0,
        ;
        lemma_scaled_upper(n, 128 * m + 80, k, e + 3587);
        assert(e + 3587 + 256 * k == r + 3);
    }
}

/// `n` lies between `(n / 2^k) 2^k` and `(n / 2^k + 1) 2^k`.
proof fn lemma_div_window(n: int, k: nat)
    requires
        0 <= n,
    ensures
        (n / pow2(k) as int) * pow2(k) <= n < (n / pow2(k) as int + 1) * pow2(k),
{
    lemma_pow2_pos(k);
    lemma_fundamental_div_mod(n, pow2(k) as int);
    lemma_mod_bound(n, pow2(k) as int);
    lemma_mul_is_commutative(pow2(k) as int, n / pow2(k) as int);
    assert((n / pow2(k) as int + 1) * pow2(k) == (n / pow2(k) as int) * pow2(k) + pow2(k)) by (
    nonlinear_arith);
}

/// A strict lower bound on `q^256` carries over to `n >= q 2^k`, shifted by `256 k`.
proof fn lemma_scaled_lower_strict(n: int, q: int, k: nat, c: nat)
    requires
        0 <= q,
        q * pow2(k) <= n,
        pow2(c) < pow256(q),
    ensures
        pow2(c + 256 * k) < pow256(n),
{
    lemma_pow2_pos(k);
    lemma_pow256_mul(q, pow2(k) as int);
    lemma_pow256_pow2(k);
    lemma_pow256_mono(q * pow2(k), n);
    lemma_pow2_adds(c, 256 * k);
    lemma_pow2_pos(256 * k);
    lemma_mul_strict_inequality(pow2(c) as int, pow256(q), pow2(256 * k) as int);
}

/// The estimate above `256 log2(n)` for `0x80 <= n < 0x200` with leading byte `m == n / 2^s`:
/// the entry plus one, and two more for an odd `n` above 0x100.
proof fn lemma_ceil_log2_fp8_byte(n: int, s: nat, m: int, odd: bool)
    requires
        s <= 1,
        128 <= m < 256,
        m * pow2(s) <= n < (m + 1) * pow2(s),
        odd == (n % 2 == 1),
    ensures
        ({
            let r = LOG2_TAB[m - 128] as nat + 1793 + 256 * s + (if n > 256 && odd { 2nat } else { 0nat });
            pow2((r - 3) as nat) < pow256(n) <= pow2(r)
        }),
{
    let e = LOG2_TAB[m - 128] as nat;
    lemma_log2_tab_bounds(m);
    lemma2_to64();
    lemma_scaled_lower(n, m, s, e + 1792);
    if s == 0 {
        assert(n == m) by (nonlinear_arith)
            requires
                m * pow2(s) <= n < (m + 1) * pow2(s),
                pow2(s) == 1,
        ;
        lemma_pow2_le(e + 1790, e + 1792);
    } else {
        assert(n == 2 * m || n == 2 * m + 1) by (nonlinear_arith)
            requires
                m * pow2(s) <= n < (m + 1) * pow2(s),
                pow2(s) == 2,
        ;
        if n == 2 * m {
            lemma_scaled_upper(n - 1, m, 1, e + 1793);
            lemma_pow2_le(e + 2046, e + 2048);
        } else {
            lemma_pow256_mono(2 * m, n);
            lemma_scaled_lower(2 * m, m, 1, e + 1792);
        }
    }
}

/// The estimate above `256 log2(n)` from ten leading bits `q == n / 2^(s-2)` (for
/// `n >= 0x200`): the next entry after the leading byte plus one, less one when the two extra
/// bits are clear, or `256 (s + 8)` for the leading byte 0xff. The bound holds for `n + 1` too.
proof fn lemma_ceil_log2_fp8_ten_bits(n: int, s: nat, q: int, low: nat)
    requires
        2 <= s,
        512 <= q < 1024,
        q * pow2((s - 2) as nat) <= n < (q + 1) * pow2((s - 2) as nat),
        low == (if q % 4 == 0 { 1nat } else { 0nat }),
    ensures
        ({
            let r = if q / 4 == 255 {
                256 * (s + 8)
            } else {
                (LOG2_TAB[q / 4 - 127] as nat + 1793 + 256 * s - low) as nat
            };
            &&& pow2((r - 3) as nat) < pow256(n)
            &&& pow256(n) <= pow2(r)
            &&& pow256(n + 1) <= pow2(r)
        }),
{
    let m = q / 4;
    let k = (s - 2) as nat;
    lemma2_to64();
    lemma_pow2_adds(k, 2);
    assert(k + 2 == s);
    lemma_pow2_pos(k);
    let p = pow2(k) as int;
    assert(pow2(s) == p * 4);
    assert(m * pow2(s) <= q * p) by (nonlinear_arith)
        requires
            4 * m <= q,
            pow2(s) == p * 4,
            p > 0,
    ;
    assert((q + 1) * p <= (m + 1) * pow2(s)) by (nonlinear_arith)
        requires
            q + 1 <= 4 * m + 4,
            pow2(s) == p * 4,
            p > 0,
    ;
    if m == 255 {
        lemma_log2_tab_fits_f8(255);
        lemma_pow256_pow2(8);
        lemma_pow2_adds(2045, 3);
        lemma_mul_strict_inequality_converse(pow2(2045) as int, pow256(255), 8);
        lemma_scaled_lower_strict(n, 255, s, 2045);
        assert(2045 + 256 * s == 256 * (s + 8) - 3);
        lemma_pow2_adds(8, s);
        lemma_scaled_upper(n, 256, s, 2048);
        assert(2048 + 256 * s == 256 * (s + 8));
    } else {
        let f = LOG2_TAB[m - 127] as nat;
        lemma_log2_tab_bounds(m);
        lemma_log2_tab_bounds(m + 1);
        assert(LOG2_TAB[(m + 1) - 128] as nat == f);
        if low == 1 {
            assert(q == 4 * m);
            lemma_scaled_lower_strict(n, m, s, f + 1789);
            assert(f + 1789 + 256 * s == (f + 1793 + 256 * s - 1) - 3);
            lemma_scaled_upper(n, 4 * m + 1, k, f + 2304);
            assert(f + 2304 + 256 * k == f + 1793 + 256 * s - 1);
        } else {
            assert(4 * m + 1 <= q);
            assert((4 * m + 1) * p <= q * p) by (nonlinear_arith)
                requires
                    4 * m + 1 <= q,
                    p > 0,
            ;
            lemma_scaled_lower_strict(n, 4 * m + 1, k, f + 2302);
            assert(f + 2302 + 256 * k == (f + 1793 + 256 * s) - 3);
            lemma_scaled_upper(n, m + 1, s, f + 1793);
        }
    }
}

/// Entries after the first are at least 2.
proof fn lemma_log2_tab_lower(i: int)
    requires
        1 <= i < 128,
    ensures
        LOG2_TAB[i] >= 2,
{
    assert(LOG2_TAB[i] >= 2);
}

/// A 8bit fixed point estimation of log2(n), the result
/// is always less than the exact value and estimation error ≤ 2.
///
/// Its integer part (the result divided by 256) is exactly the floor of log2(n), and
/// `2^r <= n^256 < 2^(r + 3)`: `r` is at most two below the floor of `256 log2(n)`.
pub fn log2_word_fp8(n: Word) -> (r: u32)
    requires
        n > 0,
    ensures
        (r as nat) / 256 == (spec_bit_len(n as nat) - 1) as nat,
        pow2(r as nat) <= pow(n as int, 256) < pow2((r + 3) as nat),
        n >= 0x4080 ==> pow(n + 1, 256) <= pow2((r + 3) as nat),
{
    proof {
        lemma_pow256_is_pow(n as int);
        lemma_pow256_is_pow(n + 1);
    }
    let nbits = WORD_BITS - word_leading_zeros(n);
    proof {
        lemma_bit_len_bounds(n as nat);
        lemma_pow2_widths();
        lemma2_to64();
        lemma_bit_len_le(n as nat, 7);
        lemma_bit_len_le(n as nat, 9);
        lemma_bit_len_le(n as nat, 14);
        lemma_bit_len_le(n as nat, 15);
    }
    if n < 0x80 {
        // err = 0 in this range
        let shift = 8 - nbits;
        proof {
            lemma_bit_len_le(n as nat, 7);
            lemma_pow2_adds((nbits - 1) as nat, shift as nat);
            assert((nbits - 1) as nat + shift as nat == 7);
            lemma_mul_inequality(pow2((nbits - 1) as nat) as int, n as int, pow2(shift as nat) as int);
            lemma_mul_strict_inequality(n as int, pow2(nbits as nat) as int, pow2(shift as nat) as int);
            lemma_pow2_adds(nbits as nat, shift as nat);
            assert(nbits as nat + shift as nat == 8);
            lemma_mul_is_commutative(pow2(nbits as nat) as int, pow2(shift as nat) as int);
            lemma_u64_shl_is_mul(n, shift as u64);
            lemma_log2_tab_bound((n * pow2(shift as nat)) - 0x80);
        }
        let lookup = LOG2_TAB[(n << shift) as usize - 0x80];
        proof {
            lemma_log2_fp8_small(n as int, shift as nat, (n << shift) as int);
        }
        lookup as u32 + (7 - shift) * 256
    } else if n < 0x200 {
        // err = 0~2 in this range
        let shift = nbits - 8;
        proof {
            lemma_bit_len_le(n as nat, 9);
            if nbits < 8 {
                lemma_pow2_increases(nbits as nat, 7);
            }
            lemma_u64_shr_is_div(n, shift as u64);
            lemma_div_pow2_range(n as nat, nbits as nat, shift as nat);
            assert((nbits - 1 - shift) as nat == 7);
            assert((nbits - shift) as nat == 8);
            lemma_log2_tab_bound(n as nat / pow2(shift as nat) - 0x80);
        }
        let lookup = LOG2_TAB[(n >> shift) as usize - 0x80];
        proof {
            lemma_div_window(n as int, shift as nat);
            lemma_log2_fp8_byte(n as int, shift as nat, (n >> shift) as int);
        }
        lookup as u32 + (7 + shift) * 256
    } else if n < (0x4000 + 0x80) {
        // err = 0~3, use extra 2 bits to reduce error
        let shift = nbits - 8;
        proof {
            lemma_bit_len_le(n as nat, 15);
            if nbits < 10 {
                lemma_pow2_increases(nbits as nat, 9);
            }
            lemma_u64_shr_is_div(n, (shift - 2) as u64);
            lemma_div_pow2_range(n as nat, nbits as nat, (shift - 2) as nat);
            assert((nbits - 1 - (shift - 2)) as nat == 9);
            assert((nbits - (shift - 2)) as nat == 10);
        }
        let mask = n >> (shift - 2);
        proof {
            lemma_u64_shr_is_div(mask, 2);
            lemma_div_pow2_range(mask as nat, 10, 2);
            lemma_log2_tab_bound(mask as nat / 4 - 0x80);
        }
        let lookup = LOG2_TAB[(mask >> 2) as usize - 0x80];
        let est = lookup as u32 + (7 + shift) * 256;

        // err could be 0 if mask & 3 < 3
        let extra: u32 = if mask & 3 == 3 { 1 } else { 0 };
        proof {
            lemma_u64_low_bits_mask_is_mod(mask, 2);
            lemma_low_bits_mask_values();
            lemma_div_window(n as int, (shift - 2) as nat);
            lemma_log2_fp8_ten_bits(n as int, shift as nat, mask as int, extra as nat);
        }
        est + extra
    } else {
        // err = 0~3, use extra 7 bits to reduce error
        let shift = nbits - 8;
        proof {
            if nbits < 15 {
                lemma_bit_len_le(n as nat, 14);
                lemma_pow2_increases(nbits as nat, 14);
            }
            lemma_u64_shr_is_div(n, (shift - 7) as u64);
            lemma_div_pow2_range(n as nat, nbits as nat, (shift - 7) as nat);
            assert((nbits - 1 - (shift - 7)) as nat == 14);
            assert((nbits - (shift - 7)) as nat == 15);
        }
        let mask = n >> (shift - 7);
        proof {
            lemma_u64_shr_is_div(mask, 7);
            lemma_div_pow2_range(mask as nat, 15, 7);
            lemma_log2_tab_bound(mask as nat / 128 - 0x80);
        }
        let top_est = LOG2_TAB[(mask >> 7) as usize - 0x80];
        let est = top_est as u32 + (7 + shift) * 256;

        // err could be 0 if mask & 127 < 80
        let extra: u32 = if mask & 127 >= 80 { 1 } else { 0 };
        proof {
            lemma_u64_low_bits_mask_is_mod(mask, 7);
            lemma_low_bits_mask_values();
            lemma_div_window(n as int, (shift - 7) as nat);
            lemma_log2_fp8_fifteen_bits(n as int, shift as nat, mask as int, extra as nat);
        }
        est + extra
    }
}

/// A 8bit fixed point estimation of log2(n), the result
/// is always greater than the exact value and estimation error ≤ 2.
///
/// The result lies strictly above `256 * floor(log2(n))` and below `256 * bit_len(n) + 2`, and
/// `2^(r - 3) < n^256 <= 2^r`: `r` is at most two above the ceiling of `256 log2(n)`.
pub fn ceil_log2_word_fp8(n: Word) -> (r: u32)
    requires
        n > 0,
        !spec_is_power_of_two(n as nat),
    ensures
        256 * ((spec_bit_len(n as nat) - 1) as nat) < r < 256 * spec_bit_len(n as nat) + 2,
        pow2((r - 3) as nat) < pow(n as int, 256) <= pow2(r as nat),
        n >= 0x200 ==> pow(n + 1, 256) <= pow2(r as nat),
{
    proof {
        lemma_pow256_is_pow(n as int);
        lemma_pow256_is_pow(n + 1);
    }
    let nbits = WORD_BITS - word_leading_zeros(n);
    proof {
        lemma_bit_len_bounds(n as nat);
        lemma_pow2_widths();
        lemma2_to64();
        lemma_bit_len_le(n as nat, 7);
        lemma_bit_len_le(n as nat, 9);
    }
    if n < 0x80 {
        // err = 0 in this range
        let shift = 8 - nbits;
        proof {
            lemma_pow2_adds((nbits - 1) as nat, shift as nat);
            assert((nbits - 1) as nat + shift as nat == 7);
            lemma_mul_inequality(pow2((nbits - 1) as nat) as int, n as int, pow2(shift as nat) as int);
            lemma_mul_strict_inequality(n as int, pow2(nbits as nat) as int, pow2(shift as nat) as int);
            lemma_pow2_adds(nbits as nat, shift as nat);
            assert(nbits as nat + shift as nat == 8);
            lemma_mul_is_commutative(pow2(nbits as nat) as int, pow2(shift as nat) as int);
            lemma_u64_shl_is_mul(n, shift as u64);
            lemma_log2_tab_bound((n * pow2(shift as nat)) - 0x80);
        }
        let top_est = LOG2_TAB[(n << shift) as usize - 0x80];
        proof {
            lemma_log2_fp8_small(n as int, shift as nat, (n << shift) as int);
            lemma_pow2_le((top_est as nat + 1792 - 256 * shift - 2) as nat, (top_est as nat + 1792 - 256 * shift) as nat);
        }
        top_est as u32 + (7 - shift) * 256 + 1
    } else if n < 0x200 {
        // err = 0 in 0x80 ~ 0x100, err = 0~2 in 0x100 ~ 0x200
        let shift = nbits - 8;
        proof {
            if nbits < 8 {
                lemma_pow2_increases(nbits as nat, 7);
            }
            lemma_u64_shr_is_div(n, shift as u64);
            lemma_div_pow2_range(n as nat, nbits as nat, shift as nat);
            assert((nbits - 1 - shift) as nat == 7);
            assert((nbits - shift) as nat == 8);
            lemma_log2_tab_bound(n as nat / pow2(shift as nat) - 0x80);
        }
        let top_est = LOG2_TAB[(n >> shift) as usize - 0x80];
        let est = top_est as u32 + (7 + shift) * 256 + 1;

        proof {
            lemma_u64_low_bits_mask_is_mod(n, 1);
            lemma_low_bits_mask_values();
            lemma2_to64();
            lemma_div_window(n as int, shift as nat);
            lemma_ceil_log2_fp8_byte(n as int, shift as nat, (n >> shift) as int, n % 2 == 1);
        }
        if n > 0x100 && n & 1 == 1 {
            est + 2
        } else {
            est
        }
    } else {
        // err = 0~3, use extra 2 bits to reduce error
        let shift = WORD_BITS - word_leading_zeros(n) - 8;
        proof {
            if nbits < 10 {
                lemma_pow2_increases(nbits as nat, 9);
            }
            lemma_u64_shr_is_div(n, (shift - 2) as u64);
            lemma_div_pow2_range(n as nat, nbits as nat, (shift - 2) as nat);
            assert((nbits - 1 - (shift - 2)) as nat == 9);
            assert((nbits - (shift - 2)) as nat == 10);
        }
        let mask10 = n >> (shift - 2);
        let mask8 = mask10 >> 2;
        proof {
            lemma_u64_shr_is_div(mask10, 2);
            lemma_div_pow2_range(mask10 as nat, 10, 2);
        }
        proof {
            lemma_u64_shr_is_div(mask10, 2);
            lemma_u64_low_bits_mask_is_mod(mask10, 2);
            lemma_low_bits_mask_values();
            lemma_div_window(n as int, (shift - 2) as nat);
            lemma_ceil_log2_fp8_ten_bits(n as int, shift as nat, mask10 as int, if mask10 % 4 == 0 { 1nat } else { 0nat });
        }
        if mask8 == 255 {
            0x100 + (7 + shift) * 256
        } else {
            proof {
                lemma_log2_tab_bound(mask8 as nat + 1 - 0x80);
                lemma_log2_tab_lower(mask8 as nat + 1 - 0x80);
            }
            // find next item in LOG2_TAB
            let top_est = LOG2_TAB[mask8 as usize + 1 - 0x80];
            let est = top_est as u32 + (7 + shift) * 256 + 1;
            let low: u32 = if mask10 & 3 == 0 { 1 } else { 0 };
            est - low
        }
    }
}

/// A 8bit fixed point estimation of log2(n), the result
/// is always less than the exact value and estimation error ≤ 2.
///
/// Its integer part (the result divided by 256) is exactly the floor of log2(n), and
/// `2^r <= n^256 < 2^(r + 3)`: `r` is at most two below the floor of `256 log2(n)`.
pub fn log2_dword_fp8(n: DoubleWord) -> (r: u32)
    requires
        n > 0,
    ensures
        (r as nat) / 256 == (spec_bit_len(n as nat) - 1) as nat,
        pow2(r as nat) <= pow(n as int, 256) < pow2((r + 3) as nat),
{
    let bits = DWORD_BITS - dword_leading_zeros(n);
    proof {
        lemma_bit_len_bounds(n as nat);
        lemma_pow2_widths();
        lemma_bit_len_le(n as nat, 64);
    }
    if bits <= WORD_BITS {
        log2_word_fp8(n as Word)
    } else {
        let shift = bits - WORD_BITS;
        proof {
            lemma_u128_shr_is_div(n, shift as u128);
            lemma_div_pow2_range(n as nat, bits as nat, shift as nat);
            assert((bits - 1 - shift) as nat == 63);
            assert((bits - shift) as nat == 64);
            lemma_bit_len_unique(n as nat / pow2(shift as nat), 64);
        }
        let hi = (n >> shift) as Word;
        let r_hi = log2_word_fp8(hi);
        proof {
            lemma2_to64_rest();
            assert(hi as int == n as int / pow2(shift as nat) as int);
            assert(hi >= 0x4080);
            lemma_pow256_is_pow(n as int);
            lemma_pow256_is_pow(hi as int);
            lemma_pow256_is_pow(hi + 1);
            lemma_div_window(n as int, shift as nat);
            lemma_scaled_lower(n as int, hi as int, shift as nat, r_hi as nat);
            lemma_scaled_upper(n as int, hi + 1, shift as nat, (r_hi + 3) as nat);
        }
        r_hi + shift * 256
    }
}

/// A 8bit fixed point estimation of log2(n), the result
/// is always greater than the exact value and estimation error ≤ 2.
///
/// The result lies strictly above `256 * floor(log2(n))` and below `256 * bit_len(n) + 2`, and
/// `2^(r - 3) < n^256 <= 2^r`: `r` is at most two above the ceiling of `256 log2(n)`.
pub fn ceil_log2_dword_fp8(n: DoubleWord) -> (r: u32)
    requires
        n > 0,
        !spec_is_power_of_two(n as nat),
    ensures
        256 * ((spec_bit_len(n as nat) - 1) as nat) < r < 256 * spec_bit_len(n as nat) + 2,
        pow2((r - 3) as nat) < pow(n as int, 256) <= pow2(r as nat),
{
    let bits = DWORD_BITS - dword_leading_zeros(n);
    proof {
        lemma_bit_len_bounds(n as nat);
        lemma_pow2_widths();
        lemma_bit_len_le(n as nat, 64);
    }
    if bits <= WORD_BITS {
        ceil_log2_word_fp8(n as Word)
    } else {
        let shift = bits - WORD_BITS;
        proof {
            lemma_u128_shr_is_div(n, shift as u128);
            lemma_div_pow2_range(n as nat, bits as nat, shift as nat);
            assert((bits - 1 - shift) as nat == 63);
            assert((bits - shift) as nat == 64);
            lemma_bit_len_unique(n as nat / pow2(shift as nat), 64);
        }
        let hi = (n >> shift) as Word; // high word has exactly WORD_BITS
        proof {
            assert(1u64 << 63u64 == 0x8000_0000_0000_0000u64) by (bit_vector);
        }
        let hi_bits = if hi == 1 << (WORD_BITS - 1) {
            // specially handled because ceil_log2_word_fp8 disallow a power of 2
            (WORD_BITS - 1) * 256 + 1
        } else {
            proof {
                lemma2_to64_rest();
                lemma_not_power_of_two_between(hi as nat, 64);
            }
            // in this case, the ceiling handled by the highest word
            // will cover the requirement for ceiling the low bits
            ceil_log2_word_fp8(hi)
        };
        proof {
            lemma2_to64_rest();
            assert(hi as int == n as int / pow2(shift as nat) as int);
            lemma_pow256_is_pow(n as int);
            lemma_pow256_is_pow(hi as int);
            lemma_pow256_is_pow(hi + 1);
            lemma_div_window(n as int, shift as nat);
            lemma2_to64();
            if hi == 0x8000_0000_0000_0000u64 {
                lemma_log2_tab_fits_f8(255);
                lemma_pow256_pow2(63);
                lemma_pow2_adds(16128, 1);
                assert(pow2(63) == 0x8000_0000_0000_0000);
                assert(hi + 1 == 0x8000_0000_0000_0001);
                assert(pow256(hi + 1) <= pow2(16129));
                lemma_scaled_upper(n as int, hi + 1, shift as nat, 16129);
                lemma_scaled_lower(n as int, hi as int, shift as nat, 16128);
                lemma_pow2_le((16126 + 256 * shift) as nat, (16128 + 256 * shift) as nat);
            } else {
                assert(hi >= 0x200);
                lemma_scaled_upper(n as int, hi + 1, shift as nat, hi_bits as nat);
                lemma_scaled_lower_strict(n as int, hi as int, shift as nat, (hi_bits - 3) as nat);
            }
        }
        hi_bits + shift * 256
    }
}

} // verus!
