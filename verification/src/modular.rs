//! Modular arithmetic: the ring of integers modulo a positive number, its elements, and
//! exponentiation by a sliding window.
use vstd::prelude::*;
use vstd::arithmetic::power::*;
use vstd::arithmetic::power2::*;
use vstd::arithmetic::div_mod::*;
use vstd::arithmetic::mul::*;
use vstd::bits::*;
use crate::bits::spec_bit;
use crate::buffer::spec_max_capacity;
use crate::mul::mul_large;
use crate::primitive::{spec_bit_len, lemma_bit_len_bounds};
use crate::ubig::UBig;
use crate::gcd::spec_gcd;
use crate::ibig::{IBig, spec_abs, spec_sign};
use crate::sign::Sign;
use crate::add::{add_in_place, sub_in_place};
use crate::cmp::words_less;
use crate::arch::word::{DoubleWord, Word};
use crate::words::{lemma_normalized_len, words_val, word_pow, lemma_words_val_push, lemma_words_val_bound};

verus! {

/// Powers of one element multiply by adding their exponents: `b^x mod m` times `b^y mod m`,
/// reduced, is `b^(x + y) mod m`, which is what [Reduced::mul] gives for two results of
/// [Reduced::pow] on one element.
pub proof fn lemma_mul_pow_mod(b: int, x: nat, y: nat, m: int)
    requires
        m > 0,
    ensures
        ((pow(b, x) % m) * (pow(b, y) % m)) % m == pow(b, x + y) % m,
{
    lemma_mul_mod_noop_general(pow(b, x), pow(b, y), m);
    lemma_pow_adds(b, x, y);
}

/// `(a b) mod m` for residues `a, b < m`.
fn mul_mod(a: &UBig, b: &UBig, m: &UBig) -> (r: UBig)
    requires
        m@ > 0,
        a@ < m@,
        b@ < m@,
        2 * m.spec_words().len() <= spec_max_capacity(),
    ensures
        r@ == (a@ * b@) % m@,
        r@ < m@,
{
    let aw = a.as_words();
    let bw = b.as_words();
    let mw = m.as_words();
    proof {
        lemma_normalized_len(mw@, aw@);
        lemma_normalized_len(mw@, bw@);
    }
    let prod = UBig::from_vec(mul_large(aw, bw));
    let r = prod.rem(m);
    proof {
        lemma_mod_bound((a@ * b@) as int, m@ as int);
    }
    r
}

/// The cost, in multiplications, of exponentiation by a window of `w` bits for an exponent of
/// `n` bits: the table of odd powers and one multiplication per window.
pub open spec fn pow_window_cost(n: nat, w: nat) -> int {
    pow2((w - 1) as nat) - 1 + n / (w + 1)
}

/// `pow2(usize::BITS - 3) + usize::MAX / 2` fits in a `usize`.
proof fn lemma_window_cost_fits(w: nat)
    requires
        1 <= w,
        w + 1 < usize::BITS,
    ensures
        pow2((w - 1) as nat) + usize::MAX / 2 <= usize::MAX,
        pow2((w - 1) as nat) <= usize::MAX,
{
    lemma2_to64();
    if w - 1 < usize::BITS - 3 {
        lemma_pow2_strictly_increases((w - 1) as nat, (usize::BITS - 3) as nat);
    }
    if usize::BITS == 32 {
        assert(pow2(29) == 0x2000_0000);
    } else {
        assert(usize::BITS == 64);
        lemma_pow2_adds(32, 29);
        assert(pow2(61) == 0x2000_0000_0000_0000) by (nonlinear_arith)
            requires
                pow2(61) == pow2(32) * pow2(29),
                pow2(32) == 0x1_0000_0000,
                pow2(29) == 0x2000_0000,
        ;
    }
}

/// The cost of a window of `w` bits, computed.
fn window_cost(n: usize, w: u32) -> (r: usize)
    requires
        1 <= w,
        w + 1 < usize::BITS,
    ensures
        r == pow_window_cost(n as nat, w as nat),
{
    proof {
        lemma_window_cost_fits(w as nat);
        lemma_pow2_pos((w - 1) as nat);
        lemma_usize_shl_is_mul(1, (w - 1) as usize);
        lemma_div_is_ordered_by_denominator(n as int, 2, w + 1);
        lemma_div_is_ordered(n as int, usize::MAX as int, 2);
    }
    let table = 1usize << ((w - 1) as usize);
    table - 1 + n / (w as usize + 1)
}

/// Choose the window length for an exponent of `n` bits: starting from one bit, the window
/// grows while that lowers the cost, and stays shorter than `usize::BITS - 1` bits.
fn choose_pow_window_len(n: usize) -> (r: u32)
    ensures
        1 <= r,
        r + 1 < usize::BITS,
        forall|k: nat| 1 <= k < r ==> #[trigger] pow_window_cost(n as nat, k) > pow_window_cost(n as nat, k + 1),
        r + 2 < usize::BITS ==> pow_window_cost(n as nat, r as nat) <= pow_window_cost(
            n as nat,
            (r + 1) as nat,
        ),
{
    let mut window_size: u32 = 1;
    let mut c = window_cost(n, window_size);
    while window_size + 2 < usize::BITS
        invariant_except_break
            1 <= window_size,
            window_size + 1 < usize::BITS,
            c == pow_window_cost(n as nat, window_size as nat),
            forall|k: nat|
                1 <= k < window_size ==> #[trigger] pow_window_cost(n as nat, k) > pow_window_cost(
                    n as nat,
                    k + 1,
                ),
        ensures
            1 <= window_size,
            window_size + 1 < usize::BITS,
            forall|k: nat|
                1 <= k < window_size ==> #[trigger] pow_window_cost(n as nat, k) > pow_window_cost(
                    n as nat,
                    k + 1,
                ),
            window_size + 2 < usize::BITS ==> pow_window_cost(n as nat, window_size as nat)
                <= pow_window_cost(n as nat, (window_size + 1) as nat),
        decreases usize::BITS - window_size,
    {
        let c2 = window_cost(n, window_size + 1);
        if c <= c2 {
            break;
        }
        window_size = window_size + 1;
        c = c2;
    }
    window_size
}


/// Dropping the lowest of the bits from `k` on: `e / 2^k == 2 (e / 2^(k+1)) + bit k`.
proof fn lemma_shift_step(e: nat, k: nat)
    ensures
        e / pow2(k + 1) == (e / pow2(k)) / 2,
        e / pow2(k) == 2 * (e / pow2(k + 1)) + (e / pow2(k)) % 2,
{
    lemma_pow2_pos(k);
    lemma_pow2_adds(k, 1);
    lemma2_to64();
    lemma_div_denominator(e as int, pow2(k) as int, 2);
    lemma_fundamental_div_mod((e / pow2(k)) as int, 2);
}

/// The bits of `e` from `j` on are those from `j + s` on, shifted by `s`, and the `s` bits
/// from `j`.
proof fn lemma_shift_split(e: nat, j: nat, s: nat)
    ensures
        e / pow2(j) == (e / pow2(j + s)) * pow2(s) + (e / pow2(j)) % pow2(s),
{
    lemma_pow2_pos(j);
    lemma_pow2_pos(s);
    lemma_pow2_adds(j, s);
    lemma_div_denominator(e as int, pow2(j) as int, pow2(s) as int);
    lemma_fundamental_div_mod((e / pow2(j)) as int, pow2(s) as int);
    lemma_mul_is_commutative(pow2(s) as int, (e / pow2(j + s)) as int);
}

/// One more low bit: `(e / 2^k) mod 2^(t+1) == 2 ((e / 2^(k+1)) mod 2^t) + bit k`.
proof fn lemma_low_bits_step(e: nat, k: nat, t: nat)
    ensures
        (e / pow2(k)) % pow2(t + 1) == 2 * ((e / pow2(k + 1)) % pow2(t)) + (e / pow2(k)) % 2,
{
    lemma_shift_step(e, k);
    lemma_pow2_pos(t);
    lemma_pow2_adds(1, t);
    lemma2_to64();
    lemma_mod_breakdown((e / pow2(k)) as int, 2, pow2(t) as int);
}

/// `base^exp mod m` for a residue `base < m`, by a sliding window over the bits of `exp`:
/// a run of zero bits squares, and a window of at most the chosen length that starts and ends
/// with a one bit squares once per bit and multiplies by an odd power from a table.
fn pow_residue(base: &UBig, exp: &UBig, m: &UBig) -> (r: UBig)
    requires
        m@ > 0,
        base@ < m@,
        2 * m.spec_words().len() <= spec_max_capacity(),
    ensures
        r@ == pow(base@ as int, exp@) % (m@ as int),
        r@ < m@,
{
    let ghost b = base@ as int;
    let ghost e = exp@;
    let ghost md = m@ as int;
    let nbits = exp.bit_len();
    let one = UBig::one();
    let mut val = one.rem(m);
    proof {
        lemma_bit_len_bounds(e);
        lemma_pow2_pos(nbits as nat);
        lemma_basic_div(e as int, pow2(nbits as nat) as int);
        reveal(pow);
        lemma_mod_bound(1, md);
    }
    let w = choose_pow_window_len(nbits);
    // the table of odd powers: table[j] == base^(2j+1) mod m
    let sq = mul_mod(base, base, m);
    proof {
        lemma_window_cost_fits(w as nat);
        lemma_usize_shl_is_mul(1, (w - 1) as usize);
        lemma_pow2_pos((w - 1) as nat);
        reveal(pow);
        assert(pow(b, 2) == b * pow(b, 1));
        assert(pow(b, 1) == b * pow(b, 0));
        lemma_small_mod(base@, m@);
        assert(pow(b, 1) == b);
    }
    let half: usize = 1usize << ((w - 1) as usize);
    let mut table: Vec<UBig> = Vec::new();
    table.push(base.copy());
    while table.len() < half
        invariant
            1 <= table@.len() <= half,
            half == pow2((w - 1) as nat),
            m@ > 0,
            md == m@,
            b == base@,
            2 * m.spec_words().len() <= spec_max_capacity(),
            sq@ == pow(b, 2) % md,
            sq@ < m@,
            forall|j: int|
                0 <= j < table@.len() ==> (#[trigger] table@[j])@ == pow(b, (2 * j + 1) as nat)
                    % md && table@[j]@ < m@,
        decreases half - table@.len(),
    {
        let k = table.len();
        let next = mul_mod(&table[k - 1], &sq, m);
        proof {
            lemma_mul_pow_mod(b, (2 * (k - 1) + 1) as nat, 2, md);
            assert((2 * (k - 1) + 1) as nat + 2 == (2 * k + 1) as nat);
        }
        table.push(next);
    }
    let mut i: usize = nbits;
    while i > 0
        invariant
            i <= nbits,
            1 <= w,
            w + 1 < usize::BITS,
            table@.len() == pow2((w - 1) as nat),
            m@ > 0,
            md == m@,
            b == base@,
            e == exp@,
            2 * m.spec_words().len() <= spec_max_capacity(),
            val@ == pow(b, e / pow2(i as nat)) % md,
            val@ < m@,
            forall|j: int|
                0 <= j < table@.len() ==> (#[trigger] table@[j])@ == pow(b, (2 * j + 1) as nat)
                    % md && table@[j]@ < m@,
        decreases i,
    {
        let ghost k0 = e / pow2(i as nat);
        if !exp.bit(i - 1) {
            proof {
                lemma_shift_step(e, (i - 1) as nat);
                lemma_mul_pow_mod(b, k0, k0, md);
            }
            val = mul_mod(&val, &val, m);
            i = i - 1;
        } else {
            // the window: bits j..i, from the lowest one bit within reach down to bit i - 1
            let lo: usize = if i >= w as usize { i - w as usize } else { 0 };
            let mut j: usize = lo;
            while !exp.bit(j)
                invariant
                    lo <= j <= i - 1,
                    spec_bit(e, (i - 1) as nat),
                    e == exp@,
                decreases i - 1 - j,
            {
                j = j + 1;
            }
            // u: the bits j..i of the exponent
            let mut u: usize = 0;
            let mut k: usize = i;
            proof {
                lemma_pow2_pos(0);
                assert(pow2(0) == 1) by {
                    lemma2_to64();
                }

            }
            while k > j
                invariant
                    j <= k <= i,
                    i - j <= w,
                    w + 1 < usize::BITS,
                    e == exp@,
                    u == (e / pow2(k as nat)) % pow2((i - k) as nat),
                decreases k,
            {
                k = k - 1;
                let bit: usize = if exp.bit(k) { 1 } else { 0 };
                proof {
                    lemma_low_bits_step(e, k as nat, (i - k - 1) as nat);
                    lemma_pow2_pos((i - k - 1) as nat);
                    lemma_mod_bound((e / pow2((k + 1) as nat)) as int, pow2((i - k - 1) as nat) as int);
                    lemma_pow2_adds(1, (i - k - 1) as nat);
                    lemma2_to64();
                    lemma_pow2_increases_le((i - k) as nat, w as nat);
                    lemma_window_cost_fits(w as nat);
                    lemma_pow2_adds(1, (w - 1) as nat);
                    assert(u < pow2((i - k - 1) as nat));
                    assert(pow2((i - k) as nat) == 2 * pow2((i - k - 1) as nat));
                    assert(2 * u + bit < pow2(w as nat));
                    assert(pow2(w as nat) == 2 * pow2((w - 1) as nat));
                }
                u = 2 * u + bit;
            }
            let ghost s = (i - j) as nat;
            let mut t: usize = 0;
            proof {
                lemma2_to64();
                assert(k0 * pow2(0) == k0) by (nonlinear_arith)
                    requires
                        pow2(0) == 1,
                ;
            }
            while t < i - j
                invariant
                    t <= i - j,
                    m@ > 0,
                    md == m@,
                    2 * m.spec_words().len() <= spec_max_capacity(),
                    val@ == pow(b, k0 * pow2(t as nat)) % md,
                    val@ < m@,
                decreases i - j - t,
            {
                proof {
                    let kt = k0 * pow2(t as nat);
                    lemma_mul_pow_mod(b, kt, kt, md);
                    lemma_pow2_adds(t as nat, 1);
                    lemma2_to64();
                    assert(kt + kt == k0 * pow2((t + 1) as nat)) by (nonlinear_arith)
                        requires
                            kt == k0 * pow2(t as nat),
                            pow2((t + 1) as nat) == pow2(t as nat) * 2,
                    ;
                }
                val = mul_mod(&val, &val, m);
                t = t + 1;
            }
            proof {
                // u is odd, and below 2^(i - j) <= 2^w
                lemma_shift_split(e, j as nat, s);
                assert(j as nat + s == i as nat);
                lemma_pow2_pos((s - 1) as nat);
                lemma_pow2_adds(1, (s - 1) as nat);
                lemma2_to64();
                lemma_mod_mod((e / pow2(j as nat)) as int, 2, pow2((s - 1) as nat) as int);
                lemma_mod_bound((e / pow2(j as nat)) as int, pow2(s) as int);
                lemma_pow2_increases_le(s, w as nat);
                lemma_pow2_adds(1, (w - 1) as nat);
                assert(u % 2 == 1);
                assert((u - 1) / 2 < pow2((w - 1) as nat));
                assert((2 * ((u - 1) / 2) + 1) as nat == u);
                lemma_mul_pow_mod(b, k0 * pow2(s), u as nat, md);
            }
            val = mul_mod(&val, &table[(u - 1) / 2], m);
            i = j;
        }
    }
    proof {
        lemma2_to64();
        lemma_div_basics(e as int);
    }
    val
}

/// `2^a <= 2^b` for `a <= b`.
proof fn lemma_pow2_increases_le(a: nat, b: nat)
    requires
        a <= b,
    ensures
        pow2(a) <= pow2(b),
{
    if a < b {
        lemma_pow2_strictly_increases(a, b);
    }
}


/// The words of `s` followed by zero words up to `n` words.
fn padded_words(s: &[Word], n: usize) -> (r: Vec<Word>)
    requires
        s@.len() <= n,
    ensures
        r@.len() == n,
        words_val(r@) == words_val(s@),
{
    let mut v: Vec<Word> = Vec::new();
    let mut i: usize = 0;
    while i < s.len()
        invariant
            i <= s@.len(),
            v@ == s@.subrange(0, i as int),
        decreases s@.len() - i,
    {
        v.push(s[i]);
        i = i + 1;
        proof {
            assert(v@ =~= s@.subrange(0, i as int));
        }
    }
    proof {
        assert(v@ =~= s@);
    }
    while v.len() < n
        invariant
            s@.len() <= v@.len() <= n,
            words_val(v@) == words_val(s@),
        decreases n - v@.len(),
    {
        proof {
            lemma_words_val_push(v@, 0);
        }
        v.push(0);
    }
    v
}

/// `(a + b) mod m` for residues `a, b < m`.
fn add_mod(a: &UBig, b: &UBig, m: &UBig) -> (r: UBig)
    requires
        m@ > 0,
        a@ < m@,
        b@ < m@,
        2 * m.spec_words().len() <= spec_max_capacity(),
    ensures
        r@ == (a@ + b@) % m@,
{
    let aw = a.as_words();
    let bw = b.as_words();
    let mw = m.as_words();
    proof {
        lemma_normalized_len(mw@, aw@);
        lemma_normalized_len(mw@, bw@);
        lemma_words_val_bound(mw@);
        crate::words::lemma_word_pow_adds(mw@.len(), 1);
        crate::words::lemma_word_pow(1);
    }
    let mut v = padded_words(aw, mw.len() + 1);
    let overflow = add_in_place(v.as_mut_slice(), bw);
    proof {
        assert(!overflow);
    }
    let sum = UBig::from_vec(v);
    sum.rem(m)
}

/// `(a - b) mod m` for residues `a, b < m`.
fn sub_mod(a: &UBig, b: &UBig, m: &UBig) -> (r: UBig)
    requires
        m@ > 0,
        a@ < m@,
        b@ < m@,
        2 * m.spec_words().len() <= spec_max_capacity(),
    ensures
        r@ == (a@ - b@) % (m@ as int),
        r@ < m@,
{
    let aw = a.as_words();
    let bw = b.as_words();
    let mw = m.as_words();
    proof {
        lemma_normalized_len(mw@, aw@);
        lemma_normalized_len(mw@, bw@);
        lemma_normalized_len(aw@, bw@);
        lemma_words_val_bound(mw@);
    }
    if !words_less(aw, bw) {
        let mut v = padded_words(aw, aw.len());
        let borrow = sub_in_place(v.as_mut_slice(), bw);
        proof {
            assert(!borrow);
            lemma_small_mod((a@ - b@) as nat, m@);
        }
        UBig::from_vec(v)
    } else {
        let mut v = padded_words(mw, mw.len());
        let borrow = sub_in_place(v.as_mut_slice(), bw);
        proof {
            assert(!borrow);
        }
        let overflow = add_in_place(v.as_mut_slice(), aw);
        proof {
            assert(!overflow);
            lemma_small_mod((a@ + m@ - b@) as nat, m@);
            lemma_mod_add_multiples_vanish(a@ - b@, m@ as int);
        }
        UBig::from_vec(v)
    }
}

/// A fixed positive divisor, and the ring of integers modulo it.
pub struct ConstDivisor {
    modulus: UBig,
}

/// An element of the ring of a [ConstDivisor]: a residue below the modulus, with the modulus
/// it belongs to.
pub struct Reduced {
    residue: UBig,
    modulus: UBig,
}

/// A modulus that the ring takes: positive, and whose products of residues fit in a number.
pub open spec fn is_valid_modulus(m: &UBig) -> bool {
    m@ > 0 && 2 * m.spec_words().len() <= spec_max_capacity()
}

/// Values that an element of the ring of a [ConstDivisor] can be made from.
pub trait IntoRing: Sized {
    /// The integer that the value stands for.
    spec fn ring_value(&self) -> int;

    /// The element of `ring` that the value belongs to: the value modulo the divisor.
    fn into_ring(self, ring: &ConstDivisor) -> (r: Reduced)
        ensures
            r.spec_modulus() == ring.spec_modulus(),
            r.spec_residue() == self.ring_value() % (ring.spec_modulus() as int),
    ;
}

impl ConstDivisor {
    #[verifier::type_invariant]
    closed spec fn well_formed(self) -> bool {
        is_valid_modulus(&self.modulus)
    }

    /// The divisor, which is the modulus of the ring.
    pub closed spec fn spec_modulus(&self) -> nat {
        self.modulus@
    }

    /// The divisor `n`.
    ///
    /// # Panics
    ///
    /// Panics if `n` is zero.
    pub fn new(n: UBig) -> (r: ConstDivisor)
        requires
            is_valid_modulus(&n),
        ensures
            r.spec_modulus() == n@,
    {
        ConstDivisor { modulus: n }
    }

    /// The divisor given by a word.
    ///
    /// # Panics
    ///
    /// Panics if `word` is zero.
    pub fn from_word(word: Word) -> (r: ConstDivisor)
        requires
            word != 0,
        ensures
            r.spec_modulus() == word,
    {
        let n = UBig::from_word(word);
        ConstDivisor { modulus: n }
    }

    /// The divisor given by a double word.
    ///
    /// # Panics
    ///
    /// Panics if `dword` is zero.
    pub fn from_dword(dword: DoubleWord) -> (r: ConstDivisor)
        requires
            dword != 0,
        ensures
            r.spec_modulus() == dword,
    {
        let n = UBig::from_dword(dword);
        ConstDivisor { modulus: n }
    }

    /// The divisor, which is the modulus of the ring.
    pub fn modulus(&self) -> (r: UBig)
        ensures
            r@ == self.spec_modulus(),
            r@ > 0,
    {
        proof {
            use_type_invariant(self);
        }
        self.modulus.copy()
    }

    /// The element of the ring that `x` belongs to: `x mod m`.
    pub fn reduce<T: IntoRing>(&self, x: T) -> (r: Reduced)
        ensures
            r.spec_residue() == x.ring_value() % (self.spec_modulus() as int),
            r.spec_modulus() == self.spec_modulus(),
    {
        x.into_ring(self)
    }

    /// The element of the ring that the natural number `x` belongs to.
    fn reduce_natural(&self, x: &UBig) -> (r: Reduced)
        ensures
            r.spec_residue() == x@ % self.spec_modulus(),
            r.spec_modulus() == self.spec_modulus(),
    {
        proof {
            use_type_invariant(self);
        }
        let residue = x.rem(&self.modulus);
        proof {
            lemma_mod_bound(x@ as int, self.modulus@ as int);
        }
        Reduced { residue, modulus: self.modulus.copy() }
    }
}

impl IntoRing for UBig {
    open spec fn ring_value(&self) -> int {
        self@ as int
    }

    fn into_ring(self, ring: &ConstDivisor) -> (r: Reduced) {
        ring.reduce_natural(&self)
    }
}

impl IntoRing for Word {
    open spec fn ring_value(&self) -> int {
        *self as int
    }

    fn into_ring(self, ring: &ConstDivisor) -> (r: Reduced) {
        ring.reduce_natural(&UBig::from_word(self))
    }
}

impl IntoRing for DoubleWord {
    open spec fn ring_value(&self) -> int {
        *self as int
    }

    fn into_ring(self, ring: &ConstDivisor) -> (r: Reduced) {
        ring.reduce_natural(&UBig::from_dword(self))
    }
}

impl IntoRing for IBig {
    open spec fn ring_value(&self) -> int {
        self@
    }

    fn into_ring(self, ring: &ConstDivisor) -> (r: Reduced) {
        let negative = self.sign() == Sign::Negative;
        let magnitude = ring.reduce_natural(self.magnitude());
        proof {
            use_type_invariant(ring);
            let m = ring.spec_modulus() as int;
            let x = self@;
            let ac = spec_abs(x) as int;
            if negative {
                lemma_fundamental_div_mod(ac, m);
                lemma_mod_multiples_vanish(-(ac / m), -(ac % m), m);
                assert(x == m * (-(ac / m)) + -(ac % m)) by (nonlinear_arith)
                    requires
                        x == -ac,
                        ac == m * (ac / m) + ac % m,
                ;
            }
        }
        if negative {
            magnitude.negate()
        } else {
            magnitude
        }
    }
}

impl Reduced {
    #[verifier::type_invariant]
    closed spec fn well_formed(self) -> bool {
        &&& is_valid_modulus(&self.modulus)
        &&& self.residue@ < self.modulus@
    }

    /// The residue, below the modulus.
    pub closed spec fn spec_residue(&self) -> nat {
        self.residue@
    }

    /// The modulus of the ring the element belongs to.
    pub closed spec fn spec_modulus(&self) -> nat {
        self.modulus@
    }

    /// The residue: the least non-negative integer of the class.
    pub fn residue(&self) -> (r: UBig)
        ensures
            r@ == self.spec_residue(),
            r@ < self.spec_modulus(),
    {
        proof {
            use_type_invariant(self);
        }
        self.residue.copy()
    }

    /// The modulus of the ring the element belongs to.
    pub fn modulus(&self) -> (r: UBig)
        ensures
            r@ == self.spec_modulus(),
            r@ > 0,
    {
        proof {
            use_type_invariant(self);
        }
        self.modulus.copy()
    }

    /// Whether two elements belong to rings of the same modulus.
    pub fn same_ring(&self, other: &Reduced) -> (r: bool)
        ensures
            r == (self.spec_modulus() == other.spec_modulus()),
    {
        proof {
            use_type_invariant(self);
            use_type_invariant(other);
        }
        self.modulus.check_same(&other.modulus)
    }

    /// Sum of two elements of one ring.
    ///
    /// # Panics
    ///
    /// Panics if the two elements belong to different rings.
    pub fn add(&self, rhs: &Reduced) -> (r: Reduced)
        requires
            self.spec_modulus() == rhs.spec_modulus(),
        ensures
            r.spec_modulus() == self.spec_modulus(),
            r.spec_residue() == (self.spec_residue() + rhs.spec_residue()) % self.spec_modulus(),
    {
        proof {
            use_type_invariant(self);
            use_type_invariant(rhs);
        }
        let residue = add_mod(&self.residue, &rhs.residue, &self.modulus);
        proof {
            lemma_mod_bound((self.residue@ + rhs.residue@) as int, self.modulus@ as int);
        }
        Reduced { residue, modulus: self.modulus.copy() }
    }

    /// Difference of two elements of one ring.
    ///
    /// # Panics
    ///
    /// Panics if the two elements belong to different rings.
    pub fn sub(&self, rhs: &Reduced) -> (r: Reduced)
        requires
            self.spec_modulus() == rhs.spec_modulus(),
        ensures
            r.spec_modulus() == self.spec_modulus(),
            r.spec_residue() == (self.spec_residue() - rhs.spec_residue()) % (
            self.spec_modulus() as int),
    {
        proof {
            use_type_invariant(self);
            use_type_invariant(rhs);
        }
        let residue = sub_mod(&self.residue, &rhs.residue, &self.modulus);
        Reduced { residue, modulus: self.modulus.copy() }
    }

    /// The additive inverse: `-x mod m`.
    pub fn negate(&self) -> (r: Reduced)
        ensures
            r.spec_modulus() == self.spec_modulus(),
            r.spec_residue() == (-(self.spec_residue() as int)) % (self.spec_modulus() as int),
    {
        proof {
            use_type_invariant(self);
        }
        let zero = UBig::zero();
        let residue = sub_mod(&zero, &self.residue, &self.modulus);
        Reduced { residue, modulus: self.modulus.copy() }
    }

    /// Product of two elements of one ring.
    ///
    /// # Panics
    ///
    /// Panics if the two elements belong to different rings.
    pub fn mul(&self, rhs: &Reduced) -> (r: Reduced)
        requires
            self.spec_modulus() == rhs.spec_modulus(),
        ensures
            r.spec_modulus() == self.spec_modulus(),
            r.spec_residue() == (self.spec_residue() * rhs.spec_residue()) % self.spec_modulus(),
    {
        proof {
            use_type_invariant(self);
            use_type_invariant(rhs);
        }
        let residue = mul_mod(&self.residue, &rhs.residue, &self.modulus);
        Reduced { residue, modulus: self.modulus.copy() }
    }

    /// Multiplicative inverse: the element whose product with this one is 1, if there is
    /// one, that is when the residue is non-zero and coprime to the modulus.
    pub fn inv(&self) -> (r: Option<Reduced>)
        ensures
            r is None <==> (self.spec_residue() == 0 || spec_gcd(
                self.spec_modulus(),
                self.spec_residue(),
            ) != 1),
            r matches Some(v) ==> (v.spec_modulus() == self.spec_modulus() && (v.spec_residue()
                * self.spec_residue()) % self.spec_modulus() == 1),
    {
        proof {
            use_type_invariant(self);
        }
        let mw = self.modulus.as_words();
        let aw = self.residue.as_words();
        proof {
            lemma_normalized_len(mw@, aw@);
        }
        if self.residue.is_zero() {
            return None;
        }
        let (g, x, coeff) = self.modulus.gcd_ext(&self.residue);
        if !g.is_one() {
            return None;
        }
        let ghost m = self.modulus@ as int;
        let ghost a = self.residue@ as int;
        let ghost c = coeff@;
        let ghost xm = x@;
        let mag = coeff.magnitude().rem(&self.modulus);
        proof {
            lemma_mod_bound(spec_abs(c) as int, m);
        }
        let v = if coeff.sign() == Sign::Negative {
            let zero = UBig::zero();
            sub_mod(&zero, &mag, &self.modulus)
        } else {
            mag
        };
        proof {
            // v == c mod m
            if c < 0 {
                let ac = spec_abs(c) as int;
                lemma_fundamental_div_mod(ac, m);
                lemma_mod_multiples_vanish(-(ac / m), -(ac % m), m);
                assert(c == m * (-(ac / m)) + -(ac % m)) by (nonlinear_arith)
                    requires
                        c == -ac,
                        ac == m * (ac / m) + ac % m,
                ;
            } else {
                assert(spec_abs(c) == c);
            }
            assert(v@ == c % m);
            // m x + a c == 1 with m > 1, so a c == 1 (mod m)
            assert(a > 0 && m > a);
            lemma_mul_mod_noop_general(c, a, m);
            lemma_mul_is_commutative(c, a);
            lemma_mod_multiples_vanish(-xm, 1, m);
            assert(a * c == m * (-xm) + 1) by (nonlinear_arith)
                requires
                    m * xm + a * c == 1,
            ;
            lemma_small_mod(1, m as nat);
        }
        Some(Reduced { residue: v, modulus: self.modulus.copy() })
    }

    /// Exponentiation: the element raised to `exp`.
    ///
    /// A negative exponent is not taken: invert the element first.
    pub fn pow(&self, exp: &UBig) -> (r: Reduced)
        ensures
            r.spec_modulus() == self.spec_modulus(),
            r.spec_residue() == pow(self.spec_residue() as int, exp@) % (self.spec_modulus() as int),
    {
        proof {
            use_type_invariant(self);
        }
        let residue = pow_residue(&self.residue, exp, &self.modulus);
        Reduced { residue, modulus: self.modulus.copy() }
    }
}

/// `base^exp mod modulus`.
///
/// # Panics
///
/// Panics if `modulus` is zero.
pub fn pow_mod(base: &UBig, exp: &UBig, modulus: &UBig) -> (r: UBig)
    requires
        is_valid_modulus(modulus),
    ensures
        r@ == pow(base@ as int, exp@) % (modulus@ as int),
{
    let b = base.rem(modulus);
    proof {
        lemma_mod_bound(base@ as int, modulus@ as int);
        lemma_pow_mod_noop(base@ as int, exp@, modulus@ as int);
    }
    pow_residue(&b, exp, modulus)
}

} // verus!
