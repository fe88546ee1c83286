//! Bitwise operations on signed integers, in two's complement with an infinite sign extension.
use vstd::prelude::*;
use vstd::arithmetic::power2::*;
use vstd::arithmetic::div_mod::*;
use vstd::arithmetic::mul::*;
use crate::add::add_word_in_place;
use crate::bits::{spec_bit, lemma_bits_determine};
use crate::buffer::spec_max_capacity;
use crate::convert::ubig_sub_one;
use crate::gcd_ops::{trim_zeros, lemma_normalized_len_bound};
use crate::ibig::{IBig, spec_abs};
use crate::primitive::{spec_bit_len, lemma_bit_len_bounds};
use crate::sign::Sign;
use crate::ubig::UBig;
use crate::words::{word_pow, words_val, lemma_word_pow, lemma_words_val_push, lemma_words_val_bound};
use vstd::slice::slice_to_vec;

verus! {

/// Bit `n` of the two's complement representation of an integer, sign-extended without end:
/// `floor(x / 2^n)` is odd.
pub open spec fn int_bit(x: int, n: nat) -> bool {
    (x / (pow2(n) as int)) % 2 == 1
}

/// A non-negative integer has its binary bits; a negative one `x` has the inverted bits of
/// `-x - 1`.
pub proof fn lemma_int_bit_of(x: int, n: nat)
    ensures
        x >= 0 ==> int_bit(x, n) == spec_bit(x as nat, n),
        x < 0 ==> int_bit(x, n) == !spec_bit((-x - 1) as nat, n),
{
    let p = pow2(n) as int;
    lemma_pow2_pos(n);
    if x < 0 {
        let m1 = -x - 1;
        let q = m1 / p;
        let r = m1 % p;
        lemma_fundamental_div_mod(m1, p);
        lemma_mod_bound(m1, p);
        assert(x == p * (-q - 1) + (p - r - 1)) by {
            lemma_mul_is_distributive_add(p, -q, -1);
            lemma_mul_unary_negation(p, q);
        }
        lemma_fundamental_div_mod_converse(x, p, -q - 1, p - r - 1);
        lemma_fundamental_div_mod(q, 2);
        lemma_mod_bound(q, 2);
        lemma_fundamental_div_mod_converse(-q - 1, 2, -(q / 2) - 1, 1 - q % 2);
    }
}

/// `floor(x / 2^k)` has the bits of `x` from `k` on.
proof fn lemma_bit_shift_by(x: nat, k: nat, n: nat)
    ensures
        spec_bit(x / pow2(k), n) == spec_bit(x, k + n),
{
    lemma_pow2_pos(k);
    lemma_pow2_pos(n);
    lemma_pow2_adds(k, n);
    lemma_div_denominator(x as int, pow2(k) as int, pow2(n) as int);
}

/// A number is below `2^k` exactly when it has no bit from `k` on.
pub proof fn lemma_bits_below_pow2(z: nat, k: nat)
    ensures
        z < pow2(k) <==> (forall|n: nat| n >= k ==> !#[trigger] spec_bit(z, n)),
{
    lemma_pow2_pos(k);
    if z < pow2(k) {
        assert forall|n: nat| n >= k implies !#[trigger] spec_bit(z, n) by {
            if n > k {
                lemma_pow2_strictly_increases(k, n);
            }
            lemma_pow2_pos(n);
            lemma_basic_div(z as int, pow2(n) as int);
        }
    }
    if forall|n: nat| n >= k ==> !#[trigger] spec_bit(z, n) {
        let y = z / pow2(k);
        assert forall|n: nat| #[trigger] spec_bit(y, n) == spec_bit(0, n) by {
            lemma_bit_shift_by(z, k, n);
            lemma_pow2_pos(n);
            assert(spec_bit(z, k + n) == false);
            assert(0nat / pow2(n) == 0);
        }
        lemma_bits_determine(y, 0);
        lemma_fundamental_div_mod(z as int, pow2(k) as int);
        lemma_mod_bound(z as int, pow2(k) as int);
    }
}

/// A bitwise result whose every bit comes from one of two numbers below `2^k` is below `2^k`.
proof fn lemma_bit_result_bound(z: nat, x: nat, y: nat, k: nat)
    requires
        x < pow2(k),
        y < pow2(k),
        forall|n: nat| #[trigger] spec_bit(z, n) ==> spec_bit(x, n) || spec_bit(y, n),
    ensures
        z < pow2(k),
{
    lemma_bits_below_pow2(x, k);
    lemma_bits_below_pow2(y, k);
    lemma_bits_below_pow2(z, k);
}

/// An integer is determined by its two's complement bits, so the contracts of the bitwise
/// operations fix their results.
pub proof fn lemma_int_bits_determine(x: int, y: int)
    requires
        forall|n: nat| #[trigger] int_bit(x, n) == int_bit(y, n),
    ensures
        x == y,
{
    if x >= 0 && y >= 0 {
        assert forall|n: nat| #[trigger] spec_bit(x as nat, n) == spec_bit(y as nat, n) by {
            lemma_int_bit_of(x, n);
            lemma_int_bit_of(y, n);
            assert(int_bit(x, n) == int_bit(y, n));
        }
        lemma_bits_determine(x as nat, y as nat);
    } else if x < 0 && y < 0 {
        assert forall|n: nat| #[trigger] spec_bit((-x - 1) as nat, n) == spec_bit((-y - 1) as nat, n) by {
            lemma_int_bit_of(x, n);
            lemma_int_bit_of(y, n);
            assert(int_bit(x, n) == int_bit(y, n));
        }
        lemma_bits_determine((-x - 1) as nat, (-y - 1) as nat);
    } else {
        // a non-negative number has no high bits, a negative one has all of them
        let (p, m) = if x >= 0 { (x as nat, (-y - 1) as nat) } else { (y as nat, (-x - 1) as nat) };
        let k = spec_bit_len(p) + spec_bit_len(m);
        lemma_bit_len_bounds(p);
        lemma_bit_len_bounds(m);
        if spec_bit_len(p) < k {
            lemma_pow2_strictly_increases(spec_bit_len(p), k);
        }
        if spec_bit_len(m) < k {
            lemma_pow2_strictly_increases(spec_bit_len(m), k);
        }
        lemma_bits_below_pow2(p, k);
        lemma_bits_below_pow2(m, k);
        assert(!spec_bit(p, k) && !spec_bit(m, k));
        lemma_int_bit_of(x, k);
        lemma_int_bit_of(y, k);
        assert(int_bit(x, k) == int_bit(y, k));
    }
}

/// `x + 1`, when it fits the largest number of words.
pub(crate) fn ubig_add_one(x: &UBig) -> (r: UBig)
    requires
        x@ + 1 < word_pow(spec_max_capacity()),
    ensures
        r@ == x@ + 1,
{
    let mut v = slice_to_vec(x.as_words());
    proof {
        lemma_words_val_push(v@, 0u64);
        lemma_words_val_bound(v@);
        lemma_word_pow(v@.len());
    }
    v.push(0);
    let _overflow = add_word_in_place(v.as_mut_slice(), 1);
    proof {
        lemma_words_val_bound(v@);
    }
    trim_zeros(&mut v);
    proof {
        lemma_normalized_len_bound(v@, spec_max_capacity());
    }
    UBig::from_vec(v)
}

/// The largest magnitude that the bitwise operations take: one word less than a number can have.
pub open spec fn bit_ops_limit() -> nat {
    word_pow((spec_max_capacity() - 1) as nat)
}

/// The non-negative integer `x`.
fn positive(x: UBig) -> (r: IBig)
    ensures
        r@ == x@,
{
    IBig::from_parts(Sign::Positive, x)
}

/// The integer `!x == -x - 1`, whose two's complement bits are those of `x` inverted.
fn complement(x: UBig) -> (r: IBig)
    requires
        x@ < bit_ops_limit(),
    ensures
        r@ == -(x@ as int) - 1,
{
    proof {
        lemma_word_pow((spec_max_capacity() - 1) as nat);
        assert(((spec_max_capacity() - 1) + 1) as nat == spec_max_capacity());
    }
    IBig::from_parts(Sign::Negative, ubig_add_one(&x))
}

impl IBig {
    /// Bitwise not: `!x == -x - 1`, every bit of the two's complement inverted.
    pub fn not(&self) -> (r: IBig)
        requires
            spec_abs(self@) < bit_ops_limit(),
        ensures
            r@ == -self@ - 1,
            forall|n: nat| #![trigger int_bit(r@, n)] int_bit(r@, n) == !int_bit(self@, n),
    {
        let r = match self.sign() {
            Sign::Positive => complement(self.magnitude().copy()),
            Sign::Negative => positive(ubig_sub_one(self.magnitude())),
        };
        proof {
            assert forall|n: nat| #![trigger int_bit(r@, n)] int_bit(r@, n) == !int_bit(self@, n) by {
                lemma_int_bit_of(self@, n);
                lemma_int_bit_of(r@, n);
            }
        }
        r
    }

    /// Bitwise and, in two's complement.
    pub fn bitand(&self, rhs: &IBig) -> (r: IBig)
        requires
            spec_abs(self@) < bit_ops_limit(),
            spec_abs(rhs@) < bit_ops_limit(),
        ensures
            forall|n: nat|
                #![trigger int_bit(r@, n)]
                int_bit(r@, n) == (int_bit(self@, n) && int_bit(rhs@, n)),
    {
        let a = self.magnitude();
        let b = rhs.magnitude();
        let r = match (self.sign(), rhs.sign()) {
            (Sign::Positive, Sign::Positive) => positive(a.bitand(b)),
            (Sign::Positive, Sign::Negative) => positive(a.and_not(&ubig_sub_one(b))),
            (Sign::Negative, Sign::Positive) => positive(b.and_not(&ubig_sub_one(a))),
            (Sign::Negative, Sign::Negative) => {
                let a1 = ubig_sub_one(a);
                let b1 = ubig_sub_one(b);
                let c = a1.bitor(&b1);
                proof {
                    lemma_bit_result_bound(c@, a1@, b1@, 64 * (spec_max_capacity() - 1) as nat);
                }
                complement(c)
            },
        };
        proof {
            assert forall|n: nat|
                #![trigger int_bit(r@, n)]
                int_bit(r@, n) == (int_bit(self@, n) && int_bit(rhs@, n)) by {
                lemma_int_bit_of(self@, n);
                lemma_int_bit_of(rhs@, n);
                lemma_int_bit_of(r@, n);
            }
        }
        r
    }
    /// Bitwise or, in two's complement.
    pub fn bitor(&self, rhs: &IBig) -> (r: IBig)
        requires
            spec_abs(self@) < bit_ops_limit(),
            spec_abs(rhs@) < bit_ops_limit(),
        ensures
            forall|n: nat|
                #![trigger int_bit(r@, n)]
                int_bit(r@, n) == (int_bit(self@, n) || int_bit(rhs@, n)),
    {
        let a = self.magnitude();
        let b = rhs.magnitude();
        let ghost k = (64 * (spec_max_capacity() - 1)) as nat;
        let r = match (self.sign(), rhs.sign()) {
            (Sign::Positive, Sign::Positive) => positive(a.bitor(b)),
            (Sign::Positive, Sign::Negative) => {
                let b1 = ubig_sub_one(b);
                let c = b1.and_not(a);
                proof {
                    lemma_bit_result_bound(c@, b1@, a@, k);
                }
                complement(c)
            },
            (Sign::Negative, Sign::Positive) => {
                let a1 = ubig_sub_one(a);
                let c = a1.and_not(b);
                proof {
                    lemma_bit_result_bound(c@, a1@, b@, k);
                }
                complement(c)
            },
            (Sign::Negative, Sign::Negative) => {
                let a1 = ubig_sub_one(a);
                let b1 = ubig_sub_one(b);
                let c = a1.bitand(&b1);
                proof {
                    lemma_bit_result_bound(c@, a1@, b1@, k);
                }
                complement(c)
            },
        };
        proof {
            assert forall|n: nat|
                #![trigger int_bit(r@, n)]
                int_bit(r@, n) == (int_bit(self@, n) || int_bit(rhs@, n)) by {
                lemma_int_bit_of(self@, n);
                lemma_int_bit_of(rhs@, n);
                lemma_int_bit_of(r@, n);
            }
        }
        r
    }

    /// Bitwise exclusive or, in two's complement.
    pub fn bitxor(&self, rhs: &IBig) -> (r: IBig)
        requires
            spec_abs(self@) < bit_ops_limit(),
            spec_abs(rhs@) < bit_ops_limit(),
        ensures
            forall|n: nat|
                #![trigger int_bit(r@, n)]
                int_bit(r@, n) == (int_bit(self@, n) != int_bit(rhs@, n)),
    {
        let a = self.magnitude();
        let b = rhs.magnitude();
        let ghost k = (64 * (spec_max_capacity() - 1)) as nat;
        let r = match (self.sign(), rhs.sign()) {
            (Sign::Positive, Sign::Positive) => positive(a.bitxor(b)),
            (Sign::Positive, Sign::Negative) => {
                let b1 = ubig_sub_one(b);
                let c = a.bitxor(&b1);
                proof {
                    lemma_bit_result_bound(c@, a@, b1@, k);
                }
                complement(c)
            },
            (Sign::Negative, Sign::Positive) => {
                let a1 = ubig_sub_one(a);
                let c = a1.bitxor(b);
                proof {
                    lemma_bit_result_bound(c@, a1@, b@, k);
                }
                complement(c)
            },
            (Sign::Negative, Sign::Negative) => {
                let a1 = ubig_sub_one(a);
                let b1 = ubig_sub_one(b);
                positive(a1.bitxor(&b1))
            },
        };
        proof {
            assert forall|n: nat|
                #![trigger int_bit(r@, n)]
                int_bit(r@, n) == (int_bit(self@, n) != int_bit(rhs@, n)) by {
                lemma_int_bit_of(self@, n);
                lemma_int_bit_of(rhs@, n);
                lemma_int_bit_of(r@, n);
            }
        }
        r
    }

    /// `self & !rhs`, in two's complement.
    pub fn and_not(&self, rhs: &IBig) -> (r: IBig)
        requires
            spec_abs(self@) < bit_ops_limit(),
            spec_abs(rhs@) < bit_ops_limit(),
        ensures
            forall|n: nat|
                #![trigger int_bit(r@, n)]
                int_bit(r@, n) == (int_bit(self@, n) && !int_bit(rhs@, n)),
    {
        let a = self.magnitude();
        let b = rhs.magnitude();
        let ghost k = (64 * (spec_max_capacity() - 1)) as nat;
        let r = match (self.sign(), rhs.sign()) {
            (Sign::Positive, Sign::Positive) => positive(a.and_not(b)),
            (Sign::Positive, Sign::Negative) => positive(a.bitand(&ubig_sub_one(b))),
            (Sign::Negative, Sign::Positive) => {
                let a1 = ubig_sub_one(a);
                let c = a1.bitor(b);
                proof {
                    lemma_bit_result_bound(c@, a1@, b@, k);
                }
                complement(c)
            },
            (Sign::Negative, Sign::Negative) => {
                let a1 = ubig_sub_one(a);
                let b1 = ubig_sub_one(b);
                positive(b1.and_not(&a1))
            },
        };
        proof {
            assert forall|n: nat|
                #![trigger int_bit(r@, n)]
                int_bit(r@, n) == (int_bit(self@, n) && !int_bit(rhs@, n)) by {
                lemma_int_bit_of(self@, n);
                lemma_int_bit_of(rhs@, n);
                lemma_int_bit_of(r@, n);
            }
        }
        r
    }
}

} // verus!
