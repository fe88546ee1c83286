use vstd::prelude::*;
use crate::arch::word::Word;
use crate::primitive::word_base;

verus! {

/// Add a + b + carry.
///
/// Returns (result, overflow). The carry must be 0 or 1.
pub fn add_with_carry(a: Word, b: Word, carry: Word) -> (res: (Word, Word))
    requires
        carry <= 1,
    ensures
        res.1 <= 1,
        res.0 + res.1 * word_base() == a + b + carry,
{
    let sum_nc = a.wrapping_add(b);
    let sum = sum_nc.wrapping_add(carry);
    let c1: Word = if sum_nc < a { 1 } else { 0 };
    let c2: Word = if sum < sum_nc { 1 } else { 0 };
    let carry_out = c1 | c2;
    proof {
        assert(sum_nc as int == (if a + b > u64::MAX { a + b - 0x1_0000_0000_0000_0000 } else { a + b }));
        assert(sum as int == (if sum_nc + carry > u64::MAX { sum_nc + carry - 0x1_0000_0000_0000_0000 } else { sum_nc + carry }));
        assert(c1 | c2 == (if c1 == 1 || c2 == 1 { 1u64 } else { 0u64 })) by (bit_vector)
            requires c1 <= 1, c2 <= 1;
        assert(carry_out * word_base() == if carry_out == 1 { word_base() } else { 0 });
        assert(sum + carry_out * word_base() == a + b + carry);
    }
    (sum, carry_out)
}

/// Subtract a - b - borrow.
///
/// Returns (result, overflow). The borrow must be 0 or 1.
pub fn sub_with_borrow(a: Word, b: Word, borrow: Word) -> (res: (Word, Word))
    requires
        borrow <= 1,
    ensures
        res.1 <= 1,
        res.0 - res.1 * word_base() == a - b - borrow,
{
    let diff_nb = a.wrapping_sub(b);
    let diff = diff_nb.wrapping_sub(borrow);
    let b1: Word = if diff_nb > a { 1 } else { 0 };
    let b2: Word = if diff > diff_nb { 1 } else { 0 };
    let borrow_out = b1 | b2;
    proof {
        assert(diff_nb as int == (if a - b < 0 { a - b + 0x1_0000_0000_0000_0000 } else { a - b }));
        assert(diff as int == (if diff_nb - borrow < 0 { diff_nb - borrow + 0x1_0000_0000_0000_0000 } else { diff_nb - borrow }));
        assert(b1 | b2 == (if b1 == 1 || b2 == 1 { 1u64 } else { 0u64 })) by (bit_vector)
            requires b1 <= 1, b2 <= 1;
        assert(borrow_out * word_base() == if borrow_out == 1 { word_base() } else { 0 });
        assert(diff - borrow_out * word_base() == a - b - borrow);
    }
    (diff, borrow_out)
}

} // verus!
