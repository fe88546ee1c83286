use rand::{Rng, SeedableRng};
use dashu_int::bits::trailing_zeros_large;
use dashu_int::ibig::IBig;
use dashu_int::sign::Sign;
use dashu_int::ubig::UBig;

fn ubig(words: &[u64]) -> UBig {
    UBig::from_words(words)
}

fn from_u128(x: u128) -> UBig {
    UBig::from_dword(x)
}

#[test]
fn bit_doc_examples() {
    let x = UBig::from_word(0b10010);
    assert_eq!(x.bit(1), true);
    assert_eq!(x.bit(3), false);
    assert_eq!(x.bit(100), false);
    assert_eq!(ubig(&[0, 0, 1 << 5]).bit(133), true);
}

#[test]
fn set_and_clear_bit_doc_examples() {
    let mut a = UBig::from_word(0b100);
    a.set_bit(0);
    assert_eq!(a, UBig::from_word(0b101));
    a.set_bit(10);
    assert_eq!(a, UBig::from_word(0b10000000101));
    // setting a set bit changes nothing
    a.set_bit(10);
    assert_eq!(a, UBig::from_word(0b10000000101));
    let mut b = UBig::from_word(0b101);
    b.clear_bit(0);
    assert_eq!(b, UBig::from_word(0b100));
    // clearing a clear bit changes nothing
    b.clear_bit(1000);
    assert_eq!(b, UBig::from_word(0b100));
    // a bit above the words grows the number; clearing it shrinks it again
    let mut c = UBig::from_word(1);
    c.set_bit(200);
    assert_eq!(c, ubig(&[1, 0, 0, 1 << 8]));
    c.clear_bit(200);
    assert_eq!(c, UBig::from_word(1));
}

#[test]
fn trailing_zeros_and_bit_len_doc_examples() {
    assert_eq!(UBig::from_word(17).trailing_zeros(), Some(0));
    assert_eq!(UBig::from_word(48).trailing_zeros(), Some(4));
    assert_eq!(UBig::from_word(0b101000000).trailing_zeros(), Some(6));
    assert_eq!(UBig::zero().trailing_zeros(), None);
    assert_eq!(trailing_zeros_large(&[0, 0, 8]), 131);
    assert_eq!(UBig::from_word(17).bit_len(), 5);
    assert_eq!(UBig::from_word(0b101000000).bit_len(), 9);
    assert_eq!(UBig::zero().bit_len(), 0);
    assert_eq!(ubig(&[0, 0, 1]).bit_len(), 129);
    let neg = |x: u64| IBig::from_parts(Sign::Negative, UBig::from_word(x));
    assert_eq!(IBig::from_parts(Sign::Positive, UBig::from_word(17)).trailing_zeros(), Some(0));
    assert_eq!(neg(48).trailing_zeros(), Some(4));
    assert_eq!(neg(0b101000000).trailing_zeros(), Some(6));
    assert_eq!(IBig::zero().trailing_zeros(), None);
}

#[test]
fn high_and_low_bits() {
    let x = ubig(&[0xf0, 0, 0b1011]);
    // bit length 132: the highest 4 bits are 0b1011
    assert_eq!(x.high_bits(4), UBig::from_word(0b1011));
    assert_eq!(x.high_bits(0), UBig::zero());
    assert_eq!(x.high_bits(132), x);
    assert_eq!(x.are_low_bits_nonzero(4), false);
    assert_eq!(x.are_low_bits_nonzero(5), true);
    assert_eq!(x.are_low_bits_nonzero(1000), true);
    assert_eq!(UBig::zero().are_low_bits_nonzero(10), false);
}

#[test]
fn power_of_two() {
    assert!(UBig::from_word(1).is_power_of_two());
    assert!(UBig::from_word(64).is_power_of_two());
    assert!(!UBig::from_word(65).is_power_of_two());
    assert!(!UBig::zero().is_power_of_two());
    assert!(ubig(&[0, 0, 1]).is_power_of_two());
    assert!(!ubig(&[1, 0, 1]).is_power_of_two());
    assert_eq!(UBig::zero().next_power_of_two(), UBig::from_word(1));
    assert_eq!(UBig::from_word(5).next_power_of_two(), UBig::from_word(8));
    assert_eq!(UBig::from_word(8).next_power_of_two(), UBig::from_word(8));
    assert_eq!(ubig(&[1, 1]).next_power_of_two(), ubig(&[0, 2]));
    assert_eq!(from_u128(u128::MAX).next_power_of_two(), ubig(&[0, 0, 1]));
    assert_eq!(ubig(&[0, 0, 1 << 63]).next_power_of_two(), ubig(&[0, 0, 1 << 63]));
    // a power of two is its own next power of two
    let p = ubig(&[0, 0, 0, 1 << 20]);
    assert_eq!(p.copy().next_power_of_two(), p);
}

#[test]
fn bit_ops_match_u128() {
    let mut rng = rand::rngs::StdRng::seed_from_u64(9);
    for _ in 0..1000 {
        let a: u128 = rng.gen::<u128>() >> rng.gen_range(0..128);
        let b: u128 = rng.gen::<u128>() >> rng.gen_range(0..128);
        let (x, y) = (from_u128(a), from_u128(b));
        assert_eq!(x.bitand(&y), from_u128(a & b));
        assert_eq!(x.bitor(&y), from_u128(a | b));
        assert_eq!(x.bitxor(&y), from_u128(a ^ b));
        assert_eq!(x.and_not(&y), from_u128(a & !b));
    }
}

#[test]
fn bit_op_laws_on_values() {
    let a = ubig(&[0xdead_beef, 0x1234, 0xff]);
    let b = ubig(&[0xffff_0000, 0x5678]);
    // and commutes, xor with the same value twice gives back the number
    assert_eq!(a.bitand(&b), b.bitand(&a));
    assert_eq!(a.bitxor(&b).bitxor(&b), a);
    assert_eq!(a.bitand(&a), a);
    assert_eq!(a.bitxor(&a), UBig::zero());
    // the bits of a number determine it: setting then clearing a clear bit is the identity
    let mut c = a.copy();
    c.set_bit(70);
    c.clear_bit(70);
    assert_eq!(c, a);
}
