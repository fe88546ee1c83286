use rand::{Rng, SeedableRng};
use dashu_int::ibig::IBig;
use dashu_int::sign::Sign;
use dashu_int::ubig::UBig;

fn ibig(x: i128) -> IBig {
    let mag = UBig::from_dword(x.unsigned_abs());
    if x < 0 {
        IBig::from_parts(Sign::Negative, mag)
    } else {
        IBig::from_parts(Sign::Positive, mag)
    }
}

#[test]
fn ibig_not_values() {
    assert_eq!(ibig(0).not(), ibig(-1));
    assert_eq!(ibig(-1).not(), ibig(0));
    assert_eq!(ibig(5).not(), ibig(-6));
    assert_eq!(ibig(-6).not(), ibig(5));
    let big = IBig::from_parts(Sign::Positive, UBig::from_words(&[u64::MAX, u64::MAX, u64::MAX]));
    let expect = IBig::from_parts(Sign::Negative, UBig::from_words(&[0, 0, 0, 1]));
    assert_eq!(big.not(), expect);
    assert_eq!(expect.not(), big);
}

#[test]
fn ibig_bit_ops_small_values() {
    assert_eq!(ibig(12).bitand(&ibig(10)), ibig(8));
    assert_eq!(ibig(-12).bitand(&ibig(10)), ibig(-12 & 10));
    assert_eq!(ibig(12).bitor(&ibig(-10)), ibig(12 | -10));
    assert_eq!(ibig(-12).bitxor(&ibig(-10)), ibig(-12 ^ -10));
    assert_eq!(ibig(-12).and_not(&ibig(-10)), ibig(-12 & !-10));
    assert_eq!(ibig(-1).bitand(&ibig(-1)), ibig(-1));
    assert_eq!(ibig(-1).bitxor(&ibig(-1)), ibig(0));
}

#[test]
fn ibig_bit_ops_match_i128() {
    let mut rng = rand::rngs::StdRng::seed_from_u64(5);
    for _ in 0..2000 {
        let a: i128 = rng.gen::<i128>() >> rng.gen_range(1..127);
        let b: i128 = rng.gen::<i128>() >> rng.gen_range(1..127);
        let (x, y) = (ibig(a), ibig(b));
        assert_eq!(x.bitand(&y), ibig(a & b));
        assert_eq!(x.bitor(&y), ibig(a | b));
        assert_eq!(x.bitxor(&y), ibig(a ^ b));
        assert_eq!(x.and_not(&y), ibig(a & !b));
        assert_eq!(x.not(), ibig(!a));
    }
}

#[test]
fn ibig_bit_ops_large_values() {
    // -(2^128) & (2^130 - 1) keeps the bits from 128 to 129
    let neg = IBig::from_parts(Sign::Negative, UBig::from_words(&[0, 0, 1]));
    let ones = IBig::from_parts(Sign::Positive, UBig::from_words(&[u64::MAX, u64::MAX, 3]));
    let and = neg.bitand(&ones);
    assert_eq!(and, IBig::from_parts(Sign::Positive, UBig::from_words(&[0, 0, 3])));
    // -(2^128) | (2^128 - 1) == -1
    let low = IBig::from_parts(Sign::Positive, UBig::from_words(&[u64::MAX, u64::MAX]));
    assert_eq!(neg.bitor(&low), ibig(-1));
    // x ^ x == 0 and x ^ !x == -1
    assert_eq!(neg.bitxor(&neg), ibig(0));
    assert_eq!(neg.bitxor(&neg.not()), ibig(-1));
}
