use dashu_int::arch::word::DoubleWord;
use dashu_int::ibig::IBig;
use dashu_int::sign::Sign;
use dashu_int::ubig::UBig;

fn ubig(words: &[u64]) -> UBig {
    UBig::from_words(words)
}

#[test]
fn is_multiple_of_doc_examples() {
    assert!(UBig::from_word(24).is_multiple_of(&UBig::from_word(6)));
    let a = IBig::from_parts(Sign::Positive, UBig::from_word(24));
    let b = IBig::from_parts(Sign::Negative, UBig::from_word(6));
    assert!(a.is_multiple_of(&b));
    assert!(!a.is_multiple_of(&IBig::from_parts(Sign::Negative, UBig::from_word(7))));
}

#[test]
fn is_multiple_of_large() {
    // 2^200 * 3 is a multiple of 2^130 * 3, but not of 2^130 * 9
    let n = ubig(&[0, 0, 0, 3 << 8]);
    assert!(n.is_multiple_of(&ubig(&[0, 0, 3 << 2])));
    assert!(!n.is_multiple_of(&ubig(&[0, 0, 9 << 2])));
    assert!(n.is_multiple_of(&UBig::from_word(6)));
    assert!(!n.is_multiple_of(&UBig::from_word(9)));
    assert!(n.is_multiple_of(&UBig::from_dword(3u128 << 100)));
    assert!(!n.is_multiple_of(&UBig::from_dword((1u128 << 64) + 3)));
    // small numbers and a large divisor
    assert!(!UBig::from_word(5).is_multiple_of(&n));
    assert!(UBig::zero().is_multiple_of(&n));
}

#[test]
fn test_is_multiple_of_const_matches_rem() {
    let hundred_million = UBig::from_word(100_000_000);
    for (n, d) in [
        (UBig::from_word(24), 6u8),
        (UBig::from_word(24), 7u8),
        (hundred_million.copy(), 10u8),
        (hundred_million.copy(), 3u8),
    ] {
        let want = n.as_words().first().map_or(true, |w| w % d as u64 == 0);
        assert_eq!(n.is_multiple_of_const(d as DoubleWord), want);
    }
    let big = ubig(&[0, 0, 0, 3 << 8]);
    assert!(big.is_multiple_of_const(3 << 70));
    assert!(!big.is_multiple_of_const(5));
    let neg = IBig::from_parts(Sign::Negative, UBig::from_word(35));
    assert!(neg.is_multiple_of_const(7));
    assert!(!neg.is_multiple_of_const(3));
}
