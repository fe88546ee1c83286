use dashu_int::fmt::{debug_parts, padding, sign_text, write_usize_decimals, Align, Padding, SignText};
use dashu_int::ibig::IBig;
use dashu_int::sign::Sign;
use dashu_int::ubig::UBig;

fn text(bytes: Vec<u8>) -> String {
    String::from_utf8(bytes).unwrap()
}

#[test]
fn in_radix_doc_examples() {
    assert_eq!(text(UBig::from_word(83).in_radix(3).to_ascii(false)), "10002");
    assert_eq!(text(UBig::from_word(35).in_radix(36).to_ascii(false)), "z");
    let minus = IBig::from_parts(Sign::Negative, UBig::from_word(83));
    assert_eq!(text(minus.in_radix(3).to_ascii(false)), "-10002");
    let minus = IBig::from_parts(Sign::Negative, UBig::from_word(3000));
    assert_eq!(text(minus.in_radix(16).to_ascii(true)), "-BB8");
    assert_eq!(text(UBig::from_word(3000).in_radix(16).to_ascii(false)), "bb8");
}

#[test]
fn in_radix_zero_and_large() {
    assert_eq!(text(UBig::zero().in_radix(10).to_ascii(false)), "0");
    assert_eq!(UBig::zero().in_radix(7).digits(), vec![0]);
    // 2^128 in decimal
    let n = UBig::from_words(&[0, 0, 1]);
    assert_eq!(
        text(n.in_radix(10).to_ascii(false)),
        "340282366920938463463374607431768211456"
    );
    assert_eq!(text(n.in_radix(16).to_ascii(false)), format!("1{}", "0".repeat(32)));
    assert_eq!(text(n.in_radix(2).to_ascii(false)).len(), 129);
    let m = UBig::from_dword(u128::MAX);
    assert_eq!(text(m.in_radix(36).to_ascii(false)), "f5lxx1zz5pnorynqglhzmsp33");
}

#[test]
fn usize_decimals() {
    assert_eq!(text(write_usize_decimals(0)), "0");
    assert_eq!(text(write_usize_decimals(1234567)), "1234567");
    assert_eq!(text(write_usize_decimals(usize::MAX)), usize::MAX.to_string());
}

#[test]
fn layout_of_padding() {
    assert_eq!(sign_text(Sign::Negative, true), SignText::Minus);
    assert_eq!(sign_text(Sign::Positive, true), SignText::Plus);
    assert_eq!(sign_text(Sign::Positive, false), SignText::Empty);
    let none = Padding { left_fill: 0, zeros: 0, right_fill: 0 };
    assert_eq!(padding(5, None, false, Align::Left), none);
    assert_eq!(padding(5, Some(3), true, Align::Left), none);
    assert_eq!(padding(2, Some(10), true, Align::Left), Padding { left_fill: 0, zeros: 8, right_fill: 0 });
    assert_eq!(padding(2, Some(10), false, Align::Left), Padding { left_fill: 0, zeros: 0, right_fill: 8 });
    assert_eq!(padding(2, Some(10), false, Align::Right), Padding { left_fill: 8, zeros: 0, right_fill: 0 });
    assert_eq!(padding(2, Some(10), false, Align::Unspecified), Padding { left_fill: 8, zeros: 0, right_fill: 0 });
    assert_eq!(padding(3, Some(10), false, Align::Center), Padding { left_fill: 3, zeros: 0, right_fill: 4 });
}

fn ascii(digits: &[u8]) -> String {
    digits.iter().map(|d| char::from(b'0' + d)).collect()
}

#[test]
fn debug_parts_of_a_power_of_two() {
    // 2^1000
    let mut words = vec![0u64; 16];
    words[15] = 1 << 40;
    let n = UBig::from_words(&words);
    let (high, low, digits) = debug_parts(&n);
    assert_eq!(ascii(&high), "1071508607186267320");
    assert_eq!(ascii(&low.unwrap()), "4386837205668069376");
    assert_eq!(digits, 302);
}

#[test]
fn debug_parts_small_numbers_come_whole() {
    let (high, low, digits) = debug_parts(&UBig::zero());
    assert_eq!(high, vec![0]);
    assert!(low.is_none());
    assert_eq!(digits, 0);
    let (high, low, digits) = debug_parts(&UBig::from_word(1234));
    assert_eq!(ascii(&high), "1234");
    assert!(low.is_none());
    assert_eq!(digits, 4);
    let (high, low, digits) = debug_parts(&UBig::from_dword(u128::MAX));
    assert_eq!(ascii(&high), u128::MAX.to_string());
    assert!(low.is_none());
    assert_eq!(digits, 39);
}

#[test]
fn debug_parts_pads_the_trailing_digits() {
    // 2^128 * 10^19 has zeros in its last 19 digits
    let ten19 = 10_000_000_000_000_000_000u64;
    let words = [0u64, 0, ten19];
    let n = UBig::from_words(&words);
    let (high, low, digits) = debug_parts(&n);
    assert_eq!(ascii(&low.unwrap()), "0000000000000000000");
    assert_eq!(ascii(&high), "3402823669209384634");
    assert_eq!(digits, 58);
}
