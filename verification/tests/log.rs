use dashu_int::ibig::IBig;
use dashu_int::log::log;
use dashu_int::sign::Sign;
use dashu_int::ubig::UBig;

fn ubig(words: &[u64]) -> UBig {
    UBig::from_words(words)
}

#[test]
fn ilog_doc_examples() {
    let base = UBig::from_word(3);
    assert_eq!(UBig::from_word(81).ilog(&base), 4);
    assert_eq!(UBig::from_word(1000).ilog(&base), 6);
    assert_eq!(IBig::from_parts(Sign::Negative, UBig::from_word(81)).ilog(&base), 4);
    assert_eq!(IBig::from_parts(Sign::Negative, UBig::from_word(1000)).ilog(&base), 6);
}

#[test]
fn ilog_powers_of_two() {
    let n = ubig(&[0, 0, 0, 1 << 8]); // 2^200
    assert_eq!(n.ilog(&UBig::from_word(2)), 200);
    assert_eq!(n.ilog(&UBig::from_word(16)), 50);
    assert_eq!(n.ilog(&UBig::from_dword(1 << 100)), 2);
    let (e, p) = log(&UBig::from_word(1000), &UBig::from_word(2));
    assert_eq!((e, p.as_words().to_vec()), (9, vec![512]));
    let (e, p) = log(&UBig::from_word(1000), &UBig::from_word(8));
    assert_eq!((e, p.as_words().to_vec()), (3, vec![512]));
}

#[test]
fn ilog_small_and_large() {
    // t = 10^45 + 12345
    let t = ubig(&[0xb22a00000003039, 0xe086b93ce2f768a0, 0x2cd76f]);
    assert_eq!(t.ilog(&UBig::from_word(10)), 45);
    assert_eq!(t.ilog(&UBig::from_word(3)), 94);
    assert_eq!(t.ilog(&UBig::from_dword((1 << 64) + 1)), 2);
    assert_eq!(t.ilog(&UBig::from_dword(100_000_000_000_000_000_000)), 2);
    assert_eq!(t.ilog(&t), 1);
    assert_eq!(UBig::from_word(5).ilog(&t), 0);
    assert_eq!(t.ilog(&ubig(&[0, 0, 0, 1])), 0);
    // x = 3^100 * 7^60 * 2^70 in base 7^60 and base 3
    let x = ubig(&[
        0x0,
        0x47e2f02a5a419c40,
        0xec4cdcc50eb73d,
        0xfc1232084c9429e0,
        0xbb8243a814272344,
        0xeed3c406d145f0b8,
        0x1ea4,
    ]);
    let b = ubig(&[0x9d992bd4e6cf90a1, 0x22a2845e59b91558, 0x15b9a481b04]);
    assert_eq!(x.ilog(&b), 2);
    assert_eq!(x.ilog(&UBig::from_word(3)), 250);
    let (e, p) = log(&x, &b);
    assert_eq!(e, 2);
    assert!(p.as_words().len() == 6);
}

#[test]
fn log_dword_exact_powers() {
    let (e, p) = log(&UBig::from_dword(3u128.pow(80)), &UBig::from_word(3));
    assert_eq!(e, 80);
    assert_eq!(p.as_dword(), Some(3u128.pow(80)));
    let (e, p) = log(&UBig::from_dword(3u128.pow(80) - 1), &UBig::from_word(3));
    assert_eq!(e, 79);
    assert_eq!(p.as_dword(), Some(3u128.pow(79)));
    let (e, _) = log(&UBig::from_dword(u128::MAX), &UBig::from_word(10));
    assert_eq!(e, 38);
}
