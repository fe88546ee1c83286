use rand::{Rng, SeedableRng};
use dashu_int::ibig::IBig;
use dashu_int::sign::Sign;
use dashu_int::ubig::UBig;

fn ibig(x: i128) -> IBig {
    let mag = UBig::from_dword(x.unsigned_abs());
    if x < 0 {
        IBig::from_parts(Sign::Negative, mag)
    } else {
        IBig::from_parts(Sign::Positive, mag)
    }
}

#[test]
fn ubig_bytes_doc_examples() {
    assert_eq!(UBig::from_le_bytes(&[3, 2, 1]), UBig::from_word(0x010203));
    assert_eq!(UBig::from_be_bytes(&[1, 2, 3]), UBig::from_word(0x010203));
    assert!(UBig::zero().to_le_bytes().is_empty());
    assert_eq!(*UBig::from_word(0x010203).to_le_bytes(), [3, 2, 1]);
    assert!(UBig::zero().to_be_bytes().is_empty());
    assert_eq!(*UBig::from_word(0x010203).to_be_bytes(), [1, 2, 3]);
}

#[test]
fn ubig_bytes_leading_zeros_and_words() {
    // leading zero bytes do not count
    assert_eq!(UBig::from_le_bytes(&[3, 2, 1, 0, 0]), UBig::from_word(0x010203));
    assert_eq!(UBig::from_be_bytes(&[0, 0, 1, 2, 3]), UBig::from_word(0x010203));
    assert_eq!(UBig::from_le_bytes(&[]), UBig::zero());
    // more than one word
    let bytes: Vec<u8> = (1..=17).collect();
    let x = UBig::from_le_bytes(&bytes);
    assert_eq!(
        x.as_words().to_vec(),
        vec![0x0807060504030201, 0x100f0e0d0c0b0a09, 0x11]
    );
    assert_eq!(x.to_le_bytes(), bytes);
    let mut be = bytes.clone();
    be.reverse();
    assert_eq!(x.to_be_bytes(), be);
    assert_eq!(UBig::from_be_bytes(&be), x);
    // a full top word
    let y = UBig::from_words(&[0, u64::MAX]);
    let mut expect = vec![0u8; 8];
    expect.extend_from_slice(&[0xff; 8]);
    assert_eq!(y.to_le_bytes(), expect);
}

#[test]
fn ubig_bytes_roundtrip_random() {
    let mut rng = rand::rngs::StdRng::seed_from_u64(7);
    for _ in 0..200 {
        let len = rng.gen_range(0..40);
        let mut bytes: Vec<u8> = (0..len).map(|_| rng.gen()).collect();
        while bytes.last() == Some(&0) {
            bytes.pop();
        }
        let x = UBig::from_le_bytes(&bytes);
        assert_eq!(x.to_le_bytes(), bytes);
        let y = UBig::from_be_bytes(&x.to_be_bytes());
        assert_eq!(y, x);
    }
}

#[test]
fn ibig_bytes_doc_examples() {
    let x = ibig(0xfff30201u32 as i32 as i128);
    assert_eq!(IBig::from_le_bytes(&[1, 2, 0xf3]), x);
    assert_eq!(IBig::from_be_bytes(&[0xf3, 2, 1]), x);
    assert!(IBig::zero().to_le_bytes().is_empty());
    assert_eq!(*x.to_le_bytes(), [1, 2, 0xf3]);
    assert!(IBig::zero().to_be_bytes().is_empty());
    assert_eq!(*x.to_be_bytes(), [0xf3, 2, 1]);
}

#[test]
fn ibig_bytes_sign_byte() {
    // a set top bit needs a sign byte
    assert_eq!(ibig(0x80).to_le_bytes(), vec![0x80, 0]);
    assert_eq!(ibig(0x7f).to_le_bytes(), vec![0x7f]);
    assert_eq!(ibig(-1).to_le_bytes(), vec![0xff]);
    assert_eq!(ibig(-0x80).to_le_bytes(), vec![0x80, 0xff]);
    assert_eq!(ibig(-0x81).to_le_bytes(), vec![0x7f, 0xff]);
    assert_eq!(ibig(-0x100).to_le_bytes(), vec![0, 0xff]);
    assert_eq!(ibig(-0x100).to_be_bytes(), vec![0xff, 0]);
    assert_eq!(IBig::from_le_bytes(&[0x80]), ibig(-0x80));
    assert_eq!(IBig::from_le_bytes(&[0x80, 0]), ibig(0x80));
    assert_eq!(IBig::from_le_bytes(&[0xff, 0xff, 0xff]), ibig(-1));
    assert_eq!(IBig::from_le_bytes(&[]), IBig::zero());
    // more than two words
    let mut bytes = vec![0u8; 20];
    bytes[19] = 0x80;
    let x = IBig::from_le_bytes(&bytes);
    assert_eq!(x.sign(), Sign::Negative);
    assert_eq!(x.magnitude().as_words().to_vec(), vec![0, 0, 0x8000_0000]);
}

#[test]
fn ibig_bytes_roundtrip_random() {
    let mut rng = rand::rngs::StdRng::seed_from_u64(11);
    for _ in 0..300 {
        let v: i128 = rng.gen::<i128>() >> rng.gen_range(0..127);
        let x = ibig(v);
        let le = x.to_le_bytes();
        assert_eq!(IBig::from_le_bytes(&le), x);
        assert_eq!(IBig::from_be_bytes(&x.to_be_bytes()), x);
        // the bytes are the low bytes of the two's complement
        let full = v.to_le_bytes();
        assert_eq!(le[..], full[..le.len().min(16)]);
    }
}

#[test]
fn chunks_doc_examples() {
    assert!(UBig::zero().to_chunks(1).is_empty());
    let chunks = UBig::from_word(0x010203).to_chunks(8);
    assert_eq!(
        chunks,
        vec![UBig::from_word(3), UBig::from_word(2), UBig::from_word(1)]
    );
    assert_eq!(
        UBig::from_chunks(&[UBig::from_word(3), UBig::from_word(2), UBig::from_word(1)], 8),
        UBig::from_word(0x010203)
    );
}

#[test]
fn chunks_wide_and_overlapping() {
    let x = UBig::from_words(&[0x0123_4567_89ab_cdef, 0xfedc_ba98_7654_3210, 0x5]);
    // chunks wider than a word
    let c = x.to_chunks(100);
    assert_eq!(c.len(), 2);
    assert_eq!(c[0].as_words().to_vec(), vec![0x0123_4567_89ab_cdef, 0x0000_0008_7654_3210]);
    assert_eq!(c[1].as_words().to_vec(), vec![0x5fed_cba9]);
    assert_eq!(UBig::from_chunks(&c, 100), x);
    // one bit chunks
    let bits = UBig::from_word(0b1011).to_chunks(1);
    assert_eq!(
        bits,
        vec![UBig::from_word(1), UBig::from_word(1), UBig::zero(), UBig::from_word(1)]
    );
    // chunks with more bits than the chunk size overlap and carry
    let sum = UBig::from_chunks(&[UBig::from_word(0xff), UBig::from_word(0xff)], 4);
    assert_eq!(sum, UBig::from_word(0xff + 0xff0));
    assert_eq!(UBig::from_chunks(&[], 5), UBig::zero());
}

#[test]
fn chunks_roundtrip_random() {
    let mut rng = rand::rngs::StdRng::seed_from_u64(3);
    for _ in 0..100 {
        let n = rng.gen_range(0..6);
        let words: Vec<u64> = (0..n).map(|_| rng.gen()).collect();
        let x = UBig::from_words(&words);
        let bits = rng.gen_range(1..200);
        let chunks = x.to_chunks(bits);
        for c in &chunks {
            assert!(c.bit_len() <= bits);
        }
        assert_eq!(UBig::from_chunks(&chunks, bits), x);
    }
}
