use dashu_int::arch::word::{DoubleWord, Word};
use dashu_int::div::{div_by_dword_in_place, div_by_word_in_place, rem_by_dword, rem_by_word};
use dashu_int::fast_divide::{FastDivideNormalized, FastDivideSmall};
use dashu_int::math::mul_add_carry;
use dashu_int::primitive::double_word;
use dashu_int::shift::{shl_in_place, shr_in_place, shr_in_place_one_word};
use rand::rngs::StdRng;
use rand::{Rng, SeedableRng};

fn value(words: &[Word]) -> Vec<u128> {
    words.iter().map(|&w| w as u128).collect()
}

#[test]
fn test_fast_divide_small() {
    let mut rng = StdRng::seed_from_u64(1);
    for _ in 0..400000 {
        let d_bits = rng.gen_range(2..=Word::BITS);
        let max_d = Word::MAX >> (Word::BITS - d_bits);
        let d = rng.gen_range(max_d / 2 + 1..=max_d);
        let fast_div = FastDivideSmall::new(d);
        let n = rng.gen();
        let (q, r) = fast_div.div_rem(n);
        assert_eq!(q, n / d);
        assert_eq!(r, n % d);
    }
}

#[test]
fn test_fast_divide_normalized() {
    let fast_div = FastDivideNormalized::new(Word::MAX);
    assert_eq!(fast_div.div_rem(0), (0, 0));

    let mut rng = StdRng::seed_from_u64(1);
    for _ in 0..200000 {
        let d = rng.gen_range(Word::MAX / 2 + 1..=Word::MAX);
        let q = rng.gen();
        let r = rng.gen_range(0..d);
        let (a0, a1) = mul_add_carry(q, d, r);
        let fast_div = FastDivideNormalized::new(d);
        assert_eq!(fast_div.div_rem(double_word(a0, a1)), (q, r));
    }
}

#[test]
fn fast_divide_normalized_edges() {
    for d in [1u64 << 63, (1 << 63) + 1, u64::MAX - 1, u64::MAX] {
        let fast_div = FastDivideNormalized::new(d);
        let top = (d as DoubleWord) * ((1 as DoubleWord) << 64) - 1;
        for a in [0 as DoubleWord, 1, d as DoubleWord - 1, d as DoubleWord, top, top - d as DoubleWord] {
            let (q, r) = fast_div.div_rem(a);
            assert_eq!(q as DoubleWord, a / d as DoubleWord);
            assert_eq!(r as DoubleWord, a % d as DoubleWord);
        }
        assert_eq!(fast_div.div_rem_word(d - 1), (0, d - 1));
        assert_eq!(fast_div.div_rem_word(u64::MAX), (1, u64::MAX - d));
    }
}

#[test]
fn fast_divide_small_extremes() {
    for d in [2u64, 3, 7, 10, 1 << 32, (1 << 63) + 1, u64::MAX] {
        let fast_div = FastDivideSmall::new(d);
        for n in [0u64, 1, d - 1, d, d + 1, u64::MAX - 1, u64::MAX] {
            assert_eq!(fast_div.div_rem(n), (n / d, n % d));
        }
    }
}

#[test]
fn shift_left_and_right() {
    let mut words = [0x8000_0000_0000_0001u64, 0xffff_ffff_ffff_ffff];
    let carry = shl_in_place(&mut words, 4);
    assert_eq!(words, [0x10, 0xffff_ffff_ffff_fff8]);
    assert_eq!(carry, 0xf);
    let low = shr_in_place(&mut words, 4);
    assert_eq!(words, [0x8000_0000_0000_0001, 0x0fff_ffff_ffff_ffff]);
    assert_eq!(low, 0);
    let mut words = [0b1011u64, 1];
    let low = shr_in_place(&mut words, 2);
    assert_eq!(words, [(1u64 << 62) | 0b10, 0]);
    assert_eq!(low, 0b11 << 62);
    let mut words = [5u64, 6, 7];
    assert_eq!(shr_in_place_one_word(&mut words), 5);
    assert_eq!(words, [6, 7, 0]);
    assert_eq!(shl_in_place(&mut words, 0), 0);
    assert_eq!(shr_in_place(&mut words, 0), 0);
    assert_eq!(words, [6, 7, 0]);
}

#[test]
fn divide_by_word() {
    // (2^128 - 1) / 10 and % 10
    let mut words = [u64::MAX, u64::MAX];
    let rem = div_by_word_in_place(&mut words, 10);
    assert_eq!(rem, 5);
    let q = (words[1] as u128) << 64 | words[0] as u128;
    assert_eq!(q, u128::MAX / 10);
    // power of two divisor
    let mut words = [0x1234_5678_9abc_def0u64, 0x1];
    let rem = div_by_word_in_place(&mut words, 16);
    assert_eq!(rem, 0);
    assert_eq!(words, [0x1123_4567_89ab_cdef, 0]);
    // divisor one
    let mut words = [7u64, 8];
    assert_eq!(div_by_word_in_place(&mut words, 1), 0);
    assert_eq!(words, [7, 8]);
    // remainder agrees
    assert_eq!(rem_by_word(&[u64::MAX, u64::MAX], 10), 5);
    assert_eq!(rem_by_word(&[0x1234_5678_9abc_def3u64, 0x1], 16), 3);
    assert_eq!(rem_by_word(&[100u64], 7), 2);
    let _ = value(&words);
}

#[test]
fn divide_by_word_random() {
    let mut rng = StdRng::seed_from_u64(7);
    for _ in 0..2000 {
        let a: u128 = rng.gen();
        let d: u64 = rng.gen_range(1..=u64::MAX);
        let mut words = [a as u64, (a >> 64) as u64];
        let rem = div_by_word_in_place(&mut words, d);
        let q = (words[1] as u128) << 64 | words[0] as u128;
        assert_eq!(q, a / d as u128);
        assert_eq!(rem as u128, a % d as u128);
        assert_eq!(rem_by_word(&[a as u64, (a >> 64) as u64], d) as u128, a % d as u128);
    }
}

#[test]
fn divide_by_dword() {
    let mut rng = StdRng::seed_from_u64(11);
    for _ in 0..2000 {
        let a: u128 = rng.gen();
        let hi: u64 = if rng.gen() { rng.gen() } else { 0 };
        let d: DoubleWord = rng.gen_range(1u128 << 64..=u128::MAX);
        // three words: a + hi * 2^128
        let mut words = [a as u64, (a >> 64) as u64, hi];
        let rem = div_by_dword_in_place(&mut words, d);
        // check q * d + rem == value, using the low 128 bits and exactness
        assert!(rem < d);
        assert_eq!(rem_by_dword(&[a as u64, (a >> 64) as u64, hi], d), rem);
        if hi == 0 {
            let q = (words[1] as u128) << 64 | words[0] as u128;
            assert_eq!(words[2], 0);
            assert_eq!(q, a / d);
            assert_eq!(rem, a % d);
        }
    }
    // power of two divisors
    let mut words = [0xffu64, 0x1234, 0x5];
    let rem = div_by_dword_in_place(&mut words, 1u128 << 64);
    assert_eq!(rem, 0xff);
    assert_eq!(words, [0x1234, 0x5, 0]);
    let mut words = [0xffu64, 0x1234, 0x5];
    let rem = div_by_dword_in_place(&mut words, 1u128 << 68);
    assert_eq!(rem, (0x4u128 << 64) | 0xff);
    assert_eq!(words, [(5u64 << 60) | 0x123, 0, 0]);
    assert_eq!(rem_by_dword(&[0xffu64, 0x1234, 0x5], 1u128 << 68), (0x4u128 << 64) | 0xff);
}
