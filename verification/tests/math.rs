use dashu_int::arch::word::Word;
use dashu_int::math::{
    bit_len, ceil_div, ceil_div_usize, ceil_log2, ceil_log2_dword_fp8, ceil_log2_word_fp8,
    log2_dword_fp8, log2_word_fp8, max_exp_in_dword, max_exp_in_word, mul_add_2carry,
    mul_add_carry, mul_add_carry_dword, ones_dword, ones_word, round_up, round_up_usize,
    shl_dword, shr_word,
};
use dashu_int::primitive::extend_word;
use rand::rngs::StdRng;
use rand::{Rng, SeedableRng};

#[test]
fn test_bit_len() {
    assert_eq!(bit_len(0u32), 0);
    assert_eq!(bit_len(0b10011101u32), 8);
    assert_eq!(bit_len(0b10000000u32), 8);
    assert_eq!(bit_len(0b1111111u32), 7);
}

#[test]
fn test_ceil_log_2() {
    assert_eq!(ceil_log2(1u32), 0);
    assert_eq!(ceil_log2(7u32), 3);
    assert_eq!(ceil_log2(8u32), 3);
    assert_eq!(ceil_log2(9u32), 4);
    assert_eq!(ceil_log2(u32::MAX), 32);
}

#[test]
fn test_ceil_div() {
    assert_eq!(ceil_div(0u32, 10u32), 0);
    assert_eq!(ceil_div(9u32, 10u32), 1);
    assert_eq!(ceil_div(10u32, 10u32), 1);
    assert_eq!(ceil_div(11u32, 10u32), 2);
}

#[test]
fn test_round_up() {
    assert_eq!(round_up(0u32, 10u32), 0);
    assert_eq!(round_up(9u32, 10u32), 10);
    assert_eq!(round_up(10u32, 10u32), 10);
    assert_eq!(round_up(11u32, 10u32), 20);
}

#[test]
fn test_ones() {
    assert_eq!(ones_word(0), 0);
    assert_eq!(ones_word(5), 0b11111);
    assert_eq!(ones_word(16), u16::MAX as Word);
}

#[test]
fn test_max_exp_in_word() {
    for b in 3..30 {
        let (_, pow) = max_exp_in_word(b);
        assert!(pow.overflowing_mul(b).1);
        let (_, pow) = max_exp_in_dword(b);
        assert!(pow.overflowing_mul(extend_word(b)).1);
    }
}

#[test]
fn test_log2_fp8() {
    assert_eq!(log2_word_fp8(1), 0); // err = 0
    assert_eq!(log2_word_fp8(12), 917); // err = 0
    assert_eq!(log2_word_fp8(123), 1777); // err = 0
    assert_eq!(log2_word_fp8(1234), 2628); // err = 0
    assert_eq!(log2_word_fp8(12345), 3478); // err = 1
    assert_eq!(log2_dword_fp8(12345678), 6029); // err = 1
    assert_eq!(log2_dword_fp8(1234567890), 7731); // err = 0
    assert_eq!(log2_word_fp8(0xff), 2046); // err = 0
    assert_eq!(log2_word_fp8(0x100), 2048); // err = 0
    assert_eq!(log2_word_fp8(0x101), 2048); // err = 1
    assert_eq!(log2_dword_fp8(0xff00), 4094); // err = 0
    assert_eq!(log2_dword_fp8(0xffff), 4095); // err = 0
    assert_eq!(log2_dword_fp8(0x10000), 4096); // err = 0
    assert_eq!(log2_dword_fp8(0x10001), 4096); // err = 0

    assert_eq!(ceil_log2_word_fp8(12), 918); // err = 0
    assert_eq!(ceil_log2_word_fp8(123), 1778); // err = 0
    assert_eq!(ceil_log2_word_fp8(1234), 2631); // err = 2
    assert_eq!(ceil_log2_word_fp8(12345), 3480); // err = 0
    assert_eq!(ceil_log2_dword_fp8(12345678), 6032); // err = 2
    assert_eq!(ceil_log2_dword_fp8(1234567890), 7733); // err = 1
    assert_eq!(ceil_log2_word_fp8(0xff), 2047); // err = 0
    assert_eq!(ceil_log2_word_fp8(0x101), 2051); // err = 1
    assert_eq!(ceil_log2_dword_fp8(0xff00), 4096); // err = 1
    assert_eq!(ceil_log2_dword_fp8(0xffff), 4096); // err = 0
    assert_eq!(ceil_log2_dword_fp8(0x10001), 4098); // err = 1

    if Word::BITS == 64 {
        // hard cases
        assert_eq!(log2_word_fp8(0x7f00000000000000), 16125); // err = 0
        assert_eq!(log2_word_fp8(0x7fffffffffffffff), 16127); // err = 0
        assert_eq!(log2_word_fp8(0xff00000000000000), 16382); // err = 0
        assert_eq!(log2_word_fp8(0xffffffffffffffff), 16383); // err = 0

        assert_eq!(ceil_log2_word_fp8(0x7f00000000000000), 16126); // err = 0
        assert_eq!(ceil_log2_word_fp8(0x7fffffffffffffff), 16128); // err = 0
        assert_eq!(ceil_log2_word_fp8(0xff00000000000000), 16384); // err = 1
        assert_eq!(ceil_log2_word_fp8(0xffffffffffffffff), 16384); // err = 0
    }
}

#[test]
fn ceil_div_and_round_up_for_usize() {
    assert_eq!(ceil_div_usize(0, 7), 0);
    assert_eq!(ceil_div_usize(15, 7), 3);
    assert_eq!(round_up_usize(15, 7), 21);
    assert_eq!(ceil_div(u64::MAX, 2u64), 1 << 63);
    assert_eq!(ceil_div(u128::MAX, 1u128 << 100), 1 << 28);
}

#[test]
fn ones_dword_values() {
    assert_eq!(ones_dword(0), 0);
    assert_eq!(ones_dword(70), (1u128 << 70) - 1);
    assert_eq!(ones_dword(128), u128::MAX);
    assert_eq!(ones_word(64), u64::MAX);
}

#[test]
fn shifts_of_words() {
    assert_eq!(shl_dword(0x1234_5678_9abc_def0_1122_3344_5566_7788, 8), (0x2233_4455_6677_8800, 0x3456_789a_bcde_f011, 0x12));
    assert_eq!(shl_dword(u128::MAX, 64), (0, u64::MAX, u64::MAX));
    assert_eq!(shl_dword(5, 0), (5, 0, 0));
    assert_eq!(shr_word(0b1011, 2), (0b10, 0b11 << 62));
    assert_eq!(shr_word(7, 0), (7, 0));
}

#[test]
fn multiply_with_carries() {
    assert_eq!(mul_add_carry(u64::MAX, u64::MAX, u64::MAX), (0, u64::MAX));
    assert_eq!(mul_add_2carry(u64::MAX, u64::MAX, u64::MAX, u64::MAX), (u64::MAX, u64::MAX));
    assert_eq!(mul_add_carry(3, 5, 7), (22, 0));
    assert_eq!(mul_add_carry_dword(u128::MAX, u128::MAX, u128::MAX), (0, u128::MAX));
    assert_eq!(mul_add_carry_dword(1 << 64, 1 << 64, 3), (3, 1));
}

#[test]
fn max_exp_values() {
    assert_eq!(max_exp_in_word(10), (19, 10_000_000_000_000_000_000));
    assert_eq!(max_exp_in_word(1 << 40), (1, 1 << 40));
    assert_eq!(max_exp_in_dword(10), (38, 10u128.pow(38)));
}

#[test]
fn fp8_log2_estimates_within_two() {
    let mut rng = StdRng::seed_from_u64(256);
    for i in 0..20000u64 {
        let n: u64 = if i < 5000 { i + 1 } else { rng.gen::<u64>() >> rng.gen_range(0..63) };
        if n == 0 {
            continue;
        }
        let exact = 256.0 * (n as f64).log2();
        let lo = log2_word_fp8(n) as f64;
        assert!(lo <= exact + 1e-6 && exact - lo < 3.0 + 1e-6, "n={n}");
        if !n.is_power_of_two() {
            let hi = ceil_log2_word_fp8(n) as f64;
            assert!(hi + 1e-6 >= exact && hi - exact < 3.0 + 1e-6, "n={n}");
        }
        let d = (n as u128) << rng.gen_range(0..64);
        let exact = 256.0 * (d as f64).log2();
        let lo = log2_dword_fp8(d) as f64;
        assert!(lo <= exact + 1e-6 && exact - lo < 3.0 + 1e-6, "d={d}");
        if !d.is_power_of_two() {
            let hi = ceil_log2_dword_fp8(d) as f64;
            assert!(hi + 1e-6 >= exact && hi - exact < 3.0 + 1e-6, "d={d}");
        }
    }
}
