use dashu_int::arch::ntt::{moduli, MAX_LOG_N};

#[test]
fn ntt_test_primes_proth_form() {
    let m = moduli();
    assert_eq!(m[0], 29u64 * (1u64 << 57) + 1);
    assert_eq!(m[1], 71u64 * (1u64 << 57) + 1);
    assert_eq!(m[2], 75u64 * (1u64 << 57) + 1);
}

#[test]
fn ntt_test_primes_v2() {
    for &p in &moduli() {
        let v2 = (p - 1).trailing_zeros();
        assert!(v2 >= MAX_LOG_N, "v2(p-1) = {v2} < MAX_LOG_N");
    }
}
