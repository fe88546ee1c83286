use dashu_int::add::{add_in_place, add_word_in_place};
use dashu_int::ibig::IBig;
use dashu_int::mul::mul_large;
use dashu_int::sign::Sign;
use dashu_int::ubig::UBig;
use rand::rngs::StdRng;
use rand::{Rng, SeedableRng};

fn ubig(words: &[u64]) -> UBig {
    UBig::from_words(words)
}

fn words(x: &UBig) -> Vec<u64> {
    x.as_words().to_vec()
}

fn mul(a: &UBig, b: &UBig) -> UBig {
    UBig::from_vec(mul_large(a.as_words(), b.as_words()))
}

fn add(a: &UBig, b: &UBig) -> UBig {
    let (long, short) = if a.len() >= b.len() { (a, b) } else { (b, a) };
    let mut v = long.as_words().to_vec();
    v.push(0);
    let overflow = add_in_place(&mut v, short.as_words());
    assert!(!overflow);
    UBig::from_vec(v)
}

fn ibig(v: i64) -> IBig {
    let sign = if v < 0 { Sign::Negative } else { Sign::Positive };
    IBig::from_parts(sign, UBig::from_word(v.unsigned_abs()))
}

fn ival(x: &IBig) -> i128 {
    let m = x.magnitude().as_dword().unwrap() as i128;
    if x.sign() == Sign::Negative {
        -m
    } else {
        m
    }
}

#[test]
fn ubig_div_rem_small() {
    let (q, r) = UBig::from_word(100).div_rem(&UBig::from_word(7));
    assert_eq!(words(&q), vec![14]);
    assert_eq!(words(&r), vec![2]);
    assert_eq!(words(&UBig::from_word(100).div(&UBig::from_word(7))), vec![14]);
    assert_eq!(words(&UBig::from_word(100).rem(&UBig::from_word(7))), vec![2]);
}

#[test]
fn ubig_div_rem_by_larger() {
    let a = ubig(&[5, 6]);
    let b = ubig(&[1, 2, 3]);
    let (q, r) = a.div_rem(&b);
    assert!(q.is_zero());
    assert_eq!(words(&r), vec![5, 6]);
    let c = ubig(&[1, 2, 3, 4]);
    let d = ubig(&[1, 2, 3, 4, 5]);
    let (q, r) = c.div_rem(&d);
    assert!(q.is_zero());
    assert_eq!(words(&r), vec![1, 2, 3, 4]);
}

#[test]
fn ubig_div_rem_large_by_word() {
    // B^2 / 3 = (B^2 - 1) / 3, remainder 1
    let (q, r) = ubig(&[0, 0, 1]).div_rem(&UBig::from_word(3));
    assert_eq!(words(&q), vec![0x5555_5555_5555_5555, 0x5555_5555_5555_5555]);
    assert_eq!(words(&r), vec![1]);
}

#[test]
fn ubig_div_rem_large_by_dword() {
    // (B^3 + 7) / B = B^2, remainder 7
    let (q, r) = ubig(&[7, 0, 0, 1]).div_rem(&ubig(&[0, 1]));
    assert_eq!(words(&q), vec![0, 0, 1]);
    assert_eq!(words(&r), vec![7]);
}

#[test]
fn ubig_div_rem_large_by_large() {
    // (B^3 + 5) / (B^2 + 1): quotient B - 1, remainder B^2 - B + 6
    let (q, r) = ubig(&[5, 0, 0, 1, 0, 0, 0]).div_rem(&ubig(&[1, 0, 1]));
    assert!(q == ubig(&[u64::MAX]));
    assert_eq!(words(&r), vec![6, u64::MAX]);
    // an exact multiple plus a small remainder
    let b = ubig(&[1, 2, 3]);
    let c = ubig(&[4, 5, 6, 7]);
    let rem = ubig(&[7, 8]);
    let a = add(&mul(&b, &c), &rem);
    let (q, r) = a.div_rem(&b);
    assert_eq!(words(&q), words(&c));
    assert_eq!(words(&r), words(&rem));
    // dividing by itself
    let (q, r) = c.div_rem(&c);
    assert_eq!(words(&q), vec![1]);
    assert!(r.is_zero());
}

#[test]
fn ubig_div_rem_random() {
    let mut rng = StdRng::seed_from_u64(7);
    for _ in 0..300 {
        let n = rng.gen_range(1..12usize);
        let m = rng.gen_range(1..12usize);
        let mut bw: Vec<u64> = (0..n).map(|_| rng.gen()).collect();
        if rng.gen_bool(0.3) {
            // a small top word forces a large normalization shift
            *bw.last_mut().unwrap() = rng.gen_range(1..4);
        }
        if *bw.last().unwrap() == 0 {
            *bw.last_mut().unwrap() = 1;
        }
        let aw: Vec<u64> = (0..m).map(|_| rng.gen()).collect();
        let a = ubig(&aw);
        let b = ubig(&bw);
        let (q, r) = a.div_rem(&b);
        // r < b and q b + r == a
        assert!(r.len() < b.len() || (r.len() == b.len() && {
            let (rw, bw) = (r.as_words(), b.as_words());
            let mut i = rw.len();
            let mut less = false;
            while i > 0 {
                i -= 1;
                if rw[i] != bw[i] {
                    less = rw[i] < bw[i];
                    break;
                }
            }
            less
        }));
        assert_eq!(words(&add(&mul(&q, &b), &r)), words(&a));
    }
}

#[test]
fn ibig_div_rem_truncates() {
    let cases = [(-7i64, 2i64, -3i128, -1i128), (7, -2, -3, 1), (-7, -2, 3, -1), (7, 2, 3, 1), (-1, 5, 0, -1)];
    for (a, b, q, r) in cases {
        let (qq, rr) = ibig(a).div_rem(&ibig(b));
        assert_eq!(ival(&qq), q);
        assert_eq!(ival(&rr), r);
        assert_eq!(ival(&ibig(a).div(&ibig(b))), q);
        assert_eq!(ival(&ibig(a).rem(&ibig(b))), r);
    }
}

fn pow(d: &UBig, i: usize) -> UBig {
    let mut n = UBig::one();
    for _ in 0..i {
        n = mul(&n, d);
    }
    n
}

fn plus_word(x: &UBig, w: u64) -> UBig {
    let mut v = x.as_words().to_vec();
    v.push(0);
    let overflow = add_word_in_place(&mut v, w);
    assert!(!overflow);
    UBig::from_vec(v)
}

#[test]
fn test_is_multiple_of_matches_rem() {
    // single-word divisors
    for d in [2u16, 3, 5, 7, 10, 12, 16, 25, 255] {
        let d = d as u64;
        for i in 1..10usize {
            for rest in [1u8, 5, 7, 11] {
                let n = mul(&pow(&UBig::from_word(d), i), &UBig::from_word(rest as u64));
                let want = n.rem(&UBig::from_word(d)).is_zero();
                assert_eq!(n.is_multiple_of(&UBig::from_word(d)), want, "d={d} i={i} rest={rest}");
            }
        }
    }

    // double-word divisors: 2^64 + 3, 2^70 * 5, 2^100
    for d in [ubig(&[3, 1]), ubig(&[0, 5 << 6]), ubig(&[0, 1 << 36])] {
        for i in 1..8usize {
            let n = mul(&pow(&d, i), &UBig::from_word(7));
            let want = n.rem(&d).is_zero();
            assert_eq!(n.is_multiple_of(&d), want, "d={:?} i={i}", d.as_words());
        }
        let n = plus_word(&pow(&d, 2), 1);
        assert!(!n.is_multiple_of(&d));
    }

    // multi-word divisors: 2^200 + 1
    let d = ubig(&[1, 0, 0, 1 << 8]);
    for i in 1..6usize {
        let n = mul(&pow(&d, i), &UBig::from_word(11));
        let want = n.rem(&d).is_zero();
        assert_eq!(n.is_multiple_of(&d), want, "i={i}");
    }
    assert!(!plus_word(&pow(&d, 2), 2).is_multiple_of(&d));
}

fn ibig_from(v: i64) -> IBig {
    ibig(v)
}

fn ipow10(i: usize) -> IBig {
    IBig::from_parts(Sign::Positive, pow(&UBig::from_word(10), i))
}

fn imul_word(x: &IBig, w: u64) -> IBig {
    IBig::from_parts(x.sign(), mul(x.magnitude(), &UBig::from_word(w)))
}

#[test]
fn test_div_exact_assign_matches_div() {
    for d in [2u16, 3, 5, 7, 10, 12, 16, 25, 255, 1001] {
        let d = d as u64;
        for i in 1..10usize {
            for rest in [1u8, 5, 7, 11] {
                let n = mul(&pow(&UBig::from_word(d), i), &UBig::from_word(rest as u64));
                let want = n.div(&UBig::from_word(d));
                let mut got = n;
                assert!(got.div_exact_assign_dword(d as u128), "d={d} i={i} rest={rest}");
                assert!(got == want, "d={d} i={i} rest={rest}");
            }
        }
        // a value not divisible by d stays unchanged
        let mut n = plus_word(&pow(&UBig::from_word(d), 2), 1);
        let before = n.copy();
        assert!(!n.div_exact_assign_dword(d as u128), "d={d}");
        assert!(n == before, "d={d}");
    }
}

#[test]
fn test_div_exact_matches_div() {
    // single- and double-word divisors: 10^8, 2^64 + 3, 2^70 * 5
    for d in [pow(&UBig::from_word(10), 8), ubig(&[3, 1]), ubig(&[0, 5 << 6])] {
        for i in 1..6usize {
            let n = mul(&pow(&d, i), &UBig::from_word(7));
            let (q, r) = n.div_rem(&d);
            assert!(r.is_zero(), "d={:?} i={i}", d.as_words());
            assert!(n.div_exact(&d) == Some(q), "d={:?} i={i}", d.as_words());
        }
        let n = plus_word(&pow(&d, 2), 1);
        assert!(n.div_exact(&d).is_none(), "d must not divide d^2+1");
    }

    // multi-word divisors
    let big = pow(&UBig::from_word(10), 50);
    for (a, b) in [
        (mul(&pow(&UBig::from_word(10), 80), &UBig::from_word(7)), pow(&UBig::from_word(10), 80)),
        (mul(&big, &UBig::from_word(13)), big.copy()),
        (mul(&pow(&UBig::from_word(2), 300), &UBig::from_word(3)), UBig::from_word(8)),
    ] {
        let (q, r) = a.div_rem(&b);
        assert!(a.div_exact(&b) == if r.is_zero() { Some(q) } else { None });
    }
    // not divisible
    assert!(UBig::from_word(7).div_exact(&UBig::from_word(3)).is_none());
    assert!(UBig::from_word(7).div_exact(&big).is_none());
}

#[test]
fn test_div_exact_assign_dword() {
    let base = (u64::MAX as u128) * (u64::MAX as u128);
    for d in [base + 2, base + 3, 1u128 << 127] {
        let d_ubig = UBig::from_dword(d);
        for i in 1..6usize {
            let n = mul(&pow(&d_ubig, i), &UBig::from_word(7));
            let want = n.div(&d_ubig);
            let mut got = n;
            assert!(got.div_exact_assign_dword(d), "d={d:?} i={i}");
            assert!(got == want, "d={d:?} i={i}");
        }
        let mut n = plus_word(&pow(&d_ubig, 2), 1);
        let before = n.copy();
        assert!(!n.div_exact_assign_dword(d), "d={d:?}");
        assert!(n == before, "d={d:?}");
    }
}

#[test]
fn test_div_exact_trait_impls() {
    let p8 = pow(&UBig::from_word(10), 8);
    let p7 = pow(&UBig::from_word(10), 7);
    // UBig by UBig
    let a = mul(&p8, &UBig::from_word(7));
    assert!(a.div_exact(&p8) == Some(UBig::from_word(7)));
    assert!(a.div_exact(&UBig::from_word(3)).is_none());

    // UBig by primitive divisors, including one wider than a word
    assert!(p8.div_exact(&UBig::from_word(10)) == Some(p7.copy()));
    assert!(p8.div_exact(&UBig::from_dword(10)) == Some(p7.copy()));
    let wide = 1u128 << 100;
    assert!(p8.div_exact(&UBig::from_dword(wide)).is_none());
    assert!(UBig::from_dword(wide).div_exact(&UBig::from_dword(1)) == Some(UBig::from_dword(wide)));

    // in place by a primitive divisor
    let mut b = mul(&p8, &UBig::from_word(7));
    assert!(b.div_exact_assign_dword(10));
    assert!(b == mul(&p7, &UBig::from_word(7)));
    assert!(!b.div_exact_assign_dword(3));
    assert!(b == mul(&p7, &UBig::from_word(7)));

    // in place by a multi-word divisor, unchanged on failure
    let d = pow(&UBig::from_word(10), 50);
    let mut c = mul(&pow(&d, 2), &UBig::from_word(7));
    assert!(c.div_exact_assign(&d));
    assert!(c == mul(&d, &UBig::from_word(7)));
    let mut c = mul(&pow(&d, 2), &UBig::from_word(7));
    let before = c.copy();
    assert!(!c.div_exact_assign(&plus_word(&d, 1)));
    assert!(c == before);

    // the dividend stays unchanged
    let ref_a = mul(&p8, &UBig::from_word(7));
    assert!(ref_a.div_exact(&p8) == Some(UBig::from_word(7)));
    assert!(ref_a.div_exact(&UBig::from_word(3)).is_none());
    assert!(ref_a == mul(&p8, &UBig::from_word(7)));
}

#[test]
fn test_div_exact_ibig() {
    let a = imul_word(&ipow10(8), 7);
    assert!(a.div_exact(&ipow10(8)) == Some(ibig_from(7)));
    assert!(a.div_exact(&ibig_from(3)).is_none());
    // the quotient's sign is the product of the signs
    assert!(ibig_from(-14).div_exact(&ibig_from(7)) == Some(ibig_from(-2)));
    assert!(ibig_from(14).div_exact(&ibig_from(-7)) == Some(ibig_from(-2)));
    assert!(ibig_from(-14).div_exact(&ibig_from(-7)) == Some(ibig_from(2)));

    // the dividend stays unchanged
    let ref_a = imul_word(&ipow10(8), 7);
    assert!(ref_a.div_exact(&ipow10(8)) == Some(ibig_from(7)));
    assert!(ref_a.div_exact(&ibig_from(3)).is_none());
    assert!(ref_a == imul_word(&ipow10(8), 7));

    // primitive divisors
    assert!(ipow10(8).div_exact(&ibig_from(10)) == Some(ipow10(7)));
    assert!(ibig_from(-20).div_exact(&ibig_from(5)) == Some(ibig_from(-4)));
    assert!(ibig_from(20).div_exact(&ibig_from(-5)) == Some(ibig_from(-4)));
    assert!(ibig_from(20).div_exact(&ibig_from(7)).is_none());

    // in place
    let mut b = imul_word(&ipow10(8), 7);
    assert!(b.div_exact_assign(&ipow10(8)));
    assert!(b == ibig_from(7));
    assert!(!b.div_exact_assign(&ibig_from(3)));
    assert!(b == ibig_from(7));
    assert!(b.div_exact_assign(&ibig_from(-7)));
    assert!(b == ibig_from(-1));
}

fn random_normalized_words(rng: &mut StdRng, n: usize) -> Vec<u64> {
    let mut w: Vec<u64> = (0..n).map(|_| rng.gen()).collect();
    w[n - 1] |= 1u64 << 63;
    w
}

fn random_shifted_words(rng: &mut StdRng, n: usize, top_zero_bits: u32) -> Vec<u64> {
    let mut w: Vec<u64> = (0..n).map(|_| rng.gen()).collect();
    let mask = (1u64 << (64 - top_zero_bits)) - 1;
    w[n - 1] = (w[n - 1] & mask) | (1u64 << (64 - top_zero_bits - 1));
    w
}

/// Divide and check that `q d + r == a` and `r < d`.
fn check_div_rem(dividend: &[u64], divisor: &[u64], what: &str) {
    let a = ubig(dividend);
    let d = ubig(divisor);
    let (q, r) = a.div_rem(&d);
    assert_eq!(r.cmp(&d), core::cmp::Ordering::Less, "{what}: remainder not below divisor");
    assert_eq!(words(&add(&mul(&q, &d), &r)), words(&a), "{what}: q d + r differs");
}

#[test]
fn div_rem_correctness() {
    let mut rng = StdRng::seed_from_u64(987);
    for &(n, extra) in &[
        (160usize, 1usize),
        (160, 160),
        (200, 5),
        (200, 200),
        (300, 1),
        (300, 300),
        (300, 600),
        (500, 1),
        (500, 500),
        (500, 1000),
        (1000, 1),
        (1000, 1000),
        (1000, 2500),
    ] {
        for _ in 0..3 {
            let d = random_normalized_words(&mut rng, n);
            let m = n + extra;
            let dividend: Vec<u64> = (0..m).map(|_| rng.gen()).collect();
            check_div_rem(&dividend, &d, &format!("n={n} m={m}"));
        }
    }
}

#[test]
fn div_rem_edge_cases() {
    let n = 200usize;
    let mut half = vec![0u64; n];
    half[n - 1] = 1u64 << 63;
    let mut rng = StdRng::seed_from_u64(7);
    for &extra in &[1usize, 200, 400] {
        for _ in 0..3 {
            let m = n + extra;
            let dividend: Vec<u64> = (0..m).map(|_| rng.gen()).collect();
            check_div_rem(&dividend, &half, &format!("half-divisor n={n} m={m}"));
        }
    }
}

#[test]
fn divrem_m_by_n_large_quotient() {
    let mut rng = StdRng::seed_from_u64(55);
    for &(n, qn) in &[(200usize, 1usize), (200, 100), (200, 199), (201, 200), (300, 1), (300, 299), (250, 249)] {
        for _ in 0..4 {
            let d = random_normalized_words(&mut rng, n);
            let m = n + qn;
            let dividend: Vec<u64> = (0..m).map(|_| rng.gen()).collect();
            check_div_rem(&dividend, &d, &format!("n={n} qn={qn}"));
        }
    }
}

#[test]
fn div_rem_with_shift() {
    let mut rng = StdRng::seed_from_u64(2024);
    for &(n, extra, shift_bits) in &[
        (162usize, 161usize, 1u32),
        (162, 161, 17),
        (162, 161, 40),
        (162, 161, 63),
        (200, 200, 63),
        (250, 250, 30),
        (300, 100, 63),
        (300, 600, 63),
    ] {
        for _ in 0..3 {
            let d = random_shifted_words(&mut rng, n, shift_bits);
            let m = n + extra;
            let dividend: Vec<u64> = (0..m).map(|_| rng.gen()).collect();
            check_div_rem(&dividend, &d, &format!("shift n={n} extra={extra} s={shift_bits}"));
        }
    }
}

#[test]
fn div_exact_hensel_matches_div_rem() {
    let mut rng = StdRng::seed_from_u64(2718);
    for round in 0..400 {
        let m = rng.gen_range(1..8usize);
        let k = rng.gen_range(1..8usize);
        let mut dw: Vec<u64> = (0..m).map(|_| rng.gen()).collect();
        if round % 3 == 0 {
            // even divisors, some with whole zero words at the bottom
            dw[0] &= !((1u64 << rng.gen_range(1..64)) - 1);
            if round % 6 == 0 && m > 1 {
                dw[0] = 0;
            }
        }
        if *dw.last().unwrap() == 0 {
            *dw.last_mut().unwrap() = 1;
        }
        let qw: Vec<u64> = (0..k).map(|_| rng.gen()).collect();
        let d = ubig(&dw);
        let q = ubig(&qw);
        if d.is_zero() || q.is_zero() {
            continue;
        }
        let a = mul(&d, &q);
        // exact
        let got = a.div_exact(&d).expect("exact division");
        assert_eq!(words(&got), words(&q), "round {round}");
        assert!(a.is_multiple_of(&d));
        // one more: not exact unless the divisor is one
        let a1 = add(&a, &UBig::one());
        let (_, r) = a1.div_rem(&d);
        assert_eq!(a1.div_exact(&d).is_some(), r.is_zero(), "round {round}");
        assert_eq!(a1.is_multiple_of(&d), r.is_zero(), "round {round}");
    }
}
