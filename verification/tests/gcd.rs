use rand::{Rng, SeedableRng};
use dashu_int::gcd::{gcd_ext_dword, gcd_ext_word};
use dashu_int::sign::Sign;
use dashu_int::ubig::UBig;

fn ubig(words: &[u64]) -> UBig {
    UBig::from_words(words)
}

fn words(x: &UBig) -> Vec<u64> {
    x.as_words().to_vec()
}

#[test]
fn gcd_doc_example() {
    let g = UBig::from_word(12).gcd(&UBig::from_word(18));
    assert_eq!(words(&g), vec![6]);
}

#[test]
fn gcd_with_zero() {
    let a = ubig(&[5, 6, 7]);
    assert_eq!(words(&a.gcd(&UBig::zero())), vec![5, 6, 7]);
    assert_eq!(words(&UBig::zero().gcd(&a)), vec![5, 6, 7]);
    assert_eq!(words(&UBig::zero().gcd(&UBig::from_word(9))), vec![9]);
}

#[test]
fn gcd_large_and_small() {
    // 2^192 * 6 and 10
    let a = ubig(&[0, 0, 0, 6]);
    assert_eq!(words(&a.gcd(&UBig::from_word(10))), vec![2]);
    assert_eq!(words(&UBig::from_word(10).gcd(&a)), vec![2]);
    // a multiple of the double word divisor
    let d = (1u128 << 64) + 3;
    let b = ubig(&[3 * 5, 5, 0, 0]);
    let _ = b;
    let c = ubig(&[0, 0, 0, 4]);
    assert_eq!(words(&c.gcd(&UBig::from_dword(d))), vec![1]);
    assert_eq!(words(&c.gcd(&UBig::from_dword(1u128 << 100))), vec![0, 1 << 36]);
}

#[test]
fn gcd_large_and_large() {
    // x = 3^100 * 7^60 * 2^70, y = 7^120 * 11 * 2^65, gcd = 7^60 * 2^65
    let x = ubig(&[
        0x0,
        0x47e2f02a5a419c40,
        0xec4cdcc50eb73d,
        0xfc1232084c9429e0,
        0xbb8243a814272344,
        0xeed3c406d145f0b8,
        0x1ea4,
    ]);
    let y = ubig(&[
        0x0,
        0xdc0b92432dad7396,
        0x533e01a608c5ed49,
        0x16a96afb73bf2ffd,
        0xee05c5086eb7f44a,
        0x71f98c85ab41f818,
        0x288f9f,
    ]);
    let g = vec![0x0, 0x3b3257a9cd9f2142, 0x454508bcb3722ab1, 0x2b734903608];
    assert_eq!(words(&x.gcd(&y)), g);
    assert_eq!(words(&y.gcd(&x)), g);
    assert_eq!(words(&x.gcd(&x)), words(&x));
}

#[test]
fn gcd_ext_word_bezout() {
    for (l, w) in [(10u64, 4u64), (100, 7), (12, 18), (18, 12), (1 << 40, 3), (99, 33), (35, 14)] {
        let mut lhs = [l];
        let (g, a, b_sign) = gcd_ext_word(&mut lhs, w);
        let b = match b_sign {
            Sign::Positive => lhs[0] as i128,
            Sign::Negative => -(lhs[0] as i128),
        };
        assert_eq!(l as i128 * a as i128 + w as i128 * b, g as i128, "l={l} w={w}");
        let expected = {
            let (mut x, mut y) = (l, w);
            while y != 0 {
                let r = x % y;
                x = y;
                y = r;
            }
            x
        };
        assert_eq!(g, expected);
    }
    // the divisor divides the remainder's partner: 10 = 2 * 4 + 2, and 2 divides 4
    let mut lhs = [10u64];
    let (g, a, b_sign) = gcd_ext_word(&mut lhs, 4);
    assert_eq!((g, a, b_sign, lhs[0]), (2, 1, Sign::Negative, 2));
    // an exact multiple
    let mut lhs = [12u64, 0];
    assert_eq!(gcd_ext_word(&mut lhs, 4), (4, 0, Sign::Positive));
    assert_eq!(lhs, [1, 0]);
}

#[test]
fn gcd_ext_dword_bezout() {
    let d: u128 = (1 << 64) + 1;
    // lhs = 3 * d + 2 as two words
    let l: u128 = 3 * d + 2;
    let mut lhs = [l as u64, (l >> 64) as u64];
    let (g, a, b_sign) = gcd_ext_dword(&mut lhs, d);
    let b = ((lhs[1] as u128) << 64) | lhs[0] as u128;
    assert_eq!(g, 1);
    // l * a + d * b == 1 checked in wrapping arithmetic
    let lhs_term = (l as i128).wrapping_mul(a);
    let rhs_term = match b_sign {
        Sign::Positive => (d as i128).wrapping_mul(b as i128),
        Sign::Negative => (d as i128).wrapping_mul(-(b as i128)),
    };
    assert_eq!(lhs_term.wrapping_add(rhs_term), 1);
    // an exact multiple
    let l: u128 = 5 * d;
    let mut lhs = [l as u64, (l >> 64) as u64];
    assert_eq!(gcd_ext_dword(&mut lhs, d), (d, 0, Sign::Positive));
    assert_eq!(lhs, [1, 0]);
}

fn mul_words(a: &[u64], b: &[u64]) -> UBig {
    UBig::from_vec(dashu_int::mul::mul_large(a, b))
}

/// Check `a s + b t == g` with the signs of the coefficients.
fn check_bezout(a: &UBig, b: &UBig, g: &UBig, s: &dashu_int::ibig::IBig, t: &dashu_int::ibig::IBig) {
    let as_ = mul_words(a.as_words(), s.magnitude().as_words());
    let bt = mul_words(b.as_words(), t.magnitude().as_words());
    // the positive term equals g plus the negative one
    let (pos, neg) = if s.sign() == Sign::Negative {
        (bt, as_)
    } else if t.sign() == Sign::Negative {
        (as_, bt)
    } else {
        // no negative coefficient: one of the terms is zero
        assert!(as_.is_zero() || bt.is_zero());
        if as_.is_zero() { (bt, as_) } else { (as_, bt) }
    };
    let mut sum = neg.as_words().to_vec();
    let glen = g.as_words().len();
    while sum.len() < glen {
        sum.push(0);
    }
    sum.push(0);
    let overflow = dashu_int::add::add_in_place(&mut sum, g.as_words());
    assert!(!overflow);
    assert_eq!(words(&UBig::from_vec(sum)), words(&pos));
}

#[test]
fn gcd_ext_doc_example() {
    let (g, x, y) = UBig::from_word(12).gcd_ext(&UBig::from_word(18));
    assert_eq!(words(&g), vec![6]);
    assert!(x.sign() == Sign::Negative && words(x.magnitude()) == vec![1]);
    assert!(y.sign() == Sign::Positive && words(y.magnitude()) == vec![1]);
}

#[test]
fn gcd_ext_large_and_small() {
    for (a, b) in [
        (ubig(&[0, 0, 6]), UBig::from_word(10)),
        (ubig(&[7, 8, 9]), UBig::from_word(0x1234_5678)),
        (ubig(&[7, 8, 9, 10]), ubig(&[5, 3])),
        (ubig(&[1, 2, 3]), UBig::zero()),
    ] {
        let (g, s, t) = a.gcd_ext(&b);
        assert_eq!(words(&g), words(&a.gcd(&b)));
        check_bezout(&a, &b, &g, &s, &t);
        let (g2, s2, t2) = b.gcd_ext(&a);
        assert_eq!(words(&g2), words(&g));
        check_bezout(&b, &a, &g2, &s2, &t2);
    }
}

#[test]
fn gcd_ext_large_and_large() {
    let a = ubig(&[1, 2, 3, 4]);
    let b = ubig(&[5, 6, 7]);
    let (g, s, t) = a.gcd_ext(&b);
    assert_eq!(words(&g), words(&a.gcd(&b)));
    check_bezout(&a, &b, &g, &s, &t);
    // a common factor
    let c = ubig(&[9, 9, 9]);
    let ac = mul_words(a.as_words(), c.as_words());
    let bc = mul_words(b.as_words(), c.as_words());
    let (g, s, t) = ac.gcd_ext(&bc);
    assert_eq!(words(&g), words(&ac.gcd(&bc)));
    check_bezout(&ac, &bc, &g, &s, &t);
    // equal operands
    let (g, s, t) = a.gcd_ext(&a);
    assert_eq!(words(&g), words(&a));
    assert!(s.is_one() && t.is_zero());
}

fn random_words(rng: &mut rand::rngs::StdRng, n: usize) -> Vec<u64> {
    let mut v: Vec<u64> = (0..n).map(|_| rng.gen()).collect();
    if *v.last().unwrap() == 0 {
        *v.last_mut().unwrap() = 1;
    }
    v
}

/// `g` divides both numbers and the cofactors are coprime.
fn check_is_gcd(a: &UBig, b: &UBig, g: &UBig) {
    assert!(a.rem(g).is_zero());
    assert!(b.rem(g).is_zero());
    let (ca, cb) = (a.div(g), b.div(g));
    assert!(ca.gcd(&cb).is_one());
}

#[test]
fn gcd_lehmer_random() {
    let mut rng = rand::rngs::StdRng::seed_from_u64(3);
    for (n, m) in [(3usize, 3usize), (4, 3), (8, 8), (12, 5), (20, 19), (40, 40)] {
        for _ in 0..10 {
            let a = ubig(&random_words(&mut rng, n));
            let b = ubig(&random_words(&mut rng, m));
            let g = a.gcd(&b);
            check_is_gcd(&a, &b, &g);
            // with a common factor
            let c = ubig(&random_words(&mut rng, 3));
            let (ac, bc) = (mul_words(a.as_words(), c.as_words()), mul_words(b.as_words(), c.as_words()));
            let gc = ac.gcd(&bc);
            assert_eq!(words(&gc), words(&mul_words(g.as_words(), c.as_words())));
        }
    }
}

#[test]
fn gcd_lehmer_long_operands() {
    let mut rng = rand::rngs::StdRng::seed_from_u64(5);
    // long enough for the guesses from double words
    let a = ubig(&random_words(&mut rng, 320));
    let b = ubig(&random_words(&mut rng, 310));
    let c = ubig(&random_words(&mut rng, 4));
    let (ac, bc) = (mul_words(a.as_words(), c.as_words()), mul_words(b.as_words(), c.as_words()));
    let g = ac.gcd(&bc);
    check_is_gcd(&ac, &bc, &g);
    assert!(g.rem(&c).is_zero());
}

fn small_value(x: &dashu_int::ibig::IBig) -> i128 {
    let m = x.magnitude().as_dword().unwrap() as i128;
    if x.sign() == Sign::Negative { -m } else { m }
}

#[test]
fn gcd_ext_small_cofactors_are_euclidean() {
    let mut rng = rand::rngs::StdRng::seed_from_u64(31);
    for _ in 0..500 {
        let a: u64 = rng.gen_range(1..1_000_000);
        let b: u64 = rng.gen_range(1..1_000_000);
        let (g, x, y) = UBig::from_word(a).gcd_ext(&UBig::from_word(b));
        let g = g.as_dword().unwrap() as i128;
        let (x, y) = (small_value(&x), small_value(&y));
        assert_eq!(a as i128 * x + b as i128 * y, g);
        if a != b {
            assert!(2 * x.abs() * g <= b as i128, "a={a} b={b}");
            assert!(2 * y.abs() * g <= a as i128, "a={a} b={b}");
        }
    }
}
