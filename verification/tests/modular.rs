use dashu_int::ibig::IBig;
use dashu_int::modular::{pow_mod, ConstDivisor};
use dashu_int::sign::Sign;
use dashu_int::ubig::UBig;
use rand::rngs::StdRng;
use rand::{Rng, SeedableRng};

fn small(x: &UBig) -> u128 {
    x.as_dword().unwrap()
}

fn mersenne(bits: usize) -> Vec<u64> {
    let mut w = vec![u64::MAX; bits / 64];
    if bits % 64 != 0 {
        w.push((1u64 << (bits % 64)) - 1);
    }
    w
}

#[test]
fn test_pow_word() {
    let ring = ConstDivisor::new(UBig::from_word(100));
    let a = ring.reduce(UBig::from_word(17));
    assert_eq!(small(&a.pow(&UBig::zero()).residue()), 1);
    assert_eq!(small(&a.pow(&UBig::from_word(15)).residue()), 93);
}

#[test]
fn sub_in_ring_doc_example() {
    let ring = ConstDivisor::new(UBig::from_word(10000));
    let x = ring.reduce(UBig::from_word(12345));
    let y = ring.reduce(UBig::from_word(55443));
    assert_eq!(small(&x.sub(&y).residue()), 6902);
    assert_eq!(small(&x.add(&y).residue()), (12345 + 55443) % 10000);
    assert_eq!(small(&x.mul(&y).residue()), (2345 * 5443) % 10000);
}

#[test]
fn fermat_little_theorem_mersenne_607() {
    let p = UBig::from_words(&mersenne(607));
    let mut pm1 = mersenne(607);
    pm1[0] -= 1;
    let ring = ConstDivisor::new(p);
    let a = ring.reduce(UBig::from_word(123));
    assert_eq!(small(&a.pow(&UBig::from_words(&pm1)).residue()), 1);
}

#[test]
fn inverse_mersenne_127() {
    let p = UBig::from_words(&mersenne(127));
    let mut pm2 = mersenne(127);
    pm2[0] -= 2;
    let ring = ConstDivisor::new(p);
    let a = ring.reduce(UBig::from_word(123));
    let ainv = a.inv().unwrap();
    let by_pow = a.pow(&UBig::from_words(&pm2));
    assert_eq!(small(&ainv.residue()), small(&by_pow.residue()));
    assert_eq!(small(&a.mul(&ainv).residue()), 1);
}

#[test]
fn inverse_missing() {
    let ring = ConstDivisor::new(UBig::from_word(12));
    assert!(ring.reduce(UBig::from_word(8)).inv().is_none());
    assert!(ring.reduce(UBig::from_word(24)).inv().is_none());
    let five = ring.reduce(UBig::from_word(5)).inv().unwrap();
    assert_eq!(small(&five.residue()), 5);
    let seven = ring.reduce(UBig::from_word(7)).inv().unwrap();
    assert_eq!(small(&seven.residue()), 7);
    let ring = ConstDivisor::new(UBig::from_word(1));
    assert!(ring.reduce(UBig::from_word(3)).inv().is_none());
}

fn naive_pow_mod(b: u64, e: u64, m: u64) -> u64 {
    let mut r: u128 = 1 % m as u128;
    for _ in 0..e {
        r = r * b as u128 % m as u128;
    }
    r as u64
}

#[test]
fn pow_mod_matches_repeated_multiplication() {
    let mut rng = StdRng::seed_from_u64(4);
    for _ in 0..200 {
        let m: u64 = rng.gen_range(1..1_000_000_007);
        let b: u64 = rng.gen();
        let e: u64 = rng.gen_range(0..300);
        let r = pow_mod(&UBig::from_word(b), &UBig::from_word(e), &UBig::from_word(m));
        assert_eq!(small(&r) as u64, naive_pow_mod(b % m, e, m), "b={b} e={e} m={m}");
    }
}

#[test]
fn pow_mod_large_exponent_splits() {
    // b^(x + y) == b^x b^y in the ring, for exponents of several words
    let mut rng = StdRng::seed_from_u64(9);
    let m = UBig::from_words(&[rng.gen(), rng.gen(), rng.gen::<u64>() | 1]);
    let ring = ConstDivisor::new(m.copy());
    let b = ring.reduce(UBig::from_words(&[rng.gen(), rng.gen()]));
    let x: Vec<u64> = (0..5).map(|_| rng.gen::<u64>() >> 1).collect();
    let y: Vec<u64> = (0..5).map(|_| rng.gen::<u64>() >> 1).collect();
    let xy: Vec<u64> = x.iter().zip(y.iter()).map(|(a, b)| a + b).collect();
    let lhs = b.pow(&UBig::from_words(&xy));
    let rhs = b.pow(&UBig::from_words(&x)).mul(&b.pow(&UBig::from_words(&y)));
    assert_eq!(lhs.residue().as_words(), rhs.residue().as_words());
    // and pow_mod agrees with the ring
    let direct = pow_mod(&b.residue(), &UBig::from_words(&xy), &m);
    assert_eq!(direct.as_words(), lhs.residue().as_words());
}

#[test]
fn reduce_signed_doc_example() {
    let ring = ConstDivisor::new(UBig::from_word(100));
    let x = ring.reduce(IBig::from_parts(Sign::Negative, UBig::from_word(1234)));
    let y = ring.reduce(IBig::from_parts(Sign::Positive, UBig::from_word(3366)));
    assert_eq!(small(&x.residue()), 66);
    assert_eq!(small(&y.residue()), 66);
    assert_eq!(small(&ring.reduce(5u64).negate().residue()), 95);
}

#[test]
fn divisor_from_words() {
    let ring = ConstDivisor::from_word(7);
    assert_eq!(small(&ring.reduce(100u64).residue()), 2);
    let ring = ConstDivisor::from_dword(1u128 << 100);
    assert_eq!(small(&ring.modulus()), 1u128 << 100);
    assert_eq!(small(&ring.reduce(u128::MAX).residue()), (1u128 << 100) - 1);
}
