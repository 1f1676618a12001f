use bsgs::arith::ceil_sqrt;
use bsgs::arith::modular_exponentiation;
use bsgs::arith::modular_inverse;

// Plain iterated multiplication, sharing the library's convention that a
// zero base powers to zero.
fn reference_mod_exp(base: u32, exp: u32, n: u32) -> u32 {
    if base == 0 {
        return 0;
    }
    let mut acc: u64 = 1;
    let mut count: u32 = 0;
    while count < exp {
        acc = acc * (base as u64) % (n as u64);
        count += 1;
    }
    acc as u32
}

#[test]
fn modexp_zero_exponent_is_one() {
    for &n in &[1u32, 2, 3, 7, 31, 10_000, u32::MAX] {
        for &base in &[1u32, 2, 5, 31, 1_000_003, u32::MAX] {
            assert_eq!(modular_exponentiation(base, 0, n), 1);
        }
    }
}

#[test]
fn modexp_zero_base_is_zero() {
    for &n in &[1u32, 2, 31, u32::MAX] {
        for &exp in &[0u32, 1, 2, 50, u32::MAX] {
            assert_eq!(modular_exponentiation(0, exp, n), 0);
        }
    }
}

#[test]
fn modexp_matches_iterated_multiplication() {
    let moduli = [1u32, 2, 3, 7, 31, 97, 1_000, 9_973, 10_000];
    let bases = [0u32, 1, 2, 3, 5, 123, 9_999];
    for &n in &moduli {
        for &base in &bases {
            for exp in 0..=50u32 {
                assert_eq!(
                    modular_exponentiation(base, exp, n),
                    reference_mod_exp(base, exp, n),
                );
            }
        }
    }
}

#[test]
fn modexp_concrete_values() {
    assert_eq!(modular_exponentiation(3, 10, 31), 25);
    assert_eq!(modular_exponentiation(3, 25, 31), 6);
    assert_eq!(modular_exponentiation(5, 6, 23), 8);
    assert_eq!(modular_exponentiation(2, 10, 1_000), 24);
    assert_eq!(modular_exponentiation(u32::MAX, 2, u32::MAX - 1), 1);
}

#[test]
fn modinv_times_base_is_one() {
    let primes = [2u32, 3, 5, 7, 11, 13, 23, 31, 97, 101, 65_521];
    for &p in &primes {
        let top = if p - 1 > 200 { 200 } else { p - 1 };
        for base in 1..=top {
            let inv = modular_inverse(base, p);
            assert_eq!((inv as u64) * (base as u64) % (p as u64), 1);
        }
    }
}

#[test]
fn modinv_concrete_values() {
    assert_eq!(modular_inverse(2, 5), 3);
    assert_eq!(modular_inverse(3, 7), 5);
    assert_eq!(modular_inverse(16, 31), 2);
}

#[test]
fn ceil_sqrt_values() {
    assert_eq!(ceil_sqrt(0), 0);
    assert_eq!(ceil_sqrt(1), 1);
    assert_eq!(ceil_sqrt(2), 2);
    assert_eq!(ceil_sqrt(3), 2);
    assert_eq!(ceil_sqrt(4), 2);
    assert_eq!(ceil_sqrt(5), 3);
    assert_eq!(ceil_sqrt(23), 5);
    assert_eq!(ceil_sqrt(31), 6);
    assert_eq!(ceil_sqrt(36), 6);
    assert_eq!(ceil_sqrt(65_535 * 65_535), 65_535);
    assert_eq!(ceil_sqrt(65_535 * 65_535 + 1), 65_536);
    assert_eq!(ceil_sqrt(u32::MAX), 65_536);
}
