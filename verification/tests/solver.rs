use bsgs::arith::modular_exponentiation;
use bsgs::solver::baby_step_giant_step;
use bsgs::solver::SolveError;

#[test]
fn group_31_generator_3_target_6() {
    // 3 generates the full group mod 31; the least exponent with
    // 3^x mod 31 == 6 is 25.
    let x = baby_step_giant_step(31, 3, 6).unwrap();
    assert_eq!(modular_exponentiation(3, x, 31), 6);
    assert_eq!(x, 25);
}

#[test]
fn group_23_generator_5_target_8() {
    let x = baby_step_giant_step(23, 5, 8).unwrap();
    assert_eq!(modular_exponentiation(5, x, 23), 8);
    assert_eq!(x, 6);
}

#[test]
fn round_trip_full_group_mod_31() {
    // 3 has order 30 mod 31, so every nonzero residue is some power of 3 and
    // every solve must come back with a matching exponent.
    for beta in 1..31u32 {
        let x = baby_step_giant_step(31, 3, beta).unwrap();
        assert_eq!(modular_exponentiation(3, x, 31), beta);
    }
}

#[test]
fn unreachable_target_is_not_found() {
    // 2 has order 3 mod 7: its powers are only 1, 2 and 4.
    assert_eq!(baby_step_giant_step(7, 2, 3), Err(SolveError::NotFound));
    // 5 has order 3 mod 31: its powers are only 1, 5 and 25.
    assert_eq!(baby_step_giant_step(31, 5, 2), Err(SolveError::NotFound));
}

#[test]
fn target_outside_group_is_not_found() {
    assert_eq!(baby_step_giant_step(5, 2, 0), Err(SolveError::NotFound));
}

#[test]
fn degenerate_generator_keeps_last_baby_step() {
    // 5 has order 3 mod 31, so the baby steps repeat 1, 5, 25 and each
    // repeated value overwrites the earlier exponent: the entry for 5 ends
    // as j == 4, and the first giant step already hits it.
    let x = baby_step_giant_step(31, 5, 5).unwrap();
    assert_eq!(x, 4);
    assert_eq!(modular_exponentiation(5, x, 31), 5);
}

#[test]
fn smallest_group_order() {
    let x = baby_step_giant_step(2, 1, 1).unwrap();
    assert_eq!(modular_exponentiation(1, x, 2), 1);
    assert_eq!(x, 1);
}

#[test]
fn large_prime_round_trip() {
    // 65537 is prime and 3 generates its full multiplicative group.
    let p: u32 = 65_537;
    for &exp in &[0u32, 1, 2, 1_000, 40_000, 65_535] {
        let beta = modular_exponentiation(3, exp, p);
        let x = baby_step_giant_step(p, 3, beta).unwrap();
        assert_eq!(modular_exponentiation(3, x, p), beta);
    }
}
