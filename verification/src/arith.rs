//! Modular arithmetic primitives: binary modular exponentiation, the Fermat
//! modular inverse built on it, and the integer ceiling square root that the
//! solver uses to size its search.

use vstd::prelude::*;
use vstd::calc;
use vstd::arithmetic::power::pow;
use vstd::arithmetic::power::lemma_pow0;
use vstd::arithmetic::power::lemma_pow1;
use vstd::arithmetic::power::lemma_pow_adds;
use vstd::arithmetic::power::lemma_pow_multiplies;
use vstd::arithmetic::power::lemma_square_is_pow2;
use vstd::arithmetic::power::lemma_pow_mod_noop;
use vstd::arithmetic::div_mod::lemma_mul_mod_noop_general;
use vstd::arithmetic::div_mod::lemma_small_mod;

verus! {

/// `base^exp` reduced modulo `n`, under this library's conventions: a zero
/// base yields 0 whatever the exponent, and a zero exponent with a nonzero
/// base yields 1 even when `n == 1`.
pub open spec fn mod_exp_spec(base: int, exp: nat, n: int) -> int {
    if base == 0 {
        0
    } else if exp == 0 {
        1
    } else {
        pow(base, exp) % n
    }
}

/// One squaring step of binary exponentiation keeps the running product
/// congruent to the target power: reducing the accumulator and the squared
/// base modulo `n` changes nothing modulo `n`.
proof fn lemma_mod_exp_step(inter: int, b: int, e: nat, n: int)
    requires
        n >= 1,
        e > 0,
    ensures
        e % 2 == 1 ==> (((inter * b) % n) * pow((b * b) % n, (e / 2) as nat)) % n == (inter * pow(
            b,
            e,
        )) % n,
        e % 2 == 0 ==> (inter * pow((b * b) % n, (e / 2) as nat)) % n == (inter * pow(b, e)) % n,
{
    let k = (e / 2) as nat;
    lemma_pow_mod_noop(b * b, k, n);
    lemma_square_is_pow2(b);
    lemma_pow_multiplies(b, 2, k);
    assert(pow(b * b, k) == pow(b, 2 * k));
    if e % 2 == 1 {
        lemma_pow_adds(b, 2 * k, 1);
        lemma_pow1(b);
        assert(pow(b, e) == pow(b, 2 * k) * b);
        lemma_mul_mod_noop_general(inter * b, pow((b * b) % n, k), n);
        assert((((inter * b) % n) * pow((b * b) % n, k)) % n == ((inter * b) * pow((b * b) % n, k))
            % n);
        assert(((inter * b) * pow((b * b) % n, k)) % n == ((inter * b) * (pow((b * b) % n, k) % n))
            % n);
        lemma_mul_mod_noop_general(inter * b, pow(b * b, k), n);
        assert(((inter * b) * (pow(b * b, k) % n)) % n == ((inter * b) * pow(b * b, k)) % n);
        vstd::arithmetic::mul::lemma_mul_is_associative(inter, b, pow(b * b, k));
        vstd::arithmetic::mul::lemma_mul_is_commutative(b, pow(b * b, k));
        assert((inter * b) * pow(b * b, k) == inter * pow(b, e));
    } else {
        assert(e == 2 * k);
        lemma_mul_mod_noop_general(inter, pow((b * b) % n, k), n);
        assert((inter * pow((b * b) % n, k)) % n == (inter * (pow((b * b) % n, k) % n)) % n);
        lemma_mul_mod_noop_general(inter, pow(b * b, k), n);
        assert((inter * (pow(b * b, k) % n)) % n == (inter * pow(b * b, k)) % n);
    }
}

/// Binary (square-and-multiply) modular exponentiation: repeatedly square the
/// base modulo `n`, folding the base into the accumulator whenever the
/// corresponding bit of the exponent is set, from the least-significant bit
/// upward. Intermediate products are taken in 64 bits, so no reduction step
/// can overflow.
#[verifier::loop_isolation(false)]
pub fn modular_exponentiation(base: u32, exp: u32, n: u32) -> (r: u32)
    requires
        n >= 1,
    ensures
        r == mod_exp_spec(base as int, exp as nat, n as int),
        base == 0 ==> r == 0,
        base != 0 && exp == 0 ==> r == 1,
{
    if base == 0 {
        return 0;
    }
    let nn: u64 = n as u64;
    let mut intermediate: u64 = 1;
    let mut b: u64 = base as u64;
    let mut e: u32 = exp;

    while e != 0
        invariant
            b <= 0xffff_ffff,
            intermediate <= 0xffff_ffff,
            exp == 0 ==> e == 0 && intermediate == 1,
            e == 0 && exp != 0 ==> intermediate < n,
            (intermediate * pow(b as int, e as nat)) % (n as int) == pow(
                base as int,
                exp as nat,
            ) % (n as int),
        decreases e,
    {
        proof {
            lemma_mod_exp_step(intermediate as int, b as int, e as nat, n as int);
        }
        if e % 2 != 0 {
            assert(intermediate * b <= 0xffff_ffff * 0xffff_ffff) by (nonlinear_arith)
                requires
                    intermediate <= 0xffff_ffff,
                    b <= 0xffff_ffff,
            ;
            intermediate = (intermediate * b) % nn;
        }
        e = e / 2;
        assert(b * b <= 0xffff_ffff * 0xffff_ffff) by (nonlinear_arith)
            requires
                b <= 0xffff_ffff,
        ;
        b = (b * b) % nn;
    }
    proof {
        lemma_pow0(b as int);
        if exp != 0 {
            lemma_small_mod(intermediate as nat, n as nat);
        }
    }
    intermediate as u32
}

/// Holds when `m` is the least nonnegative integer whose square reaches `n`.
pub open spec fn is_ceil_sqrt(n: int, m: int) -> bool {
    &&& 0 <= m
    &&& n <= m * m
    &&& m > 0 ==> (m - 1) * (m - 1) < n
}

/// The least nonnegative integer whose square reaches `n`: the ceiling of
/// the square root of `n`.
pub open spec fn spec_ceil_sqrt(n: int) -> int {
    choose|m: int| is_ceil_sqrt(n, m)
}

/// No two integers satisfy the ceiling-square-root characterization.
pub proof fn lemma_ceil_sqrt_unique(n: int, m1: int, m2: int)
    requires
        is_ceil_sqrt(n, m1),
        is_ceil_sqrt(n, m2),
    ensures
        m1 == m2,
{
    if m1 < m2 {
        assert(false) by (nonlinear_arith)
            requires
                0 <= m1 < m2,
                n <= m1 * m1,
                (m2 - 1) * (m2 - 1) < n,
        ;
    }
    if m2 < m1 {
        assert(false) by (nonlinear_arith)
            requires
                0 <= m2 < m1,
                n <= m2 * m2,
                (m1 - 1) * (m1 - 1) < n,
        ;
    }
}

/// A ceiling square root exists for every nonnegative integer.
pub proof fn lemma_ceil_sqrt_exists(n: int)
    requires
        0 <= n,
    ensures
        is_ceil_sqrt(n, spec_ceil_sqrt(n)),
    decreases n,
{
    if n == 0 {
        assert(is_ceil_sqrt(0, 0));
    } else {
        lemma_ceil_sqrt_exists(n - 1);
        let p = spec_ceil_sqrt(n - 1);
        if n <= p * p {
            assert(is_ceil_sqrt(n, p));
        } else {
            assert(p * p == n - 1);
            assert((p + 1) * (p + 1) >= n) by (nonlinear_arith)
                requires
                    0 <= p,
                    p * p == n - 1,
            ;
            assert(is_ceil_sqrt(n, p + 1));
        }
    }
    let w = choose|m: int| is_ceil_sqrt(n, m);
    assert(is_ceil_sqrt(n, w));
}

/// Integer ceiling square root: the least `m` with `m * m >= n`. This is the
/// search radius of the baby-step giant-step solver.
#[verifier::loop_isolation(false)]
pub fn ceil_sqrt(n: u32) -> (m: u32)
    ensures
        m == spec_ceil_sqrt(n as int),
        is_ceil_sqrt(n as int, m as int),
        m <= 0x10000,
{
    let mut m: u32 = 0;
    let mut sq: u64 = 0;
    while sq < n as u64
        invariant
            sq == (m as int) * (m as int),
            m <= 0x10000,
            m > 0 ==> ((m - 1) as int) * ((m - 1) as int) < n,
        decreases n - m,
    {
        assert(m as int <= (m as int) * (m as int)) by (nonlinear_arith);
        assert(m < 0x10000) by (nonlinear_arith)
            requires
                m <= 0x10000,
                (m as int) * (m as int) < n,
                n < 0x1_0000_0000,
        ;
        assert((m + 1) as int * ((m + 1) as int) <= 0x1_0000_0000) by (nonlinear_arith)
            requires
                m < 0x10000,
        ;
        assert((m as int) * (m as int) < ((m + 1) as int) * ((m + 1) as int)) by (nonlinear_arith)
            requires
                m < 0x10000,
        ;
        m = m + 1;
        sq = (m as u64) * (m as u64);
    }
    proof {
        assert(is_ceil_sqrt(n as int, m as int));
        lemma_ceil_sqrt_exists(n as int);
        lemma_ceil_sqrt_unique(n as int, m as int, spec_ceil_sqrt(n as int));
    }
    m
}

/// Modular inverse by Fermat's little theorem: `base^(n-2) mod n`, the true
/// multiplicative inverse when `n` is prime and `base` is no multiple of `n`.
/// For other inputs the value returned is exactly this power, nothing more.
pub fn modular_inverse(base: u32, n: u32) -> (r: u32)
    requires
        n >= 2,
    ensures
        r == mod_exp_spec(base as int, (n - 2) as nat, n as int),
{
    modular_exponentiation(base, n - 2, n)
}

} // verus!
