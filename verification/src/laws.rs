//! The solver's correctness laws. The solver's own contract pins its result
//! down to table hits of the giant-step walk; the laws here turn a hit into a
//! discrete logarithm and a representable logarithm into a hit, under the one
//! hypothesis the algorithm rests on: that the computed giant-step multiplier
//! truly inverts the giant-step factor modulo `n`. Fermat's little theorem
//! grants that hypothesis whenever `n` is prime and the factor is no multiple
//! of `n`; the solver does not check it, and for other inputs its answer is
//! exactly as meaningful as the hypothesis.

use vstd::prelude::*;
use vstd::arithmetic::power::pow;
use vstd::arithmetic::power::lemma_pow0;
use vstd::arithmetic::power::lemma1_pow;
use vstd::arithmetic::power::lemma_pow_adds;
use vstd::arithmetic::power::lemma_pow_multiplies;
use vstd::arithmetic::power::lemma_pow_mod_noop;
use vstd::arithmetic::power::lemma_pow_distributes;
use vstd::arithmetic::div_mod::lemma_mul_mod_noop_general;
use vstd::arithmetic::div_mod::lemma_small_mod;
use vstd::arithmetic::div_mod::lemma_mod_bound;
use vstd::arithmetic::div_mod::lemma_fundamental_div_mod;
use crate::arith::lemma_ceil_sqrt_exists;
use crate::arith::mod_exp_spec;
use crate::arith::spec_ceil_sqrt;
use crate::solver::cursor_at;
use crate::solver::giant_factor;
use crate::solver::giant_inverse;
use crate::solver::hit_at;
use crate::solver::lemma_baby_table_props;
use crate::solver::lemma_mod_exp_fits;
use crate::solver::solver_table;

verus! {

/// Replacing a factor by one congruent to it modulo `n` does not change a
/// product modulo `n`.
proof fn lemma_mul_mod_subst(a: int, b: int, c: int, n: int)
    requires
        1 <= n,
        b % n == c % n,
    ensures
        (a * b) % n == (a * c) % n,
{
    lemma_mul_mod_noop_general(a, b, n);
    lemma_mul_mod_noop_general(a, c, n);
}

/// For a nonzero base and a modulus of at least 2, the library's power
/// convention coincides with the mathematical `pow(base, e) % n` at every
/// exponent, the zero exponent included.
proof fn lemma_mod_exp_as_pow(alpha: int, e: nat, n: int)
    requires
        2 <= n,
        alpha != 0,
    ensures
        mod_exp_spec(alpha, e, n) == pow(alpha, e) % n,
{
    if e == 0 {
        lemma_pow0(alpha);
        lemma_small_mod(1nat, n as nat);
    }
}

/// A giant-step multiplier that inverts the giant-step factor modulo `n` can
/// only arise from a nonzero generator: a zero base powers to zero, and zero
/// times anything is no unit.
proof fn lemma_inverse_needs_nonzero(n: int, alpha: int)
    requires
        2 <= n,
        (giant_inverse(n, alpha) * giant_factor(n, alpha)) % n == 1,
    ensures
        alpha != 0,
{
    if alpha == 0 {
        assert(giant_factor(n, alpha) == 0);
        assert(giant_inverse(n, alpha) * 0 == 0);
        lemma_small_mod(0nat, n as nat);
    }
}

/// The cursor before giant step `i` in closed form: `beta * v^i mod n`, for
/// `v` the giant-step multiplier.
proof fn lemma_cursor_closed_form(n: int, alpha: int, beta: int, i: nat)
    requires
        1 <= n,
        0 <= beta < n,
    ensures
        cursor_at(n, alpha, beta, i) == (beta * pow(giant_inverse(n, alpha), i)) % n,
    decreases i,
{
    let v = giant_inverse(n, alpha);
    if i == 0 {
        lemma_pow0(v);
        lemma_small_mod(beta as nat, n as nat);
    } else {
        let p = (i - 1) as nat;
        lemma_cursor_closed_form(n, alpha, beta, p);
        lemma_mul_mod_noop_general(beta * pow(v, p), v, n);
        vstd::arithmetic::power::lemma_pow1(v);
        lemma_pow_adds(v, 1, p);
        assert(pow(v, i) == v * pow(v, p));
        vstd::arithmetic::mul::lemma_mul_is_associative(beta, pow(v, p), v);
        vstd::arithmetic::mul::lemma_mul_is_commutative(v, pow(v, p));
    }
}

/// `v^i * g^i` is congruent to 1 modulo `n` whenever `v * g` is: powers of a
/// unit stay units, with `pow(v*g, i) % n == 1 % n`.
proof fn lemma_pow_of_unit(n: int, v: int, g: int, i: nat)
    requires
        2 <= n,
        (v * g) % n == 1,
    ensures
        (pow(v, i) * pow(g, i)) % n == 1int % n,
        pow(v * g, i) % n == 1int % n,
{
    lemma_pow_distributes(v, g, i);
    lemma_pow_mod_noop(v * g, i, n);
    lemma1_pow(i);
    assert(pow((v * g) % n, i) == 1);
}

/// Correctness of a table hit. When the giant-step multiplier truly inverts
/// the giant-step factor modulo `n` — as Fermat's little theorem guarantees
/// for a prime `n` and a generator no multiple of `n` — a baby-step exponent
/// `j` whose power equals the cursor at giant step `i` yields a discrete
/// logarithm: `alpha^(i*m + j) mod n == beta`, for `m` the ceiling square
/// root of `n`. Together with the solver's contract this makes every `Ok(x)`
/// a true solution under that hypothesis.
pub proof fn lemma_hit_yields_solution(n: int, alpha: int, beta: int, i: nat, j: nat)
    requires
        2 <= n,
        0 <= beta < n,
        (giant_inverse(n, alpha) * giant_factor(n, alpha)) % n == 1,
        mod_exp_spec(alpha, j, n) == cursor_at(n, alpha, beta, i),
    ensures
        1 <= spec_ceil_sqrt(n),
        mod_exp_spec(alpha, (i * spec_ceil_sqrt(n) + j) as nat, n) == beta,
{
    lemma_ceil_sqrt_exists(n);
    let mm = spec_ceil_sqrt(n);
    assert(1 <= mm) by (nonlinear_arith)
        requires
            0 <= mm,
            2 <= n,
            n <= mm * mm,
    ;
    let g = giant_factor(n, alpha);
    let v = giant_inverse(n, alpha);
    lemma_inverse_needs_nonzero(n, alpha);
    let x = (i * mm + j) as nat;

    lemma_mod_exp_as_pow(alpha, j, n);
    lemma_mod_exp_as_pow(alpha, x, n);
    lemma_mod_exp_as_pow(alpha, mm as nat, n);
    assert(g == pow(alpha, mm as nat) % n);
    lemma_cursor_closed_form(n, alpha, beta, i);

    let qq = pow(pow(alpha, mm as nat), i);
    let pp = pow(alpha, j);
    let gg = pow(g, i);
    let vv = pow(v, i);

    lemma_pow_adds(alpha, (i * mm) as nat, j);
    lemma_pow_multiplies(alpha, mm as nat, i);
    assert(pow(alpha, x) == qq * pp);

    lemma_pow_mod_noop(pow(alpha, mm as nat), i, n);
    assert(qq % n == gg % n);
    lemma_mul_mod_subst(pp, qq, gg, n);
    assert((pp * qq) % n == (pp * gg) % n);

    assert(pp % n == (beta * vv) % n);
    lemma_mul_mod_subst(gg, pp, beta * vv, n);
    assert((gg * pp) % n == (gg * (beta * vv)) % n);

    vstd::arithmetic::mul::lemma_mul_is_associative(beta, vv, gg);
    vstd::arithmetic::mul::lemma_mul_is_commutative(gg, beta * vv);
    lemma_pow_distributes(v, g, i);
    assert(gg * (beta * vv) == beta * (vv * gg));
    assert(gg * (beta * vv) == beta * pow(v * g, i));

    lemma_pow_of_unit(n, v, g, i);
    lemma_mul_mod_subst(beta, pow(v * g, i), 1, n);
    lemma_small_mod(beta as nat, n as nat);
    assert((beta * pow(v * g, i)) % n == beta);
    assert(pow(alpha, x) % n == beta);
}

/// Completeness of the search. When the giant-step multiplier truly inverts
/// the giant-step factor modulo `n`, every target `beta == alpha^x mod n`
/// with `x` below `m*m` is found: the giant-step walk reaches a cursor that
/// the baby-step table holds. Together with the solver's contract this rules
/// out `NotFound` for any such target under that hypothesis.
pub proof fn lemma_solution_yields_hit(n: int, alpha: int, x: nat)
    requires
        2 <= n <= 0x1_0000_0000,
        0 <= alpha,
        (giant_inverse(n, alpha) * giant_factor(n, alpha)) % n == 1,
        x < spec_ceil_sqrt(n) * spec_ceil_sqrt(n),
    ensures
        exists|i: nat|
            i < spec_ceil_sqrt(n) && #[trigger] hit_at(n, alpha, mod_exp_spec(alpha, x, n), i),
{
    lemma_ceil_sqrt_exists(n);
    let mm = spec_ceil_sqrt(n);
    assert(1 <= mm) by (nonlinear_arith)
        requires
            0 <= mm,
            2 <= n,
            n <= mm * mm,
    ;
    assert(mm <= 0x10000) by (nonlinear_arith)
        requires
            1 <= mm,
            (mm - 1) * (mm - 1) < 0x1_0000_0000,
    ;
    let g = giant_factor(n, alpha);
    let v = giant_inverse(n, alpha);
    lemma_inverse_needs_nonzero(n, alpha);

    lemma_fundamental_div_mod(x as int, mm);
    lemma_mod_bound(x as int, mm);
    let i = ((x as int) / mm) as nat;
    let j = ((x as int) % mm) as nat;
    assert(x == mm * i + j);
    vstd::arithmetic::div_mod::lemma_div_pos_is_pos(x as int, mm);
    assert(i < mm) by (nonlinear_arith)
        requires
            1 <= mm,
            0 <= i,
            0 <= j,
            x == mm * i + j,
            x < mm * mm,
    ;

    let beta = mod_exp_spec(alpha, x, n);
    lemma_mod_exp_as_pow(alpha, x, n);
    lemma_mod_bound(pow(alpha, x), n);
    assert(0 <= beta < n);

    lemma_cursor_closed_form(n, alpha, beta, i);
    let qq = pow(pow(alpha, mm as nat), i);
    let pp = pow(alpha, j);
    let gg = pow(g, i);
    let vv = pow(v, i);

    lemma_pow_adds(alpha, (mm * i) as nat, j);
    lemma_pow_multiplies(alpha, mm as nat, i);
    assert(pow(alpha, x) == qq * pp);

    lemma_mul_mod_noop_general(pow(alpha, x), vv, n);
    assert((beta * vv) % n == ((qq * pp) * vv) % n);

    lemma_mod_exp_as_pow(alpha, mm as nat, n);
    lemma_pow_mod_noop(pow(alpha, mm as nat), i, n);
    assert(qq % n == gg % n);
    lemma_mul_mod_subst(pp * vv, qq, gg, n);
    assert(((pp * vv) * qq) % n == ((pp * vv) * gg) % n);
    assert((qq * pp) * vv == (pp * vv) * qq) by {
        vstd::arithmetic::mul::lemma_mul_is_associative(qq, pp, vv);
        vstd::arithmetic::mul::lemma_mul_is_commutative(qq, pp * vv);
    }

    vstd::arithmetic::mul::lemma_mul_is_associative(pp, vv, gg);
    lemma_pow_distributes(v, g, i);
    assert((pp * vv) * gg == pp * pow(v * g, i));

    lemma_pow_of_unit(n, v, g, i);
    lemma_mul_mod_subst(pp, pow(v * g, i), 1, n);
    lemma_mod_exp_as_pow(alpha, j, n);
    assert(cursor_at(n, alpha, beta, i) == (pp * 1) % n);
    assert(cursor_at(n, alpha, beta, i) == mod_exp_spec(alpha, j, n));

    lemma_mod_exp_fits(alpha, j, n);
    lemma_baby_table_props(alpha, n, mm as nat);
    let k = mod_exp_spec(alpha, j, n) as u32;
    assert(j < mm as nat && mod_exp_spec(alpha, j, n) == k as int);
    assert(solver_table(n, alpha).contains_key(k));
    assert(hit_at(n, alpha, beta, i));
}

} // verus!
