//! The baby-step giant-step discrete-logarithm solver: a table of baby steps
//! `alpha^j mod n` for `j` below the ceiling square root `m` of `n`, then up
//! to `m` giant steps that multiply the target by the inverse of `alpha^m`
//! until the cursor lands on a table entry.

use std::collections::HashMap;
use vstd::prelude::*;
use vstd::arithmetic::div_mod::lemma_mod_bound;
use crate::arith::ceil_sqrt;
use crate::arith::mod_exp_spec;
use crate::arith::modular_exponentiation;
use crate::arith::modular_inverse;
use crate::arith::spec_ceil_sqrt;

verus! {

/// The one recoverable outcome of a solve: no exponent in the searched range
/// maps the generator to the target.
#[derive(Clone, Copy, Debug, PartialEq, Eq, Structural)]
pub enum SolveError {
    NotFound,
}

/// The baby-step table once entries for the exponents below `count` have
/// been recorded: `alpha^j mod n` maps to `j`, a later `j` overwriting an
/// earlier one when a degenerate generator repeats a value.
pub open spec fn baby_table(alpha: int, n: int, count: nat) -> Map<u32, u32>
    decreases count,
{
    if count == 0 {
        Map::empty()
    } else {
        baby_table(alpha, n, (count - 1) as nat).insert(
            mod_exp_spec(alpha, (count - 1) as nat, n) as u32,
            (count - 1) as u32,
        )
    }
}

/// The giant-step factor `alpha^m mod n`, for `m` the ceiling square root
/// of `n`.
pub open spec fn giant_factor(n: int, alpha: int) -> int {
    mod_exp_spec(alpha, spec_ceil_sqrt(n) as nat, n)
}

/// The multiplier each giant step applies: the Fermat power `g^(n-2) mod n`
/// of the giant-step factor `g`, which inverts it exactly when `n` is prime
/// and `g` is no multiple of `n`.
pub open spec fn giant_inverse(n: int, alpha: int) -> int {
    mod_exp_spec(giant_factor(n, alpha), (n - 2) as nat, n)
}

/// The search cursor before giant step `i`: the target `beta` multiplied `i`
/// times by the giant-step multiplier, reduced modulo `n` at every step.
pub open spec fn cursor_at(n: int, alpha: int, beta: int, i: nat) -> int
    decreases i,
{
    if i == 0 {
        beta
    } else {
        (cursor_at(n, alpha, beta, (i - 1) as nat) * giant_inverse(n, alpha)) % n
    }
}

/// The table the solver searches: baby steps for every exponent below the
/// ceiling square root of `n`.
pub open spec fn solver_table(n: int, alpha: int) -> Map<u32, u32> {
    baby_table(alpha, n, spec_ceil_sqrt(n) as nat)
}

/// Whether giant step `i` finds its cursor among the baby steps.
pub open spec fn hit_at(n: int, alpha: int, beta: int, i: nat) -> bool {
    solver_table(n, alpha).contains_key(cursor_at(n, alpha, beta, i) as u32)
}

/// Every baby-step power lies in `[0, 2^32)`, so recording it under a 32-bit
/// key loses nothing.
pub proof fn lemma_mod_exp_fits(alpha: int, exp: nat, n: int)
    requires
        0 <= alpha,
        1 <= n <= 0x1_0000_0000,
    ensures
        0 <= mod_exp_spec(alpha, exp, n) < 0x1_0000_0000,
{
    if alpha != 0 && exp != 0 {
        lemma_mod_bound(vstd::arithmetic::power::pow(alpha, exp), n);
    }
}

/// What the baby-step table holds: a key is present exactly when it is some
/// power `alpha^j mod n` with `j` below `count`, and the exponent recorded
/// under a key maps back to that key.
pub proof fn lemma_baby_table_props(alpha: int, n: int, count: nat)
    requires
        0 <= alpha,
        1 <= n <= 0x1_0000_0000,
        count <= 0x1_0000_0000,
    ensures
        forall|k: u32| #[trigger]
            baby_table(alpha, n, count).contains_key(k) <==> exists|j: nat|
                j < count && #[trigger] mod_exp_spec(alpha, j, n) == k as int,
        forall|k: u32| #[trigger]
            baby_table(alpha, n, count).contains_key(k) ==> baby_table(alpha, n, count)[k] < count
                && mod_exp_spec(alpha, baby_table(alpha, n, count)[k] as nat, n) == k as int,
    decreases count,
{
    if count > 0 {
        let prev = (count - 1) as nat;
        lemma_baby_table_props(alpha, n, prev);
        lemma_mod_exp_fits(alpha, prev, n);
        let v = mod_exp_spec(alpha, prev, n);
        assert((v as u32) as int == v);
        let t = baby_table(alpha, n, count);
        let t0 = baby_table(alpha, n, prev);
        assert(t == t0.insert(v as u32, prev as u32));
        assert forall|k: u32| #[trigger] t.contains_key(k) implies exists|j: nat|
            j < count && #[trigger] mod_exp_spec(alpha, j, n) == k as int by {
            if k == v as u32 {
                assert(mod_exp_spec(alpha, prev, n) == k as int);
            } else {
                assert(t0.contains_key(k));
            }
        }
        assert forall|k: u32|
            exists|j: nat| j < count && #[trigger] mod_exp_spec(alpha, j, n) == k as int implies #[trigger] t.contains_key(
            k,
        ) by {
            let j = choose|j: nat| j < count && #[trigger] mod_exp_spec(alpha, j, n) == k as int;
            if j == prev {
                assert(k as int == v);
                assert(k == v as u32);
            } else {
                assert(j < prev && mod_exp_spec(alpha, j, n) == k as int);
                assert(t0.contains_key(k));
            }
        }
        assert forall|k: u32| #[trigger] t.contains_key(k) implies t[k] < count && mod_exp_spec(
            alpha,
            t[k] as nat,
            n,
        ) == k as int by {
            if k == v as u32 {
                assert(t[k] == prev as u32);
            } else {
                assert(t0.contains_key(k) && t[k] == t0[k]);
            }
        }
    }
}

/// Baby-step giant-step: find `x` with `alpha^x mod n == beta` within the
/// range `[0, m*m)` for `m` the ceiling square root of `n`, walking the
/// giant steps in increasing order and reporting the first table hit, or
/// `NotFound` when no giant step lands on a recorded baby step.
#[verifier::loop_isolation(false)]
pub fn baby_step_giant_step(n: u32, alpha: u32, beta: u32) -> (r: Result<u32, SolveError>)
    requires
        n >= 2,
    ensures
        match r {
            Ok(x) => exists|i: nat|
                i < spec_ceil_sqrt(n as int) && #[trigger] hit_at(
                    n as int,
                    alpha as int,
                    beta as int,
                    i,
                ) && (forall|i2: nat|
                    i2 < i ==> !hit_at(n as int, alpha as int, beta as int, i2)) && x == i
                    * spec_ceil_sqrt(n as int) + solver_table(n as int, alpha as int)[cursor_at(
                    n as int,
                    alpha as int,
                    beta as int,
                    i,
                ) as u32],
            Err(e) => e == SolveError::NotFound && forall|i: nat|
                i < spec_ceil_sqrt(n as int) ==> !hit_at(n as int, alpha as int, beta as int, i),
        },
{
    let m = ceil_sqrt(n);
    let mut precomp: HashMap<u32, u32> = HashMap::new();

    let mut j: u32 = 0;
    while j < m
        invariant
            j <= m,
            precomp@ == baby_table(alpha as int, n as int, j as nat),
        decreases m - j,
    {
        let key = modular_exponentiation(alpha, j, n);
        precomp.insert(key, j);
        j = j + 1;
    }

    let am = modular_exponentiation(alpha, m, n);
    let invgenerator = modular_inverse(am, n);
    assert(invgenerator == giant_inverse(n as int, alpha as int));

    let mut y: u32 = beta;
    let mut i: u32 = 0;
    while i < m
        invariant
            i <= m,
            y == cursor_at(n as int, alpha as int, beta as int, i as nat),
            forall|i2: nat| i2 < i ==> !hit_at(n as int, alpha as int, beta as int, i2),
        decreases m - i,
    {
        match precomp.get(&y) {
            Some(value) => {
                proof {
                    lemma_baby_table_props(alpha as int, n as int, m as nat);
                    assert(hit_at(n as int, alpha as int, beta as int, i as nat));
                    assert(*value < m);
                    assert(i as int * (m as int) + *value < 0x1_0000_0000) by (nonlinear_arith)
                        requires
                            i < m,
                            *value < m,
                            m <= 0x10000,
                    ;
                }
                let x = i * m + *value;
                proof {
                    let wi = i as nat;
                    assert(wi < spec_ceil_sqrt(n as int) && hit_at(
                        n as int,
                        alpha as int,
                        beta as int,
                        wi,
                    ) && (forall|i2: nat|
                        i2 < wi ==> !hit_at(n as int, alpha as int, beta as int, i2)) && x == wi
                        * spec_ceil_sqrt(n as int) + solver_table(n as int, alpha as int)[cursor_at(
                        n as int,
                        alpha as int,
                        beta as int,
                        wi,
                    ) as u32]);
                }
                return Ok(x);
            },
            None => {},
        }
        proof {
            assert(!hit_at(n as int, alpha as int, beta as int, i as nat));
            assert(y as u64 * (invgenerator as u64) <= 0xffff_ffff * 0xffff_ffff)
                by (nonlinear_arith)
                requires
                    y <= 0xffff_ffff,
                    invgenerator <= 0xffff_ffff,
            ;
        }
        y = (((y as u64) * (invgenerator as u64)) % (n as u64)) as u32;
        i = i + 1;
    }
    Err(SolveError::NotFound)
}

} // verus!
