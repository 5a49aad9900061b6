//! The Legendre, Jacobi and Kronecker symbols.
//!
//! The symbols are defined here as number theory defines them. That the
//! reduction by the law of reciprocity computes them is proved in
//! [`crate::jacobi`].

use vstd::arithmetic::div_mod::*;
use vstd::arithmetic::power::pow;
use vstd::prelude::*;

verus! {

/// `p` is a prime number.
pub open spec fn is_prime(p: nat) -> bool {
    p >= 2 && forall|d: nat| 1 < d < p ==> #[trigger] (p % d) != 0
}

/// The residue of `a^((p - 1) / 2)` modulo `p`.
pub open spec fn euler_residue(a: nat, p: nat) -> int {
    pow(a as int, ((p - 1) / 2) as nat) % (p as int)
}

/// `a` is a quadratic residue modulo `p`: it is congruent to a square.
pub open spec fn is_quadratic_residue(a: nat, p: nat) -> bool {
    exists|x: nat| #[trigger] ((x * x) % p) == a % p
}

/// The Legendre symbol `(a|p)` for an odd prime `p`: 0 when `p` divides
/// `a`, 1 when `a` is a quadratic residue modulo `p` otherwise, and -1 when
/// it is none.
pub open spec fn legendre_symbol(a: nat, p: nat) -> int {
    if a % p == 0 {
        0
    } else if is_quadratic_residue(a, p) {
        1
    } else {
        -1
    }
}

/// The power `a^((p - 1) / 2)` modulo `p`, read as a sign: 0 for 0, 1 for
/// 1, and -1 for every other residue. By Euler's criterion this is the
/// Legendre symbol of an odd prime `p`.
pub open spec fn euler_symbol(a: nat, p: nat) -> int {
    if euler_residue(a, p) == 0 {
        0
    } else if euler_residue(a, p) == 1 {
        1
    } else {
        -1
    }
}

/// The least divisor of `n` that is at least `d`, or `n` if there is none
/// below it.
pub open spec fn least_factor_from(n: nat, d: nat) -> nat
    decreases n - d,
{
    if d == 0 || d >= n {
        n
    } else if n % d == 0 {
        d
    } else {
        least_factor_from(n, d + 1)
    }
}

/// The least divisor of `n` above 1: for `n >= 2` its least prime factor.
pub open spec fn least_factor(n: nat) -> nat {
    least_factor_from(n, 2)
}

/// The least divisor from `d` on lies between `d` and `n` and divides `n`.
pub proof fn lemma_least_factor_from(n: nat, d: nat)
    requires
        1 <= d <= n,
    ensures
        d <= least_factor_from(n, d) <= n,
        n % least_factor_from(n, d) == 0,
        forall|e: nat| d <= e < least_factor_from(n, d) ==> #[trigger] (n % e) != 0,
    decreases n - d,
{
    if d >= n {
        lemma_mod_self_0(n as int);
    } else if n % d != 0 {
        lemma_least_factor_from(n, d + 1);
    }
}

/// The Jacobi symbol `(a|n)` for an odd `n`: the product of the Legendre
/// symbols `(a|p)` over the prime factors `p` of `n`, each as often as it
/// occurs; `(a|1)` is 1. For an even `n` it is 0.
pub open spec fn jacobi_symbol(a: nat, n: nat) -> int
    decreases n,
    via jacobi_symbol_decreases
{
    if n % 2 == 0 {
        0
    } else if n == 1 {
        1
    } else {
        legendre_symbol(a, least_factor(n)) * jacobi_symbol(a, n / least_factor(n))
    }
}

#[via_fn]
proof fn jacobi_symbol_decreases(a: nat, n: nat) {
    if n % 2 == 1 && n != 1 {
        lemma_least_factor_from(n, 2);
        lemma_div_decreases(n as int, least_factor(n) as int);
        lemma_div_pos_is_pos(n as int, least_factor(n) as int);
    }
}

/// The Kronecker symbol `(a|2)`: 0 for an even `a`, 1 when `a` is 1 or 7
/// modulo 8, and -1 when it is 3 or 5.
pub open spec fn kronecker_two(a: nat) -> int {
    if a % 2 == 0 {
        0
    } else if a % 8 == 1 || a % 8 == 7 {
        1
    } else {
        -1
    }
}

/// The Kronecker symbol `(a|n)`, which extends the Jacobi symbol to every
/// `n`: `(a|0)` is 1 for `a = 1` and 0 otherwise, each factor 2 of `n`
/// contributes `(a|2)`, and the odd part of `n` contributes its Jacobi
/// symbol.
pub open spec fn kronecker_symbol(a: nat, n: nat) -> int
    decreases n,
{
    if n == 0 {
        if a == 1 {
            1
        } else {
            0
        }
    } else if n % 2 == 0 {
        kronecker_two(a) * kronecker_symbol(a, n / 2)
    } else {
        jacobi_symbol(a, n)
    }
}

/// The sign of `(2|n)` for an odd `n`: -1 when `n` is 3 or 5 modulo 8, and
/// 1 otherwise.
pub open spec fn two_sign(n: nat) -> int {
    if n % 8 == 3 || n % 8 == 5 {
        -1
    } else {
        1
    }
}

/// The sign by which `(a|n)` and `(n|a)` differ for odd `a` and `n`: -1
/// when both are 3 modulo 4, and 1 otherwise.
pub open spec fn reciprocity_sign(a: nat, n: nat) -> int {
    if a % 4 == 3 && n % 4 == 3 {
        -1
    } else {
        1
    }
}

/// What the reduction by the law of reciprocity computes for `a` and an
/// odd `n`: the value depends on `a` modulo `n` only, it is 1 for `n = 1`
/// and 0 for a multiple `a` of any other `n`, a factor 2 of `a` contributes
/// the sign of `(2|n)`, and for an odd `a` below `n` the two arguments are
/// exchanged, with the sign of reciprocity.
pub open spec fn jacobi_by_reciprocity(a: nat, n: nat) -> int
    decreases n, a,
{
    if n % 2 == 0 {
        0
    } else if n == 1 {
        1
    } else if a == 0 || a % n == 0 {
        0
    } else if a >= n {
        jacobi_by_reciprocity(a % n, n)
    } else if a % 2 == 0 {
        two_sign(n) * jacobi_by_reciprocity(a / 2, n)
    } else {
        reciprocity_sign(a, n) * jacobi_by_reciprocity(n % a, a)
    }
}

/// Multiplying by a sign keeps, clears or negates.
pub proof fn lemma_sign_times(s: int, x: int)
    requires
        -1 <= s <= 1,
    ensures
        s * x == if s == 1 {
            x
        } else if s == 0 {
            0
        } else {
            -x
        },
{
    assert(1 * x == x && 0 * x == 0 && (-1) * x == -x) by (nonlinear_arith);
}

/// The reduction sees its first argument modulo the second only.
pub proof fn lemma_by_reciprocity_periodic(a: nat, n: nat)
    requires
        n % 2 == 1,
    ensures
        jacobi_by_reciprocity(a % n, n) == jacobi_by_reciprocity(a, n),
{
    lemma_mod_bound(a as int, n as int);
    lemma_mod_twice(a as int, n as int);
    if a < n {
        lemma_small_mod(a, n);
    }
}

} // verus!
