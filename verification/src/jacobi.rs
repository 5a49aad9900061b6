//! Properties of the Jacobi and Kronecker symbols.

use crate::arith::{lemma_divisible, lemma_multiple_mod};
use crate::euler::lemma_euler_symbol_is_gauss_sign;
use crate::gauss::{
    gauss_sign, lemma_by_reciprocity_is_gauss_sign, lemma_gauss_sign_below_product,
    lemma_gauss_sign_of_multiple, lemma_gauss_sign_of_product, lemma_gauss_sign_of_two,
    lemma_gauss_sign_periodic, lemma_product_parity, lemma_reciprocity,
};
use crate::gcd::{gcd, lemma_gcd_even};
use crate::pairing::lemma_legendre_is_euler_symbol;
use crate::symbol::{
    euler_residue, euler_symbol, is_prime, jacobi_by_reciprocity, jacobi_symbol,
    kronecker_symbol, kronecker_two, least_factor, legendre_symbol, lemma_least_factor_from,
    lemma_sign_times, reciprocity_sign, two_sign,
};
use vstd::arithmetic::div_mod::*;
use vstd::prelude::*;

verus! {

/// The least factor above 1 of a number above 1 is a prime that divides
/// it.
pub proof fn lemma_least_factor_is_prime(n: nat)
    requires
        n >= 2,
    ensures
        is_prime(least_factor(n)),
        n % least_factor(n) == 0,
        least_factor(n) <= n,
{
    let p = least_factor(n);
    lemma_least_factor_from(n, 2);
    assert forall|d: nat| 1 < d < p implies #[trigger] (p % d) != 0 by {
        if p % d == 0 {
            // d divides p, which divides n
            lemma_divisible(p as int, d as int);
            lemma_divisible(n as int, p as int);
            let x = (p as int) / (d as int);
            let y = (n as int) / (p as int);
            assert(n == (x * y) * d) by (nonlinear_arith)
                requires
                    p == d * x,
                    n == p * y,
            ;
            lemma_multiple_mod(x * y, d as int);
            assert(n % d != 0);
        }
    }
}

/// The Jacobi symbol is the sign of Gauss's lemma: for an odd `n` and an
/// `a` coprime to it, `(a|n)` is 1 or -1 as multiplication by `a` takes an
/// even or odd number of members of the half system of `n` to negatives of
/// members, and it is 0 when `a` and `n` have a common factor.
pub proof fn lemma_jacobi_is_gauss_sign(a: nat, n: nat)
    requires
        n % 2 == 1,
    ensures
        jacobi_symbol(a, n) == gauss_sign(a, n),
    decreases n,
{
    if n == 1 {
        lemma_mod_bound(a as int, 1);
        lemma_gauss_sign_of_multiple(a, 1);
    } else {
        let p = least_factor(n);
        let q = n / p;
        lemma_least_factor_is_prime(n);
        lemma_divisible(n as int, p as int);
        lemma_div_decreases(n as int, p as int);
        lemma_div_pos_is_pos(n as int, p as int);
        // the factors of an odd number are odd
        lemma_product_parity(p as int, q as int);
        lemma_legendre_is_euler_symbol(a, p);
        lemma_euler_symbol_is_gauss_sign(a, p);
        lemma_jacobi_is_gauss_sign(a, q);
        lemma_gauss_sign_below_product(a, p, q);
    }
}

/// The reduction by the law of reciprocity computes the Jacobi symbol.
pub proof fn lemma_jacobi_by_reciprocity(a: nat, n: nat)
    requires
        n % 2 == 1,
    ensures
        jacobi_by_reciprocity(a, n) == jacobi_symbol(a, n),
{
    lemma_by_reciprocity_is_gauss_sign(a, n);
    lemma_jacobi_is_gauss_sign(a, n);
}

/// The Jacobi symbol is -1, 0 or 1.
pub proof fn lemma_jacobi_range(a: nat, n: nat)
    ensures
        -1 <= jacobi_symbol(a, n) <= 1,
{
    if n % 2 == 1 {
        lemma_jacobi_is_gauss_sign(a, n);
    }
}

/// The Jacobi symbol vanishes exactly when its arguments have a common
/// factor.
pub proof fn lemma_jacobi_zero(a: nat, n: nat)
    requires
        n % 2 == 1,
    ensures
        jacobi_symbol(a, n) == 0 <==> gcd(a, n) != 1,
{
    lemma_jacobi_is_gauss_sign(a, n);
}

/// The Jacobi symbol depends on its upper argument modulo the lower only.
pub proof fn lemma_jacobi_periodic(a: nat, n: nat)
    requires
        n % 2 == 1,
    ensures
        jacobi_symbol(a % n, n) == jacobi_symbol(a, n),
{
    lemma_jacobi_is_gauss_sign(a, n);
    lemma_jacobi_is_gauss_sign(a % n, n);
    lemma_gauss_sign_periodic(a, n);
}

/// The Jacobi symbol is multiplicative in its upper argument.
pub proof fn lemma_jacobi_of_product(a: nat, b: nat, n: nat)
    requires
        n % 2 == 1,
    ensures
        jacobi_symbol(a * b, n) == jacobi_symbol(a, n) * jacobi_symbol(b, n),
{
    lemma_jacobi_is_gauss_sign(a * b, n);
    lemma_jacobi_is_gauss_sign(a, n);
    lemma_jacobi_is_gauss_sign(b, n);
    lemma_gauss_sign_of_product(a, b, n);
}

/// The Jacobi symbol is multiplicative in its lower argument.
pub proof fn lemma_jacobi_below_product(a: nat, m: nat, n: nat)
    requires
        m % 2 == 1,
        n % 2 == 1,
    ensures
        (m * n) % 2 == 1,
        jacobi_symbol(a, m * n) == jacobi_symbol(a, m) * jacobi_symbol(a, n),
{
    lemma_product_parity(m as int, n as int);
    lemma_jacobi_is_gauss_sign(a, m * n);
    lemma_jacobi_is_gauss_sign(a, m);
    lemma_jacobi_is_gauss_sign(a, n);
    lemma_gauss_sign_below_product(a, m, n);
}

/// The second supplement to the law of reciprocity: `(2|n)` is -1 exactly
/// for the odd `n` that are 3 or 5 modulo 8.
pub proof fn lemma_jacobi_of_two(n: nat)
    requires
        n % 2 == 1,
    ensures
        jacobi_symbol(2, n) == two_sign(n),
{
    lemma_jacobi_is_gauss_sign(2, n);
    lemma_gauss_sign_of_two(n);
}

/// The law of quadratic reciprocity: for odd `a` and `n`, the symbols
/// `(a|n)` and `(n|a)` agree unless both numbers are 3 modulo 4.
pub proof fn lemma_jacobi_reciprocity(a: nat, n: nat)
    requires
        a % 2 == 1,
        n % 2 == 1,
    ensures
        jacobi_symbol(a, n) == reciprocity_sign(a, n) * jacobi_symbol(n, a),
{
    lemma_jacobi_is_gauss_sign(a, n);
    lemma_jacobi_is_gauss_sign(n, a);
    lemma_reciprocity(a, n);
}

/// The Jacobi symbol of a square that is coprime to `n` is 1.
pub proof fn lemma_jacobi_of_square(x: nat, n: nat)
    requires
        n % 2 == 1,
        gcd(x, n) == 1,
    ensures
        jacobi_symbol(x * x, n) == 1,
{
    lemma_jacobi_of_product(x, x, n);
    lemma_jacobi_zero(x, n);
    lemma_jacobi_range(x, n);
    lemma_sign_times(jacobi_symbol(x, n), jacobi_symbol(x, n));
}

/// For an odd prime `p`, the Jacobi symbol `(a|p)` is the Legendre symbol.
pub proof fn lemma_jacobi_of_prime(a: nat, p: nat)
    requires
        is_prime(p),
        p % 2 == 1,
    ensures
        jacobi_symbol(a, p) == legendre_symbol(a, p),
{
    lemma_jacobi_is_gauss_sign(a, p);
    lemma_legendre_is_euler_symbol(a, p);
    lemma_euler_symbol_is_gauss_sign(a, p);
}

/// Euler's criterion: for an odd prime `p`, the power `a^((p - 1) / 2)`
/// modulo `p` is 0, 1 or `p - 1`, and the Legendre symbol `(a|p)` is 0, 1
/// or -1 accordingly.
pub proof fn lemma_euler_criterion(a: nat, p: nat)
    requires
        is_prime(p),
        p % 2 == 1,
    ensures
        euler_residue(a, p) == 0 || euler_residue(a, p) == 1 || euler_residue(a, p) == p - 1,
        legendre_symbol(a, p) == euler_symbol(a, p),
{
    lemma_legendre_is_euler_symbol(a, p);
    lemma_euler_symbol_is_gauss_sign(a, p);
}

/// The Kronecker symbol is -1, 0 or 1.
pub proof fn lemma_kronecker_range(a: nat, n: nat)
    ensures
        -1 <= kronecker_symbol(a, n) <= 1,
    decreases n,
{
    if n == 0 {
    } else if n % 2 == 0 {
        lemma_kronecker_range(a, n / 2);
        lemma_sign_times(kronecker_two(a), kronecker_symbol(a, n / 2));
    } else {
        lemma_jacobi_range(a, n);
    }
}

/// The Kronecker symbol vanishes exactly when its arguments have a common
/// factor.
pub proof fn lemma_kronecker_zero(a: nat, n: nat)
    ensures
        kronecker_symbol(a, n) == 0 <==> gcd(a, n) != 1,
    decreases n,
{
    if n == 0 {
    } else if n % 2 == 1 {
        lemma_jacobi_zero(a, n);
    } else {
        lemma_kronecker_zero(a, n / 2);
        lemma_sign_times(kronecker_two(a), kronecker_symbol(a, n / 2));
        lemma_gcd_even(a, n / 2);
    }
}

} // verus!
