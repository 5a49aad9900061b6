//! Gauss's lemma for an odd prime: the sign that counts flips in a half
//! system is a power.

use crate::arith::lemma_divisible;
use crate::gauss::{
    flip, flips, fold, gauss_sign, lemma_fold_injective, lemma_fold_range, lemma_rem_nonzero, rem,
    top,
};
use crate::gcd::{gcd, lemma_coprime_cancels, lemma_gcd_divides};
use crate::sums::{
    lemma_product_congruent, lemma_product_ext, lemma_product_mul, lemma_product_of_multiples,
    lemma_product_of_signs, lemma_product_reindex, lemma_sum_ext, product,
};
use crate::symbol::{euler_residue, euler_symbol, is_prime};
use vstd::arithmetic::div_mod::*;
use vstd::arithmetic::power::*;
use vstd::prelude::*;

verus! {

/// A prime is coprime to what it does not divide.
pub proof fn lemma_prime_coprime(a: nat, p: nat)
    requires
        is_prime(p),
        a % p != 0,
    ensures
        gcd(a, p) == 1,
{
    lemma_gcd_divides(a, p);
    let g = gcd(a, p);
    lemma_divisible(p as int, g as int);
    let k = (p as int) / (g as int);
    assert(g <= p) by (nonlinear_arith)
        requires
            p == g * k,
            g > 0,
            p > 0,
    ;
    if 1 < g < p {
        assert(p % g != 0);
    }
}

/// A prime that divides a multiple of a product of smaller positive
/// numbers divides the multiplier.
pub proof fn lemma_cancel_factorial(x: int, p: nat, k: nat)
    requires
        is_prime(p),
        k < p,
        (x * product(|i: int| i, k)) % (p as int) == 0,
    ensures
        x % (p as int) == 0,
    decreases k,
{
    let id = |i: int| i;
    if k == 0 {
        assert(x * 1 == x) by (nonlinear_arith);
    } else {
        let below = product(id, (k - 1) as nat);
        assert(product(id, k) == below * id(k as int));
        assert(x * (below * k) == k * (x * below)) by (nonlinear_arith);
        lemma_small_mod(k, p);
        lemma_prime_coprime(k, p);
        lemma_coprime_cancels(k, p, x * below);
        lemma_cancel_factorial(x, p, (k - 1) as nat);
    }
}

/// Gauss's lemma: modulo an odd prime `p`, the power `a^((p - 1) / 2)` of
/// an `a` that `p` does not divide is 1 or -1 as multiplication by `a`
/// flips an even or odd number of members of the half system.
pub proof fn lemma_gauss(a: nat, p: nat)
    requires
        is_prime(p),
        p % 2 == 1,
        gcd(a, p) == 1,
    ensures
        euler_residue(a, p) == if flips(a, p) % 2 == 0 {
            1
        } else {
            p - 1
        },
{
    let h = top(p);
    let pi = p as int;
    let id = |i: int| i;
    let multiples = |i: int| a * i;
    let e = |i: int| flip(a, p, i);
    let signs = |i: int| 1 - 2 * e(i);
    let folds = |i: int| fold(a, p, i);
    let signed = |i: int| signs(i) * folds(i);
    // each multiple is congruent to a member with a sign
    assert forall|i: int| 1 <= i <= h implies #[trigger] multiples(i) % pi == signed(i) % pi by {
        lemma_rem_nonzero(a, p, i);
        lemma_mod_twice(a * i, pi);
        let r = rem(a, p, i);
        if r > h {
            assert(signed(i) == pi * (-1) + r) by (nonlinear_arith)
                requires
                    signed(i) == (-1) * (pi - r),
            ;
            lemma_mod_multiples_vanish(-1, r, pi);
        } else {
            assert(signed(i) == r) by (nonlinear_arith)
                requires
                    signed(i) == 1 * r,
            ;
        }
    }
    lemma_product_congruent(multiples, signed, h, pi);
    lemma_product_mul(signs, folds, h);
    lemma_product_ext(signed, |i: int| signs(i) * folds(i), h);
    // the members with their signs removed are the members again
    assert forall|i: int| 1 <= i <= h implies 1 <= #[trigger] folds(i) <= h by {
        lemma_fold_range(a, p, i);
    }
    assert forall|i: int, j: int|
        1 <= i <= h && 1 <= j <= h && #[trigger] folds(i) == #[trigger] folds(j) implies i
        == j by {
        lemma_fold_injective(a, p, i, j);
    }
    lemma_product_reindex(id, folds, h);
    lemma_product_ext(|i: int| id(folds(i)), folds, h);
    // the signs multiply to the parity of the flips
    lemma_product_of_signs(e, h);
    lemma_product_ext(signs, |i: int| 1 - 2 * e(i), h);
    lemma_sum_ext(e, |i: int| flip(a, p, i), h);
    lemma_product_of_multiples(a as int, h);
    lemma_product_ext(multiples, |i: int| a * i, h);
    lemma_product_ext(id, |i: int| i, h);
    let power = pow(a as int, h);
    let factorial = product(id, h);
    let sign = product(signs, h);
    assert((power * factorial) % pi == (sign * factorial) % pi);
    // so p divides (power - sign) * factorial, and with it power - sign
    lemma_mod_equivalence(power * factorial, sign * factorial, pi);
    assert(power * factorial - sign * factorial == (power - sign) * factorial)
        by (nonlinear_arith);
    lemma_cancel_factorial(power - sign, p, h);
    lemma_mod_equivalence(power, sign, pi);
    if sign == 1 {
        lemma_small_mod(1, p);
    } else {
        lemma_mod_multiples_vanish(-1, pi - 1, pi);
        lemma_small_mod((p - 1) as nat, p);
    }
}

/// Euler's criterion, for the sign of Gauss's lemma: modulo an odd prime
/// `p`, the power `a^((p - 1) / 2)` is 0, 1 or `p - 1`, and read as a sign
/// it is the sign of Gauss's lemma.
pub proof fn lemma_euler_symbol_is_gauss_sign(a: nat, p: nat)
    requires
        is_prime(p),
        p % 2 == 1,
    ensures
        euler_residue(a, p) == 0 || euler_residue(a, p) == 1 || euler_residue(a, p) == p - 1,
        euler_symbol(a, p) == gauss_sign(a, p),
{
    let h = top(p);
    let pi = p as int;
    if a % p == 0 {
        // p divides a, and so every positive power of a
        assert(gcd(a, p) == gcd(p, a % p));
        assert(gcd(p, 0) == p);
        reveal(pow);
        let rest = pow(a as int, (h - 1) as nat);
        assert(pow(a as int, h) == a * rest);
        lemma_mul_mod_noop_general(a as int, rest, pi);
        assert(0 * rest == 0) by (nonlinear_arith);
        lemma_small_mod(0, p);
    } else {
        lemma_prime_coprime(a, p);
        lemma_gauss(a, p);
    }
}

} // verus!
