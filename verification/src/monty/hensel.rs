//! Hensel lifting of an inverse modulo a power of two, as the machine
//! computes it with wrapping arithmetic.

use crate::arith::{lemma_divisible, lemma_mod_divisor, lemma_multiple_mod};
use vstd::arithmetic::div_mod::*;
use vstd::arithmetic::mul::*;
use vstd::prelude::*;

verus! {

/// A seed inverse modulo 256 of the low byte of `m` inverts `m` modulo 256.
pub proof fn lemma_seed(m: nat, index: nat, seed: nat)
    requires
        m % 256 == 2 * index + 1,
        (seed * (2 * index + 1)) % 256 == 1,
    ensures
        (seed * m - 1) % 256 == 0,
{
    lemma_mul_mod_noop_general(seed as int, m as int, 256);
    lemma_mod_equivalence((seed * m) as int, 1, 256);
}

/// The negative of an inverse is a negated inverse: when `i * m ≡ 1` and
/// `r ≡ -i` modulo `big`, then `m * r ≡ -1`.
pub proof fn lemma_negated_inverse(m: int, i: int, r: int, big: int)
    requires
        big > 0,
        (i * m - 1) % big == 0,
        r == if i == 0 {
            0
        } else {
            big - i
        },
    ensures
        (m * r + 1) % big == 0,
{
    lemma_divisible(i * m - 1, big);
    let c = (i * m - 1) / big;
    if i == 0 {
        assert(big == 1 && m * r + 1 == 1) by (nonlinear_arith)
            requires
                i == 0,
                r == 0,
                big > 0,
                i * m - 1 == big * c,
        ;
    } else {
        assert(m * r + 1 == (m - c) * big) by (nonlinear_arith)
            requires
                r == big - i,
                i * m - 1 == big * c,
        ;
        lemma_multiple_mod(m - c, big);
    }
}

/// One Hensel step doubles the precision of an inverse: when `i * m ≡ 1`
/// modulo `k` and `j ≡ i * (2 - i * m)` modulo `k^2`, then `j * m ≡ 1`
/// modulo `k^2`.
pub proof fn lemma_hensel_lift(m: int, i: int, j: int, k: int)
    requires
        k > 0,
        (i * m - 1) % k == 0,
        (j - i * (2 - i * m)) % (k * k) == 0,
    ensures
        (j * m - 1) % (k * k) == 0,
{
    assert(k * k > 0) by (nonlinear_arith)
        requires
            k > 0,
    ;
    lemma_divisible(i * m - 1, k);
    lemma_divisible(j - i * (2 - i * m), k * k);
    let c = (i * m - 1) / k;
    let d = (j - i * (2 - i * m)) / (k * k);
    assert(j * m - 1 == (d * m - c * c) * (k * k)) by (nonlinear_arith)
        requires
            i * m - 1 == k * c,
            j - i * (2 - i * m) == (k * k) * d,
    ;
    lemma_multiple_mod(d * m - c * c, k * k);
}

/// The last Hensel step, which negates as it lifts: when `i * m ≡ 1` modulo
/// `k` and `j ≡ (i * m - 2) * i` modulo `k^2`, then `j * m ≡ -1` modulo
/// `k^2`.
pub proof fn lemma_hensel_negate(m: int, i: int, j: int, k: int)
    requires
        k > 0,
        (i * m - 1) % k == 0,
        (j - (i * m - 2) * i) % (k * k) == 0,
    ensures
        (j * m + 1) % (k * k) == 0,
{
    assert(k * k > 0) by (nonlinear_arith)
        requires
            k > 0,
    ;
    lemma_divisible(i * m - 1, k);
    lemma_divisible(j - (i * m - 2) * i, k * k);
    let c = (i * m - 1) / k;
    let d = (j - (i * m - 2) * i) / (k * k);
    assert(j * m + 1 == (d * m + c * c) * (k * k)) by (nonlinear_arith)
        requires
            i * m - 1 == k * c,
            j - (i * m - 2) * i == (k * k) * d,
    ;
    lemma_multiple_mod(d * m + c * c, k * k);
}

/// The wrapping form of a lifting step: computed modulo `big`, the value
/// `(2 - i * m) * i` differs from the exact one by a multiple of `big`.
pub proof fn lemma_wrapped_lift(m: int, i: int, p: int, d: int, j: int, big: int)
    requires
        big > 0,
        p == (i * m) % big,
        d == (2 - p) % big,
        j == (d * i) % big,
    ensures
        (j - i * (2 - i * m)) % big == 0,
{
    lemma_fundamental_div_mod(i * m, big);
    lemma_fundamental_div_mod(2 - p, big);
    lemma_fundamental_div_mod(d * i, big);
    let a = (i * m) / big;
    let b = (2 - p) / big;
    let c = (d * i) / big;
    assert(j - i * (2 - i * m) == (i * a - i * b - c) * big) by (nonlinear_arith)
        requires
            i * m == big * a + p,
            2 - p == big * b + d,
            d * i == big * c + j,
    ;
    lemma_multiple_mod(i * a - i * b - c, big);
}

/// The wrapping form of the negating step: computed modulo `big`, the value
/// `(i * m - 2) * i` differs from the exact one by a multiple of `big`.
pub proof fn lemma_wrapped_negate(m: int, i: int, p: int, d: int, j: int, big: int)
    requires
        big > 0,
        p == (i * m) % big,
        d == (p - 2) % big,
        j == (d * i) % big,
    ensures
        (j - (i * m - 2) * i) % big == 0,
{
    lemma_fundamental_div_mod(i * m, big);
    lemma_fundamental_div_mod(p - 2, big);
    lemma_fundamental_div_mod(d * i, big);
    let a = (i * m) / big;
    let b = (p - 2) / big;
    let c = (d * i) / big;
    assert(j - (i * m - 2) * i == (0 - c - i * b - i * a) * big) by (nonlinear_arith)
        requires
            i * m == big * a + p,
            p - 2 == big * b + d,
            d * i == big * c + j,
    ;
    lemma_multiple_mod(0 - c - i * b - i * a, big);
}

/// One lifting step as the machine computes it, with every product and
/// difference taken modulo `big`, a multiple of `k^2`.
pub proof fn lemma_lift_step(m: nat, i: nat, j: nat, k: nat, big: nat)
    requires
        k > 0,
        big > 0,
        big % (k * k) == 0,
        (i * m - 1) % (k as int) == 0,
        j == (((2 - (i * m) % big) % (big as int)) * i) % (big as int),
    ensures
        (j * m - 1) % ((k * k) as int) == 0,
{
    let p = ((i * m) % big) as int;
    let d = (2 - p) % (big as int);
    assert(k * k > 0) by (nonlinear_arith)
        requires
            k > 0,
    ;
    lemma_wrapped_lift(m as int, i as int, p, d, j as int, big as int);
    lemma_mod_divisor(j - i * (2 - i * m), big as int, (k * k) as int);
    lemma_hensel_lift(m as int, i as int, j as int, k as int);
}

/// The negating step as the machine computes it, with every product and
/// difference taken modulo `big`, a multiple of `k^2`.
pub proof fn lemma_negate_step(m: nat, i: nat, j: nat, k: nat, big: nat)
    requires
        k > 0,
        big > 0,
        big % (k * k) == 0,
        (i * m - 1) % (k as int) == 0,
        j == ((((i * m) % big - 2) % (big as int)) * i) % (big as int),
    ensures
        (m * j + 1) % (k * k) == 0,
{
    let p = ((i * m) % big) as int;
    let d = (p - 2) % (big as int);
    assert(k * k > 0) by (nonlinear_arith)
        requires
            k > 0,
    ;
    lemma_wrapped_negate(m as int, i as int, p, d, j as int, big as int);
    lemma_mod_divisor(j - (i * m - 2) * i, big as int, (k * k) as int);
    lemma_hensel_negate(m as int, i as int, j as int, k as int);
    lemma_mul_is_commutative(m as int, j as int);
}

} // verus!
