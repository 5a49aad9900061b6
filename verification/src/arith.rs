//! Congruences and the steps of the loops that work by halving.

use vstd::arithmetic::div_mod::*;
use vstd::arithmetic::mul::*;
use vstd::arithmetic::power::*;
use vstd::prelude::*;

verus! {

/// A multiple of `n` leaves no remainder.
pub proof fn lemma_multiple_mod(k: int, n: int)
    requires
        n > 0,
    ensures
        (k * n) % n == 0,
        (n * k) % n == 0,
{
    lemma_mod_multiples_basic(k, n);
    lemma_mul_is_commutative(k, n);
}

/// What leaves no remainder is a multiple: `x == n * (x / n)`.
pub proof fn lemma_divisible(x: int, n: int)
    requires
        n > 0,
        x % n == 0,
    ensures
        x == n * (x / n),
{
    lemma_fundamental_div_mod(x, n);
}

/// Congruent factors give congruent products.
pub proof fn lemma_mul_congruent(a: int, b: int, c: int, m: int)
    requires
        m > 0,
        a % m == b % m,
    ensures
        (a * c) % m == (b * c) % m,
        (c * a) % m == (c * b) % m,
{
    lemma_mul_mod_noop_general(a, c, m);
    lemma_mul_mod_noop_general(b, c, m);
    lemma_mul_is_commutative(a, c);
    lemma_mul_is_commutative(b, c);
}

/// A congruence modulo `n` holds modulo every divisor of `n`.
pub proof fn lemma_mod_divisor(x: int, n: int, d: int)
    requires
        d > 0,
        n > 0,
        n % d == 0,
        x % n == 0,
    ensures
        x % d == 0,
{
    lemma_divisible(x, n);
    lemma_divisible(n, d);
    let a = x / n;
    let b = n / d;
    assert(x == (a * b) * d) by (nonlinear_arith)
        requires
            x == n * a,
            n == d * b,
    ;
    lemma_multiple_mod(a * b, d);
}

/// Subtraction that wraps around at `big` is subtraction modulo `big`.
pub proof fn lemma_wrapping_sub(a: int, b: int, big: int)
    requires
        0 <= a < big,
        0 <= b < big,
    ensures
        (a - b) % big == if a - b < 0 {
            a - b + big
        } else {
            a - b
        },
{
    if a - b < 0 {
        lemma_fundamental_div_mod_converse(a - b, big, -1, a - b + big);
    } else {
        lemma_fundamental_div_mod_converse(a - b, big, 0, a - b);
    }
}

/// The product of two residues is below the modulus times any bound of the
/// modulus.
pub proof fn lemma_product_below(a: nat, b: nat, m: nat, big: nat)
    by (nonlinear_arith)
    requires
        a < m,
        b < m,
        m <= big,
    ensures
        a * b < m * big,
{
}

/// A power of a natural number is not negative.
pub proof fn lemma_pow_nonnegative(b: nat, e: nat)
    ensures
        pow(b as int, e) >= 0,
    decreases e,
{
    reveal(pow);
    if e > 0 {
        lemma_pow_nonnegative(b, (e - 1) as nat);
        lemma_mul_nonnegative(b as int, pow(b as int, (e - 1) as nat));
    }
}

/// One round of binary exponentiation keeps the product `acc * b^e`:
/// an odd exponent moves one factor `b` into the accumulator, the base is
/// squared and the exponent halved.
pub proof fn lemma_pow_step(acc: int, b: int, e: nat, m: int)
    requires
        m > 0,
        e > 0,
    ensures
        ((if e % 2 == 1 {
            (acc * b) % m
        } else {
            acc
        }) * pow((b * b) % m, e / 2)) % m == (acc * pow(b, e)) % m,
{
    let h = e / 2;
    // ((b * b) % m)^h ≡ (b * b)^h == b^(2h)
    lemma_pow_mod_noop(b * b, h, m);
    lemma_square_is_pow2(b);
    lemma_pow_multiplies(b, 2, h);
    let sq = pow((b * b) % m, h);
    let bh = pow(b, 2 * h);
    assert(sq % m == bh % m);
    if e % 2 == 1 {
        assert(e == 1 + 2 * h);
        lemma_pow_adds(b, 1, 2 * h);
        lemma_pow1(b);
        assert(pow(b, e) == b * bh);
        lemma_mul_mod_noop_general(acc * b, sq, m);
        lemma_mul_mod_noop_general(acc * b, bh, m);
        assert((acc * b) * bh == acc * (b * bh)) by (nonlinear_arith);
    } else {
        assert(e == 2 * h);
        lemma_mul_mod_noop_general(acc, sq, m);
        lemma_mul_mod_noop_general(acc, bh, m);
    }
}

/// One round of multiplication by doubling keeps the sum `acc + x * y`:
/// an odd multiplier moves one `x` into the accumulator, `x` is doubled and
/// the multiplier halved.
pub proof fn lemma_mul_step(acc: int, x: int, y: nat, m: int)
    requires
        m > 0,
    ensures
        ((if y % 2 == 1 {
            (acc + x) % m
        } else {
            acc
        }) + ((x + x) % m) * (y / 2)) % m == (acc + x * y) % m,
{
    let h = (y / 2) as int;
    let head = if y % 2 == 1 {
        (acc + x) % m
    } else {
        acc
    };
    let exact = if y % 2 == 1 {
        acc + x
    } else {
        acc
    };
    lemma_mul_mod_noop_general(x + x, h, m);
    lemma_add_mod_noop(head, ((x + x) % m) * h, m);
    lemma_add_mod_noop(exact, (x + x) * h, m);
    lemma_mod_twice(acc + x, m);
    assert(exact + (x + x) * h == acc + x * y) by (nonlinear_arith)
        requires
            y == 2 * h + (if y % 2 == 1 {
                1int
            } else {
                0int
            }),
            exact == if y % 2 == 1 {
                acc + x
            } else {
                acc
            },
    ;
}

} // verus!
