//! The greatest common divisor and modular inverses.

use crate::arith::{lemma_divisible, lemma_multiple_mod};
use vstd::arithmetic::div_mod::*;
use vstd::arithmetic::mul::*;
use vstd::prelude::*;

verus! {

/// `d` divides `n`.
pub open spec fn divides(d: nat, n: nat) -> bool {
    d > 0 && n % d == 0
}

/// The greatest common divisor, by Euclid's recurrence; `gcd(0, 0)` is 0.
pub open spec fn gcd(a: nat, b: nat) -> nat
    decreases b,
{
    if b == 0 {
        a
    } else {
        gcd(b, a % b)
    }
}

/// `x` is an inverse of `a` modulo `m`: `a * x = 1 mod m`.
pub open spec fn is_inverse(a: nat, x: nat, m: nat) -> bool {
    (a * x) % m == 1nat % m
}

/// `a` has an inverse modulo `m`.
pub open spec fn has_inverse(a: nat, m: nat) -> bool {
    exists|x: nat| is_inverse(a, x, m)
}

/// The greatest common divisor of two numbers, not both zero, is positive.
pub proof fn lemma_gcd_positive(a: nat, b: nat)
    requires
        a > 0 || b > 0,
    ensures
        gcd(a, b) > 0,
    decreases b,
{
    if b != 0 {
        lemma_gcd_positive(b, a % b);
    }
}

/// The greatest common divisor divides both numbers.
pub proof fn lemma_gcd_divides(a: nat, b: nat)
    requires
        a > 0 || b > 0,
    ensures
        divides(gcd(a, b), a),
        divides(gcd(a, b), b),
    decreases b,
{
    lemma_gcd_positive(a, b);
    let g = gcd(a, b);
    if b == 0 {
        lemma_mod_self_0(a as int);
        lemma_small_mod(0, a);
    } else {
        lemma_gcd_divides(b, a % b);
        // a == b * (a / b) + a % b, and g divides both terms
        lemma_fundamental_div_mod(a as int, b as int);
        lemma_divisible(b as int, g as int);
        lemma_divisible((a % b) as int, g as int);
        let x = (b as int) / (g as int);
        let y = ((a % b) as int) / (g as int);
        let q = (a as int) / (b as int);
        assert(a == (x * q + y) * g) by (nonlinear_arith)
            requires
                a == b * q + a % b,
                b == g * x,
                a % b == g * y,
        ;
        lemma_multiple_mod(x * q + y, g as int);
    }
}

/// Every common divisor divides the greatest common divisor.
pub proof fn lemma_gcd_greatest(a: nat, b: nat, d: nat)
    requires
        divides(d, a),
        divides(d, b),
    ensures
        gcd(a, b) % d == 0,
    decreases b,
{
    if b != 0 {
        lemma_fundamental_div_mod(a as int, b as int);
        lemma_divisible(a as int, d as int);
        lemma_divisible(b as int, d as int);
        let x = (a as int) / (d as int);
        let y = (b as int) / (d as int);
        let q = (a as int) / (b as int);
        assert(a % b == (x - y * q) * d) by (nonlinear_arith)
            requires
                a == b * q + a % b,
                a == d * x,
                b == d * y,
        ;
        lemma_multiple_mod(x - y * q, d as int);
        lemma_gcd_greatest(b, a % b, d);
    }
}

/// The greatest common divisor does not depend on the order of its
/// arguments.
pub proof fn lemma_gcd_symmetric(a: nat, b: nat)
    ensures
        gcd(a, b) == gcd(b, a),
{
    if a == 0 && b == 0 {
    } else {
        lemma_gcd_divides(a, b);
        lemma_gcd_divides(b, a);
        lemma_gcd_greatest(a, b, gcd(b, a));
        lemma_gcd_greatest(b, a, gcd(a, b));
        lemma_divides_both_ways(gcd(a, b), gcd(b, a));
    }
}

/// Two positive numbers that divide each other are equal.
pub proof fn lemma_divides_both_ways(x: nat, y: nat)
    requires
        divides(x, y),
        divides(y, x),
    ensures
        x == y,
{
    lemma_divisible(x as int, y as int);
    lemma_divisible(y as int, x as int);
    let p = (x as int) / (y as int);
    let q = (y as int) / (x as int);
    assert(x == y) by (nonlinear_arith)
        requires
            x == y * p,
            y == x * q,
            x > 0,
            y > 0,
    ;
}

/// One step of the extended Euclidean algorithm, with the cofactors kept
/// as residues: from `last_t * a ≡ last_r` and `t * a ≡ r` follows
/// `(last_t - q * t) * a ≡ last_r - q * r`.
pub proof fn lemma_cofactor_step(a: int, m: int, last_t: int, t: int, last_r: int, r: int, q: int)
    requires
        m > 0,
        (last_t * a) % m == last_r % m,
        (t * a) % m == r % m,
    ensures
        (((last_t - (q * t) % m) % m) * a) % m == (last_r - q * r) % m,
{
    lemma_mul_mod_noop_general(last_t - (q * t) % m, a, m);
    lemma_sub_mod_noop_right(last_t, q * t, m);
    lemma_mul_mod_noop_general(last_t - q * t, a, m);
    assert((last_t - q * t) * a == last_t * a - q * (t * a)) by (nonlinear_arith);
    lemma_sub_mod_noop(last_t * a, q * (t * a), m);
    lemma_mul_mod_noop_general(q, t * a, m);
    lemma_mul_mod_noop_general(q, r, m);
    lemma_sub_mod_noop(last_r, q * r, m);
}

/// A number with an inverse modulo `m > 1` is coprime to `m`.
pub proof fn lemma_inverse_implies_coprime(a: nat, x: nat, m: nat)
    requires
        m > 1,
        (a * x) % m == 1,
    ensures
        gcd(a, m) == 1,
{
    lemma_gcd_divides(a, m);
    let g = gcd(a, m) as int;
    lemma_fundamental_div_mod((a * x) as int, m as int);
    lemma_divisible(a as int, g);
    lemma_divisible(m as int, g);
    let k = ((a * x) as int) / (m as int);
    let u = (a as int) / g;
    let v = (m as int) / g;
    assert(g == 1) by (nonlinear_arith)
        requires
            a * x == m * k + 1,
            a == g * u,
            m == g * v,
            g > 0,
    {
        assert(g * (u * x - v * k) == 1);
    }
}

/// There is at most one inverse below the modulus.
pub proof fn lemma_inverse_unique(a: nat, x: nat, y: nat, m: nat)
    requires
        m > 0,
        x < m,
        y < m,
        is_inverse(a, x, m),
        is_inverse(a, y, m),
    ensures
        x == y,
{
    let mi = m as int;
    // x ≡ x * (a * y) == y * (a * x) ≡ y
    lemma_mul_mod_noop_general(x as int, (a * y) as int, mi);
    lemma_mul_mod_noop_general(y as int, (a * x) as int, mi);
    assert(x * (a * y) == y * (a * x)) by (nonlinear_arith);
    lemma_mul_mod_noop_general(x as int, 1, mi);
    lemma_mul_mod_noop_general(y as int, 1, mi);
    lemma_small_mod(x, m);
    lemma_small_mod(y, m);
}

/// A divisor of an odd number is odd.
pub proof fn lemma_divisor_of_odd(d: nat, n: nat)
    requires
        divides(d, n),
        n % 2 == 1,
    ensures
        d % 2 == 1,
{
    lemma_divisible(n as int, d as int);
    let v = (n as int) / (d as int);
    if d % 2 == 0 {
        let e = (d / 2) as int;
        assert(n == 2 * (e * v)) by (nonlinear_arith)
            requires
                n == d * v,
                d == 2 * e,
        ;
    }
}

/// An odd divisor of `2 * b` divides `b`.
pub proof fn lemma_odd_divisor_of_double(d: nat, b: nat)
    requires
        divides(d, 2 * b),
        d % 2 == 1,
    ensures
        divides(d, b),
{
    lemma_divisible((2 * b) as int, d as int);
    let u = ((2 * b) as int) / (d as int);
    let e = (d / 2) as int;
    let f = u / 2;
    if u % 2 == 1 {
        assert(2 * b == 2 * (2 * e * f + e + f) + 1) by (nonlinear_arith)
            requires
                2 * b == d * u,
                d == 2 * e + 1,
                u == 2 * f + 1,
        ;
    }
    assert(b == f * d) by (nonlinear_arith)
        requires
            2 * b == d * u,
            u == 2 * f,
    ;
    lemma_multiple_mod(f, d as int);
}

/// Halving an even number does not change its greatest common divisor
/// with an odd number.
pub proof fn lemma_gcd_halve(b: nat, n: nat)
    requires
        n % 2 == 1,
    ensures
        gcd(2 * b, n) == gcd(b, n),
{
    let g = gcd(2 * b, n);
    let h = gcd(b, n);
    lemma_gcd_divides(2 * b, n);
    lemma_gcd_divides(b, n);
    // h divides b, so 2 * b, and n: it divides g
    lemma_divisible(b as int, h as int);
    let k = (b as int) / (h as int);
    assert(2 * b == (2 * k) * h) by (nonlinear_arith)
        requires
            b == h * k,
    ;
    lemma_multiple_mod(2 * k, h as int);
    lemma_gcd_greatest(2 * b, n, h);
    // g is odd and divides 2 * b, so b: it divides h
    lemma_divisor_of_odd(g, n);
    lemma_odd_divisor_of_double(g, b);
    lemma_gcd_greatest(b, n, g);
    lemma_divides_both_ways(g, h);
}

/// Reducing the first number modulo the second does not change the
/// greatest common divisor.
pub proof fn lemma_gcd_mod(a: nat, n: nat)
    requires
        n > 0,
    ensures
        gcd(a % n, n) == gcd(a, n),
{
    lemma_gcd_symmetric(a % n, n);
}

/// A number has a factor in common with `2 * h` exactly when it is even or
/// has a factor in common with `h`.
pub proof fn lemma_gcd_even(a: nat, h: nat)
    requires
        h > 0,
    ensures
        gcd(a, 2 * h) != 1 <==> (a % 2 == 0 || gcd(a, h) != 1),
{
    if a % 2 == 0 {
        lemma_multiple_mod(h as int, 2);
        lemma_gcd_greatest(a, 2 * h, 2);
    } else {
        lemma_gcd_symmetric(a, 2 * h);
        lemma_gcd_halve(h, a);
        lemma_gcd_symmetric(a, h);
    }
}

/// Bézout's identity: the greatest common divisor is a combination of the
/// two numbers with integer coefficients, which are returned.
pub proof fn lemma_bezout(a: nat, b: nat) -> (r: (int, int))
    ensures
        a * r.0 + b * r.1 == gcd(a, b),
    decreases b,
{
    if b == 0 {
        assert(a * 1 + b * 0 == a) by (nonlinear_arith)
            requires
                b == 0,
        ;
        (1, 0)
    } else {
        let (x, y) = lemma_bezout(b, a % b);
        let q = (a as int) / (b as int);
        lemma_fundamental_div_mod(a as int, b as int);
        assert(a * y + b * (x - q * y) == b * x + (a % b) * y) by (nonlinear_arith)
            requires
                a == b * q + a % b,
        ;
        (y, x - q * y)
    }
}

/// A factor coprime to the modulus can be cancelled: when `n` divides
/// `a * x` and shares no factor with `a`, it divides `x`.
pub proof fn lemma_coprime_cancels(a: nat, n: nat, x: int)
    requires
        n > 0,
        gcd(a, n) == 1,
        (a * x) % (n as int) == 0,
    ensures
        x % (n as int) == 0,
{
    let (u, v) = lemma_bezout(a, n);
    lemma_divisible(a * x, n as int);
    let k = (a * x) / (n as int);
    assert(x == (u * k + v * x) * n) by (nonlinear_arith)
        requires
            a * u + n * v == 1,
            a * x == n * k,
    ;
    lemma_multiple_mod(u * k + v * x, n as int);
}

/// A product is coprime to `n` exactly when both factors are.
pub proof fn lemma_coprime_product(a: nat, b: nat, n: nat)
    requires
        n > 0,
    ensures
        gcd(a * b, n) == 1 <==> (gcd(a, n) == 1 && gcd(b, n) == 1),
{
    lemma_gcd_divides(a * b, n);
    lemma_gcd_divides(a, n);
    lemma_gcd_divides(b, n);
    let g = gcd(a * b, n);
    if gcd(a, n) == 1 && gcd(b, n) == 1 {
        // a * u + n * v == 1 and b * x + n * y == 1 multiply to a
        // combination of a * b and n
        let (u, v) = lemma_bezout(a, n);
        let (x, y) = lemma_bezout(b, n);
        lemma_divisible((a * b) as int, g as int);
        lemma_divisible(n as int, g as int);
        let c = ((a * b) as int) / (g as int);
        let d = (n as int) / (g as int);
        let ab = (a * b) as int;
        let ux = u * x;
        let au = a * u;
        let nv = n * v;
        let bx = b * x;
        let ny = n * y;
        let w = au * y + v * bx + nv * y;
        let whole = (au + nv) * (bx + ny);
        assert(whole == 1) by (nonlinear_arith)
            requires
                whole == (au + nv) * (bx + ny),
                au + nv == 1,
                bx + ny == 1,
        ;
        assert(whole == au * bx + au * ny + nv * bx + nv * ny) by (nonlinear_arith)
            requires
                whole == (au + nv) * (bx + ny),
        ;
        assert(au * bx == ab * ux) by (nonlinear_arith)
            requires
                au == a * u,
                bx == b * x,
                ab == a * b,
                ux == u * x,
        ;
        assert(au * ny == n * (au * y)) by (nonlinear_arith)
            requires
                ny == n * y,
        ;
        assert(nv * bx == n * (v * bx)) by (nonlinear_arith)
            requires
                nv == n * v,
        ;
        assert(nv * ny == n * (nv * y)) by (nonlinear_arith)
            requires
                ny == n * y,
        ;
        assert(n * w == n * (au * y) + n * (v * bx) + n * (nv * y)) by (nonlinear_arith)
            requires
                w == au * y + v * bx + nv * y,
        ;
        assert(ab * ux + n * w == 1);
        let t = c * ux + d * w;
        assert(g * t == 1) by (nonlinear_arith)
            requires
                ab * ux + n * w == 1,
                ab == g * c,
                n == g * d,
                t == c * ux + d * w,
        ;
        assert(g == 1) by (nonlinear_arith)
            requires
                g * t == 1,
                g > 0,
        ;
    } else if gcd(a, n) != 1 {
        lemma_common_divisor_of_multiple(a, b, n);
    } else {
        lemma_common_divisor_of_multiple(b, a, n);
        lemma_mul_is_commutative(a as int, b as int);
    }
}

/// A factor that `a` shares with `n` is shared by every multiple of `a`.
pub proof fn lemma_common_divisor_of_multiple(a: nat, b: nat, n: nat)
    requires
        n > 0,
        gcd(a, n) != 1,
    ensures
        gcd(a * b, n) != 1,
{
    lemma_gcd_divides(a, n);
    let h = gcd(a, n);
    lemma_divisible(a as int, h as int);
    let k = (a as int) / (h as int);
    assert(a * b == (k * b) * h) by (nonlinear_arith)
        requires
            a == h * k,
    ;
    lemma_multiple_mod(k * b, h as int);
    lemma_gcd_greatest(a * b, n, h);
    if gcd(a * b, n) == 1 {
        lemma_small_mod(1, h);
    }
}

/// A number has an inverse modulo `m` exactly when it is coprime to `m`.
pub proof fn lemma_has_inverse_iff_coprime(a: nat, m: nat)
    requires
        m > 0,
    ensures
        has_inverse(a, m) <==> gcd(a, m) == 1,
{
    let mi = m as int;
    if has_inverse(a, m) {
        let x = choose|x: nat| is_inverse(a, x, m);
        if m == 1 {
            lemma_mod_bound(a as int, 1);
            assert(gcd(a, 1) == gcd(1, a % 1));
            assert(gcd(1, 0) == 1);
        } else {
            lemma_small_mod(1, m);
            lemma_inverse_implies_coprime(a, x, m);
        }
    }
    if gcd(a, m) == 1 {
        // from a * u + m * v == 1, the residue of u is an inverse
        let (u, v) = lemma_bezout(a, m);
        let x = (u % mi) as nat;
        lemma_mod_bound(u, mi);
        lemma_mul_mod_noop_general(a as int, u, mi);
        lemma_mod_multiples_vanish(v, a * u, mi);
        assert(mi * v + a * u == 1) by (nonlinear_arith)
            requires
                a * u + m * v == 1,
                mi == m,
        ;
        assert(is_inverse(a, x, m));
    }
}

} // verus!
