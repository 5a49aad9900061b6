//! The mathematics of Montgomery form: what the form of an integer is, what
//! reduction does to it, and how residues in Montgomery form add and
//! multiply.

use crate::arith::{lemma_divisible, lemma_mul_congruent, lemma_multiple_mod};
use vstd::arithmetic::div_mod::*;
use vstd::arithmetic::power::*;
use vstd::arithmetic::power2::*;
use vstd::prelude::*;

verus! {

/// The Montgomery form of `x` modulo `m` for the radix `2^w`: `x * 2^w mod m`.
pub open spec fn to_montgomery(x: nat, m: nat, w: nat) -> nat {
    (x * pow2(w)) % m
}

/// The inverse of 2 modulo an odd `m`.
pub open spec fn half(m: nat) -> nat {
    (m + 1) / 2
}

/// The inverse of the radix `2^w` modulo an odd `m`.
pub open spec fn radix_inverse(m: nat, w: nat) -> nat {
    (pow(half(m) as int, w) % (m as int)) as nat
}

/// Montgomery reduction of `t` modulo an odd `m` for the radix `2^w`:
/// `t / 2^w mod m`, the residue whose product with the radix is congruent
/// to `t`.
pub open spec fn redc(t: nat, m: nat, w: nat) -> nat {
    (t * radix_inverse(m, w)) % m
}

/// `minv` is the negated inverse of `m` modulo `2^w`: `m * minv ≡ -1`.
pub open spec fn is_neginv(m: nat, minv: nat, w: nat) -> bool {
    minv < pow2(w) && (m * minv + 1) % pow2(w) == 0
}

/// Twice the half of an odd modulus is one more than the modulus.
pub proof fn lemma_half_inverts_two(m: nat)
    requires
        m % 2 == 1,
    ensures
        (2 * half(m)) % m == 1nat % m,
{
    assert(2 * half(m) == m + 1);
    lemma_mod_add_multiples_vanish(1, m as int);
}

/// `radix_inverse(m, w)` inverts `2^w` modulo an odd `m`.
pub proof fn lemma_radix_inverse(m: nat, w: nat)
    requires
        m % 2 == 1,
    ensures
        radix_inverse(m, w) < m,
        (pow2(w) * radix_inverse(m, w)) % m == 1nat % m,
    decreases w,
{
    let h = half(m) as int;
    let mi = m as int;
    lemma_mod_bound(pow(h, w), mi);
    if w == 0 {
        lemma_pow0(h);
        lemma2_to64();
        lemma_mod_twice(1, mi);
    } else {
        let v = (w - 1) as nat;
        lemma_radix_inverse(m, v);
        lemma_pow2_unfold(w);
        reveal(pow);
        assert(pow(h, w) == h * pow(h, v));
        let p = pow2(v) as int;
        let q = pow(h, v);
        // 2^w * h^w == (2 * h) * (2^v * h^v)
        assert((2 * p) * (h * q) == (2 * h) * (p * q)) by (nonlinear_arith);
        lemma_mul_mod_noop_general(pow2(w) as int, pow(h, w), mi);
        lemma_mul_mod_noop_general(p, q, mi);
        lemma_half_inverts_two(m);
        lemma_mul_mod_noop_general(2 * h, p * q, mi);
        lemma_mod_twice(1, mi);
        if m == 1 {
        } else {
            lemma_small_mod(1, m);
            let f = (2 * h) % mi;
            let g = (p * q) % mi;
            assert(f * g == 1) by (nonlinear_arith)
                requires
                    f == 1,
                    g == 1,
            ;
        }
    }
}

/// Montgomery reduction yields a residue below the modulus.
pub proof fn lemma_redc_bound(t: nat, m: nat, w: nat)
    requires
        m > 0,
    ensures
        redc(t, m, w) < m,
{
    lemma_mod_bound((t * radix_inverse(m, w)) as int, m as int);
}

/// Montgomery reduction sees only the residue of its argument.
pub proof fn lemma_redc_congruent(s: nat, t: nat, m: nat, w: nat)
    requires
        m > 0,
        s % m == t % m,
    ensures
        redc(s, m, w) == redc(t, m, w),
{
    lemma_mul_congruent(s as int, t as int, radix_inverse(m, w) as int, m as int);
}

/// The defining property of Montgomery reduction: the one residue `r` below
/// an odd `m` with `r * 2^w ≡ t` is `redc(t, m, w)`.
pub proof fn lemma_redc_unique(t: nat, m: nat, w: nat, r: nat)
    requires
        m % 2 == 1,
        r < m,
        (r * pow2(w)) % m == t % m,
    ensures
        r == redc(t, m, w),
{
    let mi = m as int;
    let big = pow2(w) as int;
    let inv = radix_inverse(m, w) as int;
    lemma_radix_inverse(m, w);
    // t * inv ≡ (r * 2^w) * inv == r * (2^w * inv) ≡ r * 1
    lemma_mul_congruent((r * pow2(w)) as int, t as int, inv, mi);
    assert((r * big) * inv == r * (big * inv)) by (nonlinear_arith);
    lemma_mul_mod_noop_general(r as int, big * inv, mi);
    if m == 1 {
    } else {
        lemma_small_mod(1, m);
        lemma_small_mod(r, m);
        let g = (big * inv) % mi;
        assert(r * g == r) by (nonlinear_arith)
            requires
                g == 1,
        ;
    }
}

/// Multiplying a Montgomery reduction by the radix gives back the argument,
/// up to congruence.
pub proof fn lemma_redc_times_radix(t: nat, m: nat, w: nat)
    requires
        m % 2 == 1,
    ensures
        (redc(t, m, w) * pow2(w)) % m == t % m,
{
    let mi = m as int;
    let big = pow2(w) as int;
    let inv = radix_inverse(m, w) as int;
    lemma_radix_inverse(m, w);
    lemma_mul_mod_noop_general(t * inv, big, mi);
    assert((t * inv) * big == t * (big * inv)) by (nonlinear_arith);
    lemma_mul_mod_noop_general(t as int, big * inv, mi);
    if m == 1 {
    } else {
        lemma_small_mod(1, m);
        let g = (big * inv) % mi;
        assert(t * g == t) by (nonlinear_arith)
            requires
                g == 1,
        ;
    }
}

/// Reduction undoes the transformation into Montgomery form.
pub proof fn lemma_redc_of_montgomery(x: nat, m: nat, w: nat)
    requires
        m % 2 == 1,
    ensures
        redc(to_montgomery(x, m, w), m, w) == x % m,
{
    let mi = m as int;
    let a = to_montgomery(x, m, w);
    lemma_mod_bound(x as int, mi);
    lemma_mul_mod_noop_general(x as int, pow2(w) as int, mi);
    lemma_mod_twice((x * pow2(w)) as int, mi);
    lemma_redc_unique(a, m, w, x % m);
}

/// The transformation into Montgomery form undoes reduction, on residues.
pub proof fn lemma_montgomery_of_redc(a: nat, m: nat, w: nat)
    requires
        m % 2 == 1,
        a < m,
    ensures
        to_montgomery(redc(a, m, w), m, w) == a,
{
    lemma_redc_times_radix(a, m, w);
    lemma_small_mod(a, m);
}

/// The Montgomery form of an integer is that of its residue.
pub proof fn lemma_montgomery_congruent(x: nat, y: nat, m: nat, w: nat)
    requires
        m > 0,
        x % m == y % m,
    ensures
        to_montgomery(x, m, w) == to_montgomery(y, m, w),
{
    lemma_mul_congruent(x as int, y as int, pow2(w) as int, m as int);
}

/// The arithmetic of one REDC step. With `u = (t mod R) * minv mod R`, the
/// sum `t + u * m` is a multiple of `R = 2^w`, its quotient `q` by `R` is
/// below `2m`, and `q` less at most one `m` is the Montgomery reduction of
/// `t`.
pub proof fn lemma_redc_quotient(t: nat, m: nat, minv: nat, w: nat, u: nat)
    requires
        m % 2 == 1,
        is_neginv(m, minv, w),
        t < m * pow2(w),
        u == ((t % pow2(w)) * minv) % pow2(w),
    ensures
        (t + u * m) % pow2(w) == 0,
        (t + u * m) / pow2(w) < 2 * m,
        redc(t, m, w) == if (t + u * m) / pow2(w) >= m {
            (t + u * m) / pow2(w) - m
        } else {
            ((t + u * m) / pow2(w)) as int
        },
{
    let big = pow2(w) as int;
    let mi = m as int;
    let ti = t as int;
    let ui = u as int;
    let vi = minv as int;
    lemma_pow2_pos(w);
    // u * m ≡ t * minv * m modulo R
    lemma_mul_mod_noop_general(ti, vi, big);
    lemma_mul_mod_noop_general(ti * vi, mi, big);
    lemma_add_mod_noop(ti, ui * mi, big);
    lemma_add_mod_noop(ti, ti * vi * mi, big);
    // t + t * minv * m == t * (m * minv + 1), a multiple of R
    lemma_divisible(mi * vi + 1, big);
    let k = (mi * vi + 1) / big;
    assert(ti + ti * vi * mi == (ti * k) * big) by (nonlinear_arith)
        requires
            mi * vi + 1 == big * k,
    ;
    lemma_multiple_mod(ti * k, big);
    let s = ti + ui * mi;
    assert(s % big == 0);
    lemma_divisible(s, big);
    let q = s / big;
    lemma_mod_bound(ti * vi, big);
    assert(q < 2 * mi) by (nonlinear_arith)
        requires
            s == big * q,
            s == ti + ui * mi,
            ti < mi * big,
            0 <= ui < big,
            mi > 0,
            big > 0,
    ;
    assert(q >= 0) by (nonlinear_arith)
        requires
            s == big * q,
            s >= 0,
            big > 0,
    ;
    // q * R == t + u * m ≡ t modulo m
    lemma_mod_multiples_vanish(ui, ti, mi);
    assert(mi * ui + ti == q * big) by (nonlinear_arith)
        requires
            s == big * q,
            s == ti + ui * mi,
    ;
    if q >= mi {
        let r = q - mi;
        lemma_mod_multiples_vanish(-big, q * big, mi);
        assert(mi * (-big) + q * big == r * big) by (nonlinear_arith)
            requires
                r == q - mi,
        ;
        lemma_redc_unique(t, m, w, r as nat);
    } else {
        lemma_redc_unique(t, m, w, q as nat);
    }
}

/// The sum of two residues stands for the sum of the integers that they
/// stand for.
pub proof fn lemma_redc_add(a: nat, b: nat, m: nat, w: nat)
    requires
        m > 0,
    ensures
        redc((a + b) % m, m, w) == (redc(a, m, w) + redc(b, m, w)) % m,
{
    let mi = m as int;
    let inv = radix_inverse(m, w) as int;
    let ia = a as int;
    let ib = b as int;
    lemma_mul_mod_noop_general(ia + ib, inv, mi);
    lemma_add_mod_noop(ia * inv, ib * inv, mi);
    assert((ia + ib) * inv == ia * inv + ib * inv) by (nonlinear_arith);
}

/// The difference of two residues stands for the difference of the
/// integers that they stand for.
pub proof fn lemma_redc_sub(a: nat, b: nat, m: nat, w: nat)
    requires
        m > 0,
    ensures
        redc(((a - b) % (m as int)) as nat, m, w) == (redc(a, m, w) - redc(b, m, w)) % (m as int),
{
    let mi = m as int;
    let inv = radix_inverse(m, w) as int;
    let ia = a as int;
    let ib = b as int;
    lemma_mod_bound(ia - ib, mi);
    lemma_mul_mod_noop_general(ia - ib, inv, mi);
    lemma_sub_mod_noop(ia * inv, ib * inv, mi);
    assert((ia - ib) * inv == ia * inv - ib * inv) by (nonlinear_arith);
}

/// The negative of a residue stands for the negative of the integer that it
/// stands for.
pub proof fn lemma_redc_neg(a: nat, m: nat, w: nat)
    requires
        m > 0,
    ensures
        redc(((-(a as int)) % (m as int)) as nat, m, w) == (-(redc(a, m, w) as int)) % (m as int),
{
    lemma_redc_sub(0, a, m, w);
    assert(redc(0, m, w) == 0) by {
        lemma_small_mod(0, m);
    }
}

/// The reduced product of two residues stands for the product of the
/// integers that they stand for.
pub proof fn lemma_redc_mul(a: nat, b: nat, m: nat, w: nat)
    requires
        m % 2 == 1,
    ensures
        redc(redc(a * b, m, w), m, w) == (redc(a, m, w) * redc(b, m, w)) % m,
{
    let mi = m as int;
    let inv = radix_inverse(m, w) as int;
    let ia = a as int;
    let ib = b as int;
    lemma_mul_mod_noop_general((ia * ib) * inv, inv, mi);
    lemma_mul_mod_noop_general(ia * inv, ib * inv, mi);
    assert(((ia * ib) * inv) * inv == (ia * inv) * (ib * inv)) by (nonlinear_arith);
}

/// A power of two that divides the product of an odd number and `d`
/// divides `d`.
pub proof fn lemma_odd_factor_cancels(m: nat, d: int, w: nat)
    requires
        m % 2 == 1,
        (m * d) % (pow2(w) as int) == 0,
    ensures
        d % (pow2(w) as int) == 0,
    decreases w,
{
    lemma_pow2_pos(w);
    if w == 0 {
        lemma2_to64();
    } else {
        let v = (w - 1) as nat;
        lemma_pow2_pos(v);
        lemma_pow2_unfold(w);
        let big = pow2(w) as int;
        let small = pow2(v) as int;
        lemma_divisible(m * d, big);
        let k = (m * d) / big;
        let e = (m / 2) as int;
        // m * d is even and m is odd, so d is even
        let f = d / 2;
        if d % 2 != 0 {
            assert(false) by (nonlinear_arith)
                requires
                    m * d == (2 * small) * k,
                    m == 2 * e + 1,
                    d == 2 * f + 1,
            {
                assert(m * d == 2 * (2 * e * f + e + f) + 1);
                assert(m * d == 2 * (small * k));
            }
        }
        assert(m * f == k * small) by (nonlinear_arith)
            requires
                m * d == (2 * small) * k,
                d == 2 * f,
        ;
        lemma_multiple_mod(k, small);
        lemma_odd_factor_cancels(m, f, v);
        lemma_divisible(f, small);
        let g = f / small;
        assert(d == g * big) by (nonlinear_arith)
            requires
                d == 2 * f,
                f == small * g,
                big == 2 * small,
        ;
        lemma_multiple_mod(g, big);
    }
}

/// An odd modulus has exactly one negated inverse modulo `2^w`.
pub proof fn lemma_neginv_unique(m: nat, x: nat, y: nat, w: nat)
    requires
        m % 2 == 1,
        is_neginv(m, x, w),
        is_neginv(m, y, w),
    ensures
        x == y,
{
    let big = pow2(w) as int;
    lemma_pow2_pos(w);
    lemma_mod_equivalence((m * x + 1) as int, (m * y + 1) as int, big);
    assert((m * x + 1) - (m * y + 1) == m * (x - y)) by (nonlinear_arith);
    lemma_odd_factor_cancels(m, x - y, w);
    lemma_mod_equivalence(x as int, y as int, big);
    lemma_small_mod(x, pow2(w));
    lemma_small_mod(y, pow2(w));
}

} // verus!
