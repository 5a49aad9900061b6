//! Gauss's lemma in the form that Schering gave it for every odd modulus,
//! and the law of quadratic reciprocity that follows from it.
//!
//! For an odd `n` the integers from 1 to `(n - 1) / 2` form a half system:
//! every residue that is coprime to `n` is one of them or the negative of
//! one of them. Multiplication by an `a` coprime to `n` permutes the half
//! system up to signs, and the parity of the number of signs is the Jacobi
//! symbol `(a|n)`.

use crate::arith::{lemma_divisible, lemma_multiple_mod};
use crate::gcd::{
    gcd, lemma_coprime_cancels, lemma_coprime_product, lemma_gcd_halve, lemma_gcd_mod,
    lemma_gcd_symmetric,
};
use crate::symbol::{jacobi_by_reciprocity, lemma_sign_times, reciprocity_sign, two_sign};
use crate::sums::{
    lemma_count_multiples_below, lemma_sum_add, lemma_sum_const, lemma_sum_ext, lemma_sum_parity,
    lemma_sum_reindex, lemma_sum_swap, sum,
};
use vstd::arithmetic::div_mod::*;
use vstd::arithmetic::mul::*;
use vstd::prelude::*;

verus! {

/// The largest member of the half system of an odd `n`.
pub open spec fn top(n: nat) -> nat {
    ((n - 1) / 2) as nat
}

/// The least residue of `a * i` modulo `n`.
pub open spec fn rem(a: nat, n: nat, i: int) -> int {
    (a * i) % (n as int)
}

/// 1 when the least residue of `a * i` lies above the half system, so that
/// it is the negative of a member, and 0 when it is a member.
pub open spec fn flip(a: nat, n: nat, i: int) -> int {
    if rem(a, n, i) > top(n) {
        1
    } else {
        0
    }
}

/// The member of the half system that `a * i` is congruent to, up to sign.
pub open spec fn fold(a: nat, n: nat, i: int) -> int {
    if rem(a, n, i) > top(n) {
        n - rem(a, n, i)
    } else {
        rem(a, n, i)
    }
}

/// The number of members of the half system that multiplication by `a`
/// takes to the negative of a member.
pub open spec fn flips(a: nat, n: nat) -> int {
    sum(|i: int| flip(a, n, i), top(n))
}

/// The sign that Gauss's lemma attaches to `a` and an odd `n`: 0 when they
/// have a common factor, and otherwise 1 or -1 as the number of flips is
/// even or odd.
pub open spec fn gauss_sign(a: nat, n: nat) -> int {
    if gcd(a, n) != 1 {
        0
    } else if flips(a, n) % 2 == 0 {
        1
    } else {
        -1
    }
}

/// The only multiple of `n` strictly between `-n` and `n` is 0.
pub proof fn lemma_small_multiple(x: int, n: int)
    requires
        n > 0,
        -n < x < n,
        x % n == 0,
    ensures
        x == 0,
{
    lemma_divisible(x, n);
    let q = x / n;
    assert(q == 0) by (nonlinear_arith)
        requires
            x == n * q,
            -n < x < n,
            n > 0,
    ;
}

/// A member of the half system is not taken to 0 by a multiplier coprime
/// to `n`.
pub proof fn lemma_rem_nonzero(a: nat, n: nat, i: int)
    requires
        n % 2 == 1,
        gcd(a, n) == 1,
        1 <= i <= top(n),
    ensures
        0 < rem(a, n, i) < n,
{
    lemma_mod_bound(a * i, n as int);
    if rem(a, n, i) == 0 {
        lemma_coprime_cancels(a, n, i);
        lemma_small_multiple(i, n as int);
    }
}

/// Folding takes the half system into itself.
pub proof fn lemma_fold_range(a: nat, n: nat, i: int)
    requires
        n % 2 == 1,
        gcd(a, n) == 1,
        1 <= i <= top(n),
    ensures
        1 <= fold(a, n, i) <= top(n),
{
    lemma_rem_nonzero(a, n, i);
}

/// Folding is one-to-one on the half system.
pub proof fn lemma_fold_injective(a: nat, n: nat, i: int, j: int)
    requires
        n % 2 == 1,
        gcd(a, n) == 1,
        1 <= i <= top(n),
        1 <= j <= top(n),
        fold(a, n, i) == fold(a, n, j),
    ensures
        i == j,
{
    let ni = n as int;
    lemma_rem_nonzero(a, n, i);
    lemma_rem_nonzero(a, n, j);
    if flip(a, n, i) == flip(a, n, j) {
        // a * i ≡ a * j, so n divides a * (i - j)
        lemma_mod_equivalence(a * i, a * j, ni);
        assert(a * i - a * j == a * (i - j)) by (nonlinear_arith);
        lemma_coprime_cancels(a, n, i - j);
        lemma_small_multiple(i - j, ni);
    } else {
        // a * i ≡ -a * j, so n divides a * (i + j)
        assert(rem(a, n, i) + rem(a, n, j) == n);
        lemma_add_mod_noop(a * i, a * j, ni);
        lemma_mod_self_0(ni);
        assert(a * i + a * j == a * (i + j)) by (nonlinear_arith);
        lemma_coprime_cancels(a, n, i + j);
        lemma_small_multiple(i + j, ni);
    }
}

/// The least residue of a negative: when `n` does not divide `x`, the
/// residue of `-x` is `n` less the residue of `x`.
pub proof fn lemma_mod_negative(x: int, n: int)
    requires
        n > 0,
        x % n != 0,
    ensures
        (-x) % n == n - x % n,
{
    lemma_fundamental_div_mod(x, n);
    lemma_mod_bound(x, n);
    let q = x / n;
    assert(-x == (-q - 1) * n + (n - x % n)) by (nonlinear_arith)
        requires
            x == n * q + x % n,
    ;
    lemma_fundamental_div_mod_converse(-x, n, -q - 1, n - x % n);
}

/// How the flips of a product arise: multiplying the member `i` by `a * b`
/// flips exactly when one of the two steps flips, the multiplication of `i`
/// by `b` and that of the folded result by `a`.
pub proof fn lemma_flip_of_product(a: nat, b: nat, n: nat, i: int)
    requires
        n % 2 == 1,
        gcd(a, n) == 1,
        gcd(b, n) == 1,
        1 <= i <= top(n),
    ensures
        (flip(a * b, n, i) - (flip(b, n, i) + flip(a, n, fold(b, n, i)))) % 2 == 0,
{
    let ni = n as int;
    let r = rem(b, n, i);
    let s = fold(b, n, i);
    lemma_rem_nonzero(b, n, i);
    lemma_fold_range(b, n, i);
    lemma_rem_nonzero(a, n, s);
    // (a * b) * i ≡ a * r
    assert((a * b) * i == a * (b * i)) by (nonlinear_arith);
    lemma_mul_mod_noop_general(a as int, b * i, ni);
    assert(rem(a * b, n, i) == (a * r) % ni);
    if r > top(n) {
        // r == n - s, and a * (n - s) ≡ -(a * s)
        assert(a * r == n * a + (-(a * s))) by (nonlinear_arith)
            requires
                r == n - s,
        ;
        lemma_mod_multiples_vanish(a as int, -(a * s), ni);
        lemma_mod_negative(a * s, ni);
        assert(rem(a * b, n, i) == n - rem(a, n, s));
    }
}

/// The number of flips of a product has the parity of the sum of the
/// numbers of flips of the factors.
pub proof fn lemma_flips_of_product(a: nat, b: nat, n: nat)
    requires
        n % 2 == 1,
        gcd(a, n) == 1,
        gcd(b, n) == 1,
    ensures
        (flips(a * b, n) - (flips(a, n) + flips(b, n))) % 2 == 0,
{
    let h = top(n);
    let fa = |i: int| flip(a, n, i);
    let fb = |i: int| flip(b, n, i);
    let fab = |i: int| flip(a * b, n, i);
    let sb = |i: int| fold(b, n, i);
    let moved = |i: int| fa(sb(i));
    let both = |i: int| fb(i) + moved(i);
    assert forall|i: int| 1 <= i <= h implies (#[trigger] fab(i) - both(i)) % 2 == 0 by {
        lemma_flip_of_product(a, b, n, i);
    }
    lemma_sum_parity(fab, both, h);
    lemma_sum_add(fb, moved, h);
    assert forall|i: int| 1 <= i <= h implies 1 <= #[trigger] sb(i) <= h by {
        lemma_fold_range(b, n, i);
    }
    assert forall|i: int, j: int|
        1 <= i <= h && 1 <= j <= h && #[trigger] sb(i) == #[trigger] sb(j) implies i == j by {
        lemma_fold_injective(b, n, i, j);
    }
    lemma_sum_reindex(fa, sb, h);
    assert(sum(both, h) == sum(|i: int| fb(i) + moved(i), h)) by {
        lemma_sum_ext(both, |i: int| fb(i) + moved(i), h);
    }
    assert(sum(moved, h) == sum(|i: int| fa(sb(i)), h)) by {
        lemma_sum_ext(moved, |i: int| fa(sb(i)), h);
    }
}

/// Doubling flips the members of the half system above half its top: the
/// flips among the first `k` members are those above `top(n) / 2`.
pub proof fn lemma_flips_of_two_upto(n: nat, k: nat)
    requires
        n % 2 == 1,
        k <= top(n),
    ensures
        sum(|i: int| flip(2, n, i), k) == if k <= top(n) / 2 {
            0
        } else {
            k - top(n) / 2
        },
    decreases k,
{
    if k > 0 {
        lemma_flips_of_two_upto(n, (k - 1) as nat);
        lemma_small_mod((2 * k) as nat, n);
        assert(rem(2, n, k as int) == 2 * k);
    }
}

/// 2 is coprime to every odd number.
pub proof fn lemma_two_coprime_to_odd(n: nat)
    requires
        n % 2 == 1,
    ensures
        gcd(2, n) == 1,
{
    lemma_gcd_halve(1, n);
    lemma_one_coprime(n);
}

/// 1 is coprime to every number.
pub proof fn lemma_one_coprime(n: nat)
    ensures
        gcd(1, n) == 1,
        gcd(n, 1) == 1,
{
    lemma_mod_bound(n as int, 1);
    assert(gcd(n, 1) == gcd(1, n % 1));
    assert(gcd(1, 0) == 1);
    lemma_gcd_symmetric(1, n);
}

/// The second supplement: the sign of 2 is -1 exactly for the odd `n` that
/// are 3 or 5 modulo 8.
pub proof fn lemma_gauss_sign_of_two(n: nat)
    requires
        n % 2 == 1,
    ensures
        gauss_sign(2, n) == two_sign(n),
{
    lemma_two_coprime_to_odd(n);
    lemma_flips_of_two_upto(n, top(n));
}

/// The sign is multiplicative in its first argument.
pub proof fn lemma_gauss_sign_of_product(a: nat, b: nat, n: nat)
    requires
        n % 2 == 1,
    ensures
        gauss_sign(a * b, n) == gauss_sign(a, n) * gauss_sign(b, n),
{
    lemma_coprime_product(a, b, n);
    lemma_sign_times(gauss_sign(a, n), gauss_sign(b, n));
    if gcd(a, n) == 1 && gcd(b, n) == 1 {
        lemma_flips_of_product(a, b, n);
    }
}

/// A factor 2 of the first argument contributes the sign of 2.
pub proof fn lemma_gauss_sign_of_double(b: nat, n: nat)
    requires
        n % 2 == 1,
    ensures
        gauss_sign(2 * b, n) == two_sign(n) * gauss_sign(b, n),
{
    lemma_gcd_halve(b, n);
    lemma_gauss_sign_of_two(n);
    lemma_sign_times(two_sign(n), gauss_sign(b, n));
    lemma_gauss_sign_of_product(2, b, n);
}

/// The sum of the quotients of `a * i` by `n` over the half system of `n`.
pub open spec fn quotients(a: nat, n: nat) -> int {
    sum(|i: int| (a * i) / (n as int), top(n))
}

/// Eisenstein's form of the lemma of Gauss: for odd `a`, the number of
/// flips has the parity of the sum of the quotients.
pub proof fn lemma_flips_parity(a: nat, n: nat)
    requires
        n % 2 == 1,
        a % 2 == 1,
        gcd(a, n) == 1,
    ensures
        (flips(a, n) - quotients(a, n)) % 2 == 0,
{
    let h = top(n);
    let ni = n as int;
    let q = |i: int| (a * i) / ni;
    let r = |i: int| rem(a, n, i);
    let e = |i: int| flip(a, n, i);
    let f = |i: int| fold(a, n, i);
    let id = |i: int| i;
    let qr = |i: int| q(i) + r(i);
    let re = |i: int| r(i) + e(i);
    assert forall|i: int| 1 <= i <= h implies (#[trigger] id(i) - qr(i)) % 2 == 0 by {
        lemma_fundamental_div_mod(a * i, ni);
        let c = (a / 2) as int;
        let d = (n / 2) as int;
        assert(i - (q(i) + r(i)) == 2 * (d * q(i) - c * i)) by (nonlinear_arith)
            requires
                a * i == ni * q(i) + r(i),
                a == 2 * c + 1,
                ni == 2 * d + 1,
        ;
    }
    lemma_sum_parity(id, qr, h);
    assert forall|i: int| 1 <= i <= h implies (#[trigger] f(i) - re(i)) % 2 == 0 by {
        lemma_rem_nonzero(a, n, i);
    }
    lemma_sum_parity(f, re, h);
    // the folded members are the members again
    assert forall|i: int| 1 <= i <= h implies 1 <= #[trigger] f(i) <= h by {
        lemma_fold_range(a, n, i);
    }
    assert forall|i: int, j: int|
        1 <= i <= h && 1 <= j <= h && #[trigger] f(i) == #[trigger] f(j) implies i == j by {
        lemma_fold_injective(a, n, i, j);
    }
    lemma_sum_reindex(id, f, h);
    lemma_sum_ext(|i: int| id(f(i)), f, h);
    lemma_sum_add(q, r, h);
    lemma_sum_add(r, e, h);
    lemma_sum_ext(qr, |i: int| q(i) + r(i), h);
    lemma_sum_ext(re, |i: int| r(i) + e(i), h);
    lemma_sum_ext(e, |i: int| flip(a, n, i), h);
    lemma_sum_ext(q, |i: int| (a * i) / (n as int), h);
}

/// The quotient of `a * i` by `n`, for a member `i` of the half system of
/// `n`, counts the members `j` of the half system of `a` with
/// `n * j < a * i`.
pub proof fn lemma_quotient_counts(a: nat, n: nat, i: int)
    requires
        n % 2 == 1,
        a % 2 == 1,
        gcd(a, n) == 1,
        1 <= i <= top(n),
    ensures
        (a * i) / (n as int) == sum(
            |j: int|
                if n * j < a * i {
                    1int
                } else {
                    0int
                },
            top(a),
        ),
{
    let ni = n as int;
    let x = a * i;
    let q = x / ni;
    lemma_rem_nonzero(a, n, i);
    lemma_fundamental_div_mod(x, ni);
    assert(x >= 1) by (nonlinear_arith)
        requires
            x == a * i,
            a >= 1,
            i >= 1,
    ;
    // n does not divide x, so (x - 1) / n == x / n
    lemma_fundamental_div_mod_converse(x - 1, ni, q, x % ni - 1);
    // and the quotient stays within the half system of a
    let d = (n / 2) as int;
    assert(2 * q < a) by (nonlinear_arith)
        requires
            x == ni * q + x % ni,
            x % ni > 0,
            x == a * i,
            1 <= i <= d,
            ni == 2 * d + 1,
            a >= 1,
    ;
    lemma_count_multiples_below(ni, x, top(a));
    lemma_sum_ext(
        |j: int|
            if ni * j < x {
                1int
            } else {
                0int
            },
        |j: int|
            if n * j < a * i {
                1int
            } else {
                0int
            },
        top(a),
    );
}

/// Eisenstein's count of lattice points: the two sums of quotients fill
/// the rectangle of the two half systems.
pub proof fn lemma_lattice_count(a: nat, n: nat)
    requires
        n % 2 == 1,
        a % 2 == 1,
        gcd(a, n) == 1,
    ensures
        quotients(a, n) + quotients(n, a) == top(a) * top(n),
{
    let h = top(n);
    let k = top(a);
    lemma_gcd_symmetric(a, n);
    let below = |i: int, j: int|
        if n * j < a * i {
            1int
        } else {
            0int
        };
    let above = |i: int, j: int|
        if a * i < n * j {
            1int
        } else {
            0int
        };
    let rows_below = |i: int| sum(|j: int| below(i, j), k);
    let rows_above = |i: int| sum(|j: int| above(i, j), k);
    let columns_above = |j: int| sum(|i: int| above(i, j), h);
    // the quotients of a * i by n are the rows below the diagonal
    assert forall|i: int| 1 <= i <= h implies (a * i) / (n as int) == #[trigger] rows_below(i) by {
        lemma_quotient_counts(a, n, i);
        lemma_sum_ext(
            |j: int|
                if n * j < a * i {
                    1int
                } else {
                    0int
                },
            |j: int| below(i, j),
            k,
        );
    }
    lemma_sum_ext(|i: int| (a * i) / (n as int), rows_below, h);
    // the quotients of n * j by a are the columns above the diagonal
    assert forall|j: int| 1 <= j <= k implies (n * j) / (a as int) == #[trigger] columns_above(
        j,
    ) by {
        lemma_quotient_counts(n, a, j);
        lemma_sum_ext(
            |i: int|
                if a * i < n * j {
                    1int
                } else {
                    0int
                },
            |i: int| above(i, j),
            h,
        );
    }
    lemma_sum_ext(|j: int| (n * j) / (a as int), columns_above, k);
    lemma_sum_swap(above, h, k);
    lemma_sum_ext(rows_above, |i: int| sum(|j: int| above(i, j), k), h);
    lemma_sum_ext(columns_above, |j: int| sum(|i: int| above(i, j), h), k);
    // no lattice point lies on the diagonal, so each row holds k points
    lemma_sum_add(rows_below, rows_above, h);
    assert forall|i: int| 1 <= i <= h implies #[trigger] rows_below(i) + rows_above(i) == k by {
        let one_below = |j: int| below(i, j);
        let one_above = |j: int| above(i, j);
        lemma_sum_add(one_below, one_above, k);
        assert forall|j: int| 1 <= j <= k implies #[trigger] one_below(j) + one_above(j)
            == 1 by {
            if a * i == n * j {
                lemma_multiple_mod(j, n as int);
                lemma_mul_is_commutative(j, n as int);
                lemma_rem_nonzero(a, n, i);
            }
        }
        lemma_sum_ext(|j: int| one_below(j) + one_above(j), |j: int| 1int, k);
        lemma_sum_const(1, k);
        lemma_sum_ext(one_below, |j: int| below(i, j), k);
        lemma_sum_ext(one_above, |j: int| above(i, j), k);
    }
    lemma_sum_ext(|i: int| rows_below(i) + rows_above(i), |i: int| k as int, h);
    lemma_sum_const(k as int, h);
}

/// A product is odd exactly when both factors are.
pub proof fn lemma_product_parity(x: int, y: int)
    ensures
        (x * y) % 2 == if x % 2 == 1 && y % 2 == 1 {
            1int
        } else {
            0int
        },
{
    let c = x / 2;
    let d = y / 2;
    if x % 2 == 0 {
        assert(x * y == 2 * (c * y)) by (nonlinear_arith)
            requires
                x == 2 * c,
        ;
    } else if y % 2 == 0 {
        assert(x * y == 2 * (x * d)) by (nonlinear_arith)
            requires
                y == 2 * d,
        ;
    } else {
        assert(x * y == 2 * (2 * c * d + c + d) + 1) by (nonlinear_arith)
            requires
                x == 2 * c + 1,
                y == 2 * d + 1,
        ;
    }
}

/// The law of quadratic reciprocity, for the signs of two odd numbers:
/// they agree unless both numbers are 3 modulo 4.
pub proof fn lemma_reciprocity(a: nat, n: nat)
    requires
        n % 2 == 1,
        a % 2 == 1,
    ensures
        gauss_sign(a, n) == reciprocity_sign(a, n) * gauss_sign(n, a),
{
    lemma_gcd_symmetric(a, n);
    lemma_sign_times(reciprocity_sign(a, n), gauss_sign(n, a));
    if gcd(a, n) == 1 {
        lemma_flips_parity(a, n);
        lemma_flips_parity(n, a);
        lemma_lattice_count(a, n);
        lemma_product_parity(top(a) as int, top(n) as int);
    }
}

/// The sign depends on its first argument modulo the second only.
pub proof fn lemma_gauss_sign_periodic(a: nat, n: nat)
    requires
        n % 2 == 1,
    ensures
        gauss_sign(a % n, n) == gauss_sign(a, n),
{
    lemma_gcd_mod(a, n);
    assert forall|i: int| 1 <= i <= top(n) implies #[trigger] flip(a % n, n, i) == flip(
        a,
        n,
        i,
    ) by {
        lemma_mul_mod_noop_general(a as int, i, n as int);
    }
    lemma_sum_ext(|i: int| flip(a % n, n, i), |i: int| flip(a, n, i), top(n));
}

/// The sign of a multiple of `n` is 0, unless `n` is 1.
pub proof fn lemma_gauss_sign_of_multiple(a: nat, n: nat)
    requires
        n % 2 == 1,
        a % n == 0,
    ensures
        gauss_sign(a, n) == if n == 1 {
            1int
        } else {
            0int
        },
{
    assert(gcd(a, n) == gcd(n, a % n));
    assert(gcd(n, 0) == n);
}

/// The residue of a product of odd numbers modulo 8 decides its sign of 2
/// as the product of the signs of the factors.
pub proof fn lemma_two_sign_of_product(m: nat, n: nat)
    requires
        m % 2 == 1,
        n % 2 == 1,
    ensures
        (m * n) % 2 == 1,
        two_sign(m * n) == two_sign(m) * two_sign(n),
{
    let r = (m % 8) as int;
    let t = (n % 8) as int;
    lemma_mul_mod_noop(m as int, n as int, 8);
    lemma_product_parity(m as int, n as int);
    lemma_sign_times(two_sign(m), two_sign(n));
    if r == 1 {
        assert(r * t == t) by (nonlinear_arith)
            requires
                r == 1,
        ;
    } else if r == 3 {
        assert(r * t == 3 * t) by (nonlinear_arith)
            requires
                r == 3,
        ;
    } else if r == 5 {
        assert(r * t == 5 * t) by (nonlinear_arith)
            requires
                r == 5,
        ;
    } else {
        assert(r * t == 7 * t) by (nonlinear_arith)
            requires
                r == 7,
        ;
    }
}

/// The residue of a product of odd numbers modulo 4 decides its sign of
/// reciprocity against `a` as the product of the signs of the factors.
pub proof fn lemma_reciprocity_sign_of_product(a: nat, m: nat, n: nat)
    requires
        m % 2 == 1,
        n % 2 == 1,
    ensures
        reciprocity_sign(a, m * n) == reciprocity_sign(a, m) * reciprocity_sign(a, n),
{
    let r = (m % 4) as int;
    let t = (n % 4) as int;
    lemma_mul_mod_noop(m as int, n as int, 4);
    lemma_sign_times(reciprocity_sign(a, m), reciprocity_sign(a, n));
    if r == 1 {
        assert(r * t == t) by (nonlinear_arith)
            requires
                r == 1,
        ;
    } else {
        assert(r * t == 3 * t) by (nonlinear_arith)
            requires
                r == 3,
        ;
    }
}

/// The sign is multiplicative in its second argument.
pub proof fn lemma_gauss_sign_below_product(a: nat, m: nat, n: nat)
    requires
        m % 2 == 1,
        n % 2 == 1,
    ensures
        gauss_sign(a, m * n) == gauss_sign(a, m) * gauss_sign(a, n),
    decreases a,
{
    let mn = m * n;
    lemma_two_sign_of_product(m, n);
    lemma_sign_times(gauss_sign(a, m), gauss_sign(a, n));
    if a == 0 {
        lemma_small_mod(0, m);
        lemma_small_mod(0, n);
        lemma_small_mod(0, mn);
        lemma_gauss_sign_of_multiple(0, m);
        lemma_gauss_sign_of_multiple(0, n);
        lemma_gauss_sign_of_multiple(0, mn);
        assert(mn == 1 <==> (m == 1 && n == 1)) by (nonlinear_arith)
            requires
                mn == m * n,
                m >= 1,
                n >= 1,
        ;
    } else if a % 2 == 0 {
        let b = a / 2;
        lemma_gauss_sign_below_product(b, m, n);
        lemma_gauss_sign_of_double(b, m);
        lemma_gauss_sign_of_double(b, n);
        lemma_gauss_sign_of_double(b, mn);
        lemma_sign_times(gauss_sign(b, m), gauss_sign(b, n));
        lemma_sign_times(two_sign(m), gauss_sign(b, m));
        lemma_sign_times(two_sign(n), gauss_sign(b, n));
        lemma_sign_times(two_sign(m), two_sign(n));
        lemma_sign_times(two_sign(mn), gauss_sign(b, mn));
    } else {
        lemma_reciprocity(a, mn);
        lemma_reciprocity(a, m);
        lemma_reciprocity(a, n);
        lemma_gauss_sign_of_product(m, n, a);
        lemma_reciprocity_sign_of_product(a, m, n);
        lemma_sign_times(gauss_sign(m, a), gauss_sign(n, a));
        lemma_sign_times(reciprocity_sign(a, m), gauss_sign(m, a));
        lemma_sign_times(reciprocity_sign(a, n), gauss_sign(n, a));
        lemma_sign_times(reciprocity_sign(a, m), reciprocity_sign(a, n));
        lemma_sign_times(reciprocity_sign(a, mn), gauss_sign(mn, a));
    }
}

/// The reduction by the law of reciprocity computes the sign.
pub proof fn lemma_by_reciprocity_is_gauss_sign(a: nat, n: nat)
    requires
        n % 2 == 1,
    ensures
        jacobi_by_reciprocity(a, n) == gauss_sign(a, n),
    decreases n, a,
{
    if n == 1 {
        lemma_one_coprime(a);
    } else if a == 0 || a % n == 0 {
        if a == 0 {
            lemma_small_mod(0, n);
        }
        lemma_gauss_sign_of_multiple(a, n);
    } else if a >= n {
        lemma_mod_bound(a as int, n as int);
        lemma_by_reciprocity_is_gauss_sign(a % n, n);
        lemma_gauss_sign_periodic(a, n);
    } else if a % 2 == 0 {
        lemma_by_reciprocity_is_gauss_sign(a / 2, n);
        lemma_gauss_sign_of_double(a / 2, n);
    } else {
        lemma_mod_bound(n as int, a as int);
        lemma_by_reciprocity_is_gauss_sign(n % a, a);
        lemma_gauss_sign_periodic(n, a);
        lemma_reciprocity(a, n);
    }
}

} // verus!
