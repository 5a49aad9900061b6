//! The pairing of the residues of a prime by a product, from which follow
//! Wilson's theorem and Euler's criterion for the Legendre symbol.

use crate::arith::lemma_mul_congruent;
use crate::euler::{lemma_euler_symbol_is_gauss_sign, lemma_prime_coprime};
use crate::gauss::{
    gauss_sign, lemma_gauss_sign_of_multiple, lemma_gauss_sign_of_product,
    lemma_gauss_sign_periodic, lemma_small_multiple,
};
use crate::gcd::{lemma_bezout, lemma_coprime_cancels};
use crate::sums::{
    lemma_product_congruent, lemma_product_ext, lemma_product_mul, lemma_product_of_choices,
    lemma_product_of_ones, lemma_product_reindex, lemma_sum_add, lemma_sum_const, lemma_sum_ext, lemma_sum_reindex,
    product, sum,
};
use crate::symbol::{
    euler_residue, euler_symbol, is_prime, is_quadratic_residue, legendre_symbol,
    lemma_sign_times,
};
use vstd::arithmetic::div_mod::*;
use vstd::arithmetic::mul::*;
use vstd::arithmetic::power::*;
use vstd::prelude::*;

verus! {

/// `y` is the partner of `x` for `a` modulo `p`: the residue from 1 to
/// `p - 1` with `x * y = a mod p`.
pub open spec fn is_partner(a: nat, p: nat, x: int, y: int) -> bool {
    1 <= y < p && (x * y) % (p as int) == a % p
}

/// The partner of `x` for `a` modulo `p`.
pub open spec fn partner(a: nat, p: nat, x: int) -> int {
    choose|y: int| is_partner(a, p, x, y)
}

/// Modulo a prime, every residue from 1 to `p - 1` has a partner for every
/// `a` that the prime does not divide.
pub proof fn lemma_partner_exists(a: nat, p: nat, x: int)
    requires
        is_prime(p),
        a % p != 0,
        1 <= x < p,
    ensures
        is_partner(a, p, x, partner(a, p, x)),
{
    let pi = p as int;
    lemma_small_mod(x as nat, p);
    lemma_prime_coprime(x as nat, p);
    let (u, v) = lemma_bezout(x as nat, p);
    let y = (a * u) % pi;
    lemma_mod_bound(a * u, pi);
    // x * y ≡ x * (a * u) == a * (x * u) ≡ a * 1
    lemma_mul_mod_noop_general(x, a * u, pi);
    assert(x * (a * u) == pi * (-(v * a)) + a) by (nonlinear_arith)
        requires
            x * u + pi * v == 1,
    ;
    lemma_mod_multiples_vanish(-(v * a), a as int, pi);
    assert((x * y) % pi == a % p);
    if y == 0 {
        assert(x * y == 0) by (nonlinear_arith)
            requires
                y == 0,
        ;
        lemma_small_mod(0, p);
    }
    assert(is_partner(a, p, x, y));
}

/// A residue has one partner only.
pub proof fn lemma_partner_unique(a: nat, p: nat, x: int, y: int, z: int)
    requires
        is_prime(p),
        1 <= x < p,
        is_partner(a, p, x, y),
        is_partner(a, p, x, z),
    ensures
        y == z,
{
    let pi = p as int;
    lemma_small_mod(x as nat, p);
    lemma_prime_coprime(x as nat, p);
    lemma_mod_equivalence(x * y, x * z, pi);
    assert(x * y - x * z == x * (y - z)) by (nonlinear_arith);
    lemma_coprime_cancels(x as nat, p, y - z);
    lemma_small_multiple(y - z, pi);
}

/// The partner of the partner of a residue is the residue.
pub proof fn lemma_partner_involution(a: nat, p: nat, x: int)
    requires
        is_prime(p),
        a % p != 0,
        1 <= x < p,
    ensures
        1 <= partner(a, p, x) < p,
        partner(a, p, partner(a, p, x)) == x,
{
    let y = partner(a, p, x);
    lemma_partner_exists(a, p, x);
    lemma_partner_exists(a, p, y);
    lemma_mul_is_commutative(x, y);
    lemma_partner_unique(a, p, y, partner(a, p, y), x);
}

/// The number of residues from 1 to `p - 1` that are below their partners.
pub open spec fn pairs(a: nat, p: nat) -> int {
    sum(
        |x: int|
            if x < partner(a, p, x) {
                1int
            } else {
                0int
            },
        (p - 1) as nat,
    )
}

/// The number of residues from 1 to `p - 1` that are their own partners.
pub open spec fn fixed_count(a: nat, p: nat) -> int {
    sum(
        |x: int|
            if x == partner(a, p, x) {
                1int
            } else {
                0int
            },
        (p - 1) as nat,
    )
}

/// The product of the residues from 1 to `p - 1` that are their own
/// partners.
pub open spec fn fixed_product(a: nat, p: nat) -> int {
    product(
        |x: int|
            if x == partner(a, p, x) {
                x
            } else {
                1int
            },
        (p - 1) as nat,
    )
}

/// The product of the integers from 1 to `n`.
pub open spec fn factorial(n: nat) -> int {
    product(|x: int| x, n)
}

/// The residues from 1 to `p - 1` fall into pairs of partners and those
/// that are their own partners.
pub proof fn lemma_pairs_count(a: nat, p: nat)
    requires
        is_prime(p),
        a % p != 0,
    ensures
        2 * pairs(a, p) + fixed_count(a, p) == p - 1,
{
    let n = (p - 1) as nat;
    let s = |x: int| partner(a, p, x);
    let below = |x: int|
        if x < s(x) {
            1int
        } else {
            0int
        };
    let above = |x: int| below(s(x));
    let fixed = |x: int|
        if x == s(x) {
            1int
        } else {
            0int
        };
    let both = |x: int| below(x) + above(x);
    let all = |x: int| both(x) + fixed(x);
    assert forall|x: int| 1 <= x <= n implies 1 <= #[trigger] s(x) <= n by {
        lemma_partner_involution(a, p, x);
    }
    assert forall|x: int, y: int|
        1 <= x <= n && 1 <= y <= n && #[trigger] s(x) == #[trigger] s(y) implies x == y by {
        lemma_partner_involution(a, p, x);
        lemma_partner_involution(a, p, y);
    }
    lemma_sum_reindex(below, s, n);
    lemma_sum_ext(above, |x: int| below(s(x)), n);
    lemma_sum_add(below, above, n);
    lemma_sum_ext(both, |x: int| below(x) + above(x), n);
    lemma_sum_add(both, fixed, n);
    lemma_sum_ext(all, |x: int| both(x) + fixed(x), n);
    assert forall|x: int| 1 <= x <= n implies #[trigger] all(x) == 1 by {
        lemma_partner_involution(a, p, x);
    }
    lemma_sum_ext(all, |x: int| 1int, n);
    lemma_sum_const(1, n);
    lemma_sum_ext(
        below,
        |x: int|
            if x < partner(a, p, x) {
                1int
            } else {
                0int
            },
        n,
    );
    lemma_sum_ext(
        fixed,
        |x: int|
            if x == partner(a, p, x) {
                1int
            } else {
                0int
            },
        n,
    );
}

/// The product of all residues, taken pair by pair: modulo `p`, the
/// factorial of `p - 1` is `a` to the number of pairs, times the residues
/// that are their own partners.
pub proof fn lemma_pairs_product(a: nat, p: nat)
    requires
        is_prime(p),
        a % p != 0,
    ensures
        pairs(a, p) >= 0,
        factorial((p - 1) as nat) % (p as int) == (pow(a as int, pairs(a, p) as nat)
            * fixed_product(a, p)) % (p as int),
{
    let n = (p - 1) as nat;
    let pi = p as int;
    let id = |x: int| x;
    let s = |x: int| partner(a, p, x);
    let lower = |x: int|
        if x < s(x) {
            x
        } else {
            1int
        };
    let upper = |x: int|
        if x > s(x) {
            x
        } else {
            1int
        };
    let fixed = |x: int|
        if x == s(x) {
            x
        } else {
            1int
        };
    let moved = |x: int| upper(s(x));
    let paired = |x: int| lower(x) * moved(x);
    let split = |x: int| lower(x) * upper(x);
    let whole = |x: int| split(x) * fixed(x);
    let below = |x: int|
        if x < s(x) {
            1int
        } else {
            0int
        };
    let choices = |x: int|
        if below(x) == 1 {
            a as int
        } else {
            1int
        };
    assert forall|x: int| 1 <= x <= n implies 1 <= #[trigger] s(x) <= n by {
        lemma_partner_involution(a, p, x);
    }
    assert forall|x: int, y: int|
        1 <= x <= n && 1 <= y <= n && #[trigger] s(x) == #[trigger] s(y) implies x == y by {
        lemma_partner_involution(a, p, x);
        lemma_partner_involution(a, p, y);
    }
    // every residue is in one of the three classes
    assert forall|x: int| 1 <= x <= n implies #[trigger] id(x) == whole(x) by {
        assert(x * 1 * 1 == x && 1 * x * 1 == x && 1 * 1 * x == x) by (nonlinear_arith);
    }
    lemma_product_ext(id, whole, n);
    lemma_product_mul(split, fixed, n);
    lemma_product_ext(whole, |x: int| split(x) * fixed(x), n);
    lemma_product_mul(lower, upper, n);
    lemma_product_ext(split, |x: int| lower(x) * upper(x), n);
    // the upper residues are the partners of the lower ones
    lemma_product_reindex(upper, s, n);
    lemma_product_ext(moved, |x: int| upper(s(x)), n);
    lemma_product_mul(lower, moved, n);
    lemma_product_ext(paired, |x: int| lower(x) * moved(x), n);
    // and a residue times its partner is a
    assert forall|x: int| 1 <= x <= n implies #[trigger] paired(x) % pi == choices(x) % pi by {
        lemma_partner_involution(a, p, x);
        lemma_partner_exists(a, p, x);
        if x < s(x) {
            lemma_mod_twice(a as int, pi);
        } else {
            assert(1int * 1int == 1) by (nonlinear_arith);
        }
    }
    lemma_product_congruent(paired, choices, n, pi);
    lemma_product_of_choices(a as int, below, n);
    lemma_product_ext(
        choices,
        |x: int|
            if below(x) == 1 {
                a as int
            } else {
                1int
            },
        n,
    );
    lemma_sum_ext(
        below,
        |x: int|
            if x < partner(a, p, x) {
                1int
            } else {
                0int
            },
        n,
    );
    lemma_product_ext(
        fixed,
        |x: int|
            if x == partner(a, p, x) {
                x
            } else {
                1int
            },
        n,
    );
    lemma_product_ext(id, |x: int| x, n);
    // factorial == (lower * upper) * fixed, and lower * upper ≡ a^pairs
    lemma_mul_congruent(
        product(paired, n),
        pow(a as int, pairs(a, p) as nat),
        product(fixed, n),
        pi,
    );
}

/// Modulo a prime, the residues that are their own inverses are 1 and
/// `p - 1`.
pub proof fn lemma_self_inverse(p: nat, x: int)
    requires
        is_prime(p),
        1 <= x < p,
    ensures
        partner(1, p, x) == x <==> (x == 1 || x == p - 1),
{
    let pi = p as int;
    lemma_small_mod(1, p);
    lemma_partner_exists(1, p, x);
    if x == 1 || x == p - 1 {
        if x == 1 {
            assert(x * x == 1) by (nonlinear_arith)
                requires
                    x == 1,
            ;
        } else {
            assert(x * x == pi * (pi - 2) + 1) by (nonlinear_arith)
                requires
                    x == pi - 1,
            ;
            lemma_mod_multiples_vanish(pi - 2, 1, pi);
        }
        lemma_partner_unique(1, p, x, partner(1, p, x), x);
    }
    if partner(1, p, x) == x && x != 1 {
        // p divides x * x - 1 == (x - 1) * (x + 1), and not x - 1
        lemma_mod_equivalence(x * x, 1, pi);
        assert(x * x - 1 == (x - 1) * (x + 1)) by (nonlinear_arith);
        lemma_small_mod((x - 1) as nat, p);
        lemma_prime_coprime((x - 1) as nat, p);
        lemma_coprime_cancels((x - 1) as nat, p, x + 1);
        lemma_mod_multiples_vanish(-1, x + 1, pi);
        lemma_small_multiple(x + 1 - pi, pi);
    }
}

/// The product of a function that is 1 between 1 and `n`, the identity at
/// those two, is `n`.
pub proof fn lemma_product_of_ends(w: spec_fn(int) -> int, n: nat, k: nat)
    requires
        n >= 2,
        1 <= k <= n,
        forall|x: int|
            1 <= x <= n ==> #[trigger] w(x) == if x == 1 || x == n {
                x
            } else {
                1int
            },
    ensures
        product(w, k) == if k == n {
            n as int
        } else {
            1int
        },
    decreases k,
{
    assert(w(k as int) == if k == 1 || k == n {
        k as int
    } else {
        1int
    });
    if k == 1 {
        assert(product(w, 0) == 1);
        assert(1int * 1int == 1) by (nonlinear_arith);
    } else {
        lemma_product_of_ends(w, n, (k - 1) as nat);
        assert(1 * (k as int) == k && 1int * 1int == 1) by (nonlinear_arith);
    }
}

/// Wilson's theorem: modulo an odd prime `p`, the factorial of `p - 1` is
/// -1.
pub proof fn lemma_wilson(p: nat)
    requires
        is_prime(p),
        p % 2 == 1,
    ensures
        factorial((p - 1) as nat) % (p as int) == p - 1,
{
    let n = (p - 1) as nat;
    let pi = p as int;
    lemma_small_mod(1, p);
    lemma_pairs_product(1, p);
    let w = |x: int|
        if x == partner(1, p, x) {
            x
        } else {
            1int
        };
    assert forall|x: int| 1 <= x <= n implies #[trigger] w(x) == if x == 1 || x == n {
        x
    } else {
        1int
    } by {
        lemma_self_inverse(p, x);
    }
    lemma_product_of_ends(w, n, n);
    lemma1_pow(pairs(1, p) as nat);
    assert(1 * (n as int) == n) by (nonlinear_arith);
    lemma_small_mod(n, p);
}

/// Modulo an odd prime `p`, the power `a^((p - 1) / 2)` of an `a` that is
/// no quadratic residue is -1.
pub proof fn lemma_power_of_nonresidue(a: nat, p: nat)
    requires
        is_prime(p),
        p % 2 == 1,
        !is_quadratic_residue(a, p),
    ensures
        euler_residue(a, p) == p - 1,
{
    let n = (p - 1) as nat;
    let pi = p as int;
    // 0 is the square of 0
    if a % p == 0 {
        assert((0nat * 0nat) % p == 0) by {
            assert(0nat * 0nat == 0) by (nonlinear_arith);
            lemma_small_mod(0, p);
        }
    }
    lemma_pairs_product(a, p);
    lemma_pairs_count(a, p);
    lemma_wilson(p);
    // no residue is its own partner
    assert forall|x: int| 1 <= x <= n implies x != #[trigger] partner(a, p, x) by {
        lemma_partner_exists(a, p, x);
        if x == partner(a, p, x) {
            let y = x as nat;
            assert((y * y) % p == a % p);
        }
    }
    lemma_sum_ext(
        |x: int|
            if x == partner(a, p, x) {
                1int
            } else {
                0int
            },
        |x: int| 0int,
        n,
    );
    lemma_sum_const(0, n);
    lemma_product_ext(
        |x: int|
            if x == partner(a, p, x) {
                x
            } else {
                1int
            },
        |x: int| 1int,
        n,
    );
    lemma_product_of_ones(n);
    let power = pow(a as int, pairs(a, p) as nat);
    assert(power * 1 == power) by (nonlinear_arith);
}

/// Euler's criterion: the Legendre symbol of an odd prime `p` is the power
/// `a^((p - 1) / 2)` modulo `p`, read as a sign.
pub proof fn lemma_legendre_is_euler_symbol(a: nat, p: nat)
    requires
        is_prime(p),
        p % 2 == 1,
    ensures
        legendre_symbol(a, p) == euler_symbol(a, p),
{
    let pi = p as int;
    lemma_euler_symbol_is_gauss_sign(a, p);
    if a % p == 0 {
        lemma_gauss_sign_of_multiple(a, p);
    } else if is_quadratic_residue(a, p) {
        let x = choose|x: nat| #[trigger] ((x * x) % p) == a % p;
        // p does not divide x, so the sign of its square is 1
        if x % p == 0 {
            lemma_mul_mod_noop(x as int, x as int, pi);
            assert(0int * 0int == 0) by (nonlinear_arith);
            lemma_small_mod(0, p);
        }
        lemma_prime_coprime(x, p);
        lemma_gauss_sign_of_product(x, x, p);
        lemma_sign_times(gauss_sign(x, p), gauss_sign(x, p));
        lemma_gauss_sign_periodic(x * x, p);
        lemma_gauss_sign_periodic(a, p);
    } else {
        lemma_power_of_nonresidue(a, p);
    }
}

} // verus!
