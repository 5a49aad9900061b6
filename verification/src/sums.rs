//! Finite sums and products over the integers from 1 to a bound.

use vstd::arithmetic::div_mod::{lemma_fundamental_div_mod, lemma_mod_bound, lemma_mul_mod_noop};
use vstd::arithmetic::power::{lemma_pow0, pow};
use vstd::prelude::*;

verus! {

/// The sum of `f(i)` for `i` from 1 to `k`.
pub open spec fn sum(f: spec_fn(int) -> int, k: nat) -> int
    decreases k,
{
    if k == 0 {
        0
    } else {
        sum(f, (k - 1) as nat) + f(k as int)
    }
}

/// Sums of functions that agree from 1 to `k` are equal.
pub proof fn lemma_sum_ext(f: spec_fn(int) -> int, g: spec_fn(int) -> int, k: nat)
    requires
        forall|i: int| 1 <= i <= k ==> #[trigger] f(i) == g(i),
    ensures
        sum(f, k) == sum(g, k),
    decreases k,
{
    if k > 0 {
        lemma_sum_ext(f, g, (k - 1) as nat);
    }
}

/// The sum of a pointwise sum is the sum of the sums.
pub proof fn lemma_sum_add(f: spec_fn(int) -> int, g: spec_fn(int) -> int, k: nat)
    ensures
        sum(|i: int| f(i) + g(i), k) == sum(f, k) + sum(g, k),
    decreases k,
{
    if k > 0 {
        lemma_sum_add(f, g, (k - 1) as nat);
    }
}

/// Sums of functions that agree modulo 2 from 1 to `k` agree modulo 2.
pub proof fn lemma_sum_parity(f: spec_fn(int) -> int, g: spec_fn(int) -> int, k: nat)
    requires
        forall|i: int| 1 <= i <= k ==> (#[trigger] f(i) - g(i)) % 2 == 0,
    ensures
        (sum(f, k) - sum(g, k)) % 2 == 0,
    decreases k,
{
    if k > 0 {
        lemma_sum_parity(f, g, (k - 1) as nat);
        assert((f(k as int) - g(k as int)) % 2 == 0);
    }
}

/// The sum of a constant.
pub proof fn lemma_sum_const(c: int, k: nat)
    ensures
        sum(|i: int| c, k) == c * k,
    decreases k,
{
    if k > 0 {
        lemma_sum_const(c, (k - 1) as nat);
        assert(c * (k - 1) + c == c * k) by (nonlinear_arith);
    } else {
        assert(c * 0 == 0) by (nonlinear_arith);
    }
}

/// Leaving out the term at `v`: the sum over the other arguments, moved
/// together, is the whole sum less `f(v)`.
pub proof fn lemma_sum_skip(f: spec_fn(int) -> int, v: int, h: nat)
    requires
        1 <= v <= h,
    ensures
        sum(
            |x: int|
                if x >= v {
                    f(x + 1)
                } else {
                    f(x)
                },
            (h - 1) as nat,
        ) == sum(f, h) - f(v),
    decreases h,
{
    let g = |x: int|
        if x >= v {
            f(x + 1)
        } else {
            f(x)
        };
    if v == h {
        lemma_sum_ext(g, f, (h - 1) as nat);
    } else {
        lemma_sum_skip(f, v, (h - 1) as nat);
        let g1 = |x: int|
            if x >= v {
                f(x + 1)
            } else {
                f(x)
            };
        assert(sum(g, (h - 1) as nat) == sum(g, (h - 2) as nat) + g(h - 1));
        assert(g(h - 1) == f(h as int));
    }
}

/// A sum does not change when its arguments are permuted: for a one-to-one
/// map `s` of the integers from 1 to `h` into themselves, the sum of
/// `f(s(i))` is the sum of `f(i)`.
pub proof fn lemma_sum_reindex(f: spec_fn(int) -> int, s: spec_fn(int) -> int, h: nat)
    requires
        forall|i: int| 1 <= i <= h ==> 1 <= #[trigger] s(i) <= h,
        forall|i: int, j: int|
            1 <= i <= h && 1 <= j <= h && #[trigger] s(i) == #[trigger] s(j) ==> i == j,
    ensures
        sum(|i: int| f(s(i)), h) == sum(f, h),
    decreases h,
{
    if h > 0 {
        let v = s(h as int);
        let f1 = |x: int|
            if x >= v {
                f(x + 1)
            } else {
                f(x)
            };
        let s1 = |i: int|
            if s(i) > v {
                s(i) - 1
            } else {
                s(i)
            };
        let k = (h - 1) as nat;
        assert forall|i: int| 1 <= i <= k implies 1 <= #[trigger] s1(i) <= k by {
            assert(1 <= s(i) <= h);
            assert(s(i) != s(h as int));
        }
        assert forall|i: int, j: int|
            1 <= i <= k && 1 <= j <= k && #[trigger] s1(i) == #[trigger] s1(j) implies i == j by {
            assert(s(i) != s(h as int));
            assert(s(j) != s(h as int));
            assert(s(i) == s(j));
        }
        lemma_sum_reindex(f1, s1, k);
        lemma_sum_skip(f, v, h);
        assert forall|i: int| 1 <= i <= k implies #[trigger] f1(s1(i)) == f(s(i)) by {
            assert(s(i) != s(h as int));
        }
        lemma_sum_ext(|i: int| f1(s1(i)), |i: int| f(s(i)), k);
    }
}

/// The order of two summations can be exchanged.
pub proof fn lemma_sum_swap(g: spec_fn(int, int) -> int, h: nat, k: nat)
    ensures
        sum(|i: int| sum(|j: int| g(i, j), k), h) == sum(|j: int| sum(|i: int| g(i, j), h), k),
    decreases h,
{
    let rows = |i: int| sum(|j: int| g(i, j), k);
    let columns = |j: int| sum(|i: int| g(i, j), h);
    if h == 0 {
        lemma_sum_const(0, k);
        lemma_sum_ext(columns, |j: int| 0int, k);
    } else {
        let above = (h - 1) as nat;
        lemma_sum_swap(g, above, k);
        let columns_above = |j: int| sum(|i: int| g(i, j), above);
        let last = |j: int| g(h as int, j);
        lemma_sum_add(columns_above, last, k);
        assert forall|j: int| 1 <= j <= k implies #[trigger] columns(j) == columns_above(j) + last(
            j,
        ) by {
            let column = |i: int| g(i, j);
            assert(sum(column, h) == sum(column, above) + column(h as int));
        }
        lemma_sum_ext(columns, |j: int| columns_above(j) + last(j), k);
        lemma_sum_ext(rows, |i: int| sum(|j: int| g(i, j), k), above);
        assert(sum(rows, h) == sum(rows, above) + rows(h as int));
    }
}

/// The number of positive multiples `n * j` below `x` with `j` up to `k`.
pub proof fn lemma_count_multiples_below(n: int, x: int, k: nat)
    requires
        n > 0,
        x >= 1,
    ensures
        sum(
            |j: int|
                if n * j < x {
                    1int
                } else {
                    0int
                },
            k,
        ) == if k <= (x - 1) / n {
            k as int
        } else {
            (x - 1) / n
        },
    decreases k,
{
    let q = (x - 1) / n;
    lemma_fundamental_div_mod(x - 1, n);
    lemma_mod_bound(x - 1, n);
    assert(q >= 0) by (nonlinear_arith)
        requires
            x - 1 == n * q + (x - 1) % n,
            0 <= (x - 1) % n < n,
            x >= 1,
            n > 0,
    ;
    if k > 0 {
        lemma_count_multiples_below(n, x, (k - 1) as nat);
        // n * k < x exactly when k <= q
        assert((n * k < x) <==> (k <= q)) by (nonlinear_arith)
            requires
                x - 1 == n * q + (x - 1) % n,
                0 <= (x - 1) % n < n,
                n > 0,
        ;
    }
}

/// The product of `f(i)` for `i` from 1 to `k`.
pub open spec fn product(f: spec_fn(int) -> int, k: nat) -> int
    decreases k,
{
    if k == 0 {
        1
    } else {
        product(f, (k - 1) as nat) * f(k as int)
    }
}

/// Products of functions that agree from 1 to `k` are equal.
pub proof fn lemma_product_ext(f: spec_fn(int) -> int, g: spec_fn(int) -> int, k: nat)
    requires
        forall|i: int| 1 <= i <= k ==> #[trigger] f(i) == g(i),
    ensures
        product(f, k) == product(g, k),
    decreases k,
{
    if k > 0 {
        lemma_product_ext(f, g, (k - 1) as nat);
    }
}

/// Products of functions that are congruent modulo `m` from 1 to `k` are
/// congruent modulo `m`.
pub proof fn lemma_product_congruent(
    f: spec_fn(int) -> int,
    g: spec_fn(int) -> int,
    k: nat,
    m: int,
)
    requires
        m > 0,
        forall|i: int| 1 <= i <= k ==> #[trigger] f(i) % m == g(i) % m,
    ensures
        product(f, k) % m == product(g, k) % m,
    decreases k,
{
    if k > 0 {
        let j = (k - 1) as nat;
        lemma_product_congruent(f, g, j, m);
        assert(f(k as int) % m == g(k as int) % m);
        lemma_mul_mod_noop(product(f, j), f(k as int), m);
        lemma_mul_mod_noop(product(g, j), g(k as int), m);
    }
}

/// The product of a pointwise product is the product of the products.
pub proof fn lemma_product_mul(f: spec_fn(int) -> int, g: spec_fn(int) -> int, k: nat)
    ensures
        product(|i: int| f(i) * g(i), k) == product(f, k) * product(g, k),
    decreases k,
{
    let fg = |i: int| f(i) * g(i);
    if k > 0 {
        let j = (k - 1) as nat;
        lemma_product_mul(f, g, j);
        let x = product(f, j);
        let y = product(g, j);
        let u = f(k as int);
        let v = g(k as int);
        assert(product(fg, k) == product(fg, j) * fg(k as int));
        assert((x * y) * (u * v) == (x * u) * (y * v)) by (nonlinear_arith);
    } else {
        assert(1int * 1int == 1) by (nonlinear_arith);
    }
}

/// The product of the multiples `a * i` is a power of `a` times the
/// product of the `i`.
pub proof fn lemma_product_of_multiples(a: int, k: nat)
    ensures
        product(|i: int| a * i, k) == pow(a, k) * product(|i: int| i, k),
    decreases k,
{
    let multiples = |i: int| a * i;
    let id = |i: int| i;
    if k > 0 {
        let j = (k - 1) as nat;
        lemma_product_of_multiples(a, j);
        reveal(pow);
        let x = pow(a, j);
        let y = product(id, j);
        assert(pow(a, k) == a * x);
        assert(product(multiples, k) == product(multiples, j) * multiples(k as int));
        assert(product(id, k) == y * id(k as int));
        assert((x * y) * (a * k) == (a * x) * (y * k)) by (nonlinear_arith);
    } else {
        lemma_pow0(a);
        assert(1int * 1int == 1) by (nonlinear_arith);
    }
}

/// A product of signs is a sign: with `e(i)` 0 or 1, the product of the
/// `1 - 2 * e(i)` is 1 or -1 as the sum of the `e(i)` is even or odd.
pub proof fn lemma_product_of_signs(e: spec_fn(int) -> int, k: nat)
    requires
        forall|i: int| 1 <= i <= k ==> #[trigger] e(i) == 0 || e(i) == 1,
    ensures
        product(|i: int| 1 - 2 * e(i), k) == if sum(e, k) % 2 == 0 {
            1int
        } else {
            -1int
        },
    decreases k,
{
    let signs = |i: int| 1 - 2 * e(i);
    if k > 0 {
        let j = (k - 1) as nat;
        lemma_product_of_signs(e, j);
        assert(e(k as int) == 0 || e(k as int) == 1);
        let x = product(signs, j);
        let y = signs(k as int);
        assert(product(signs, k) == x * y);
        assert(x * y == if y == 1 {
            x
        } else {
            -x
        }) by (nonlinear_arith)
            requires
                y == 1 || y == -1,
        ;
    }
}

/// Leaving out the factor at `v`: the product over the other arguments,
/// moved together, times `f(v)` is the whole product.
pub proof fn lemma_product_skip(f: spec_fn(int) -> int, v: int, h: nat)
    requires
        1 <= v <= h,
    ensures
        product(
            |x: int|
                if x >= v {
                    f(x + 1)
                } else {
                    f(x)
                },
            (h - 1) as nat,
        ) * f(v) == product(f, h),
    decreases h,
{
    let g = |x: int|
        if x >= v {
            f(x + 1)
        } else {
            f(x)
        };
    if v == h {
        lemma_product_ext(g, f, (h - 1) as nat);
    } else {
        lemma_product_skip(f, v, (h - 1) as nat);
        let x = product(g, (h - 2) as nat);
        assert(product(g, (h - 1) as nat) == x * g(h - 1));
        assert(g(h - 1) == f(h as int));
        assert((x * f(h as int)) * f(v) == (x * f(v)) * f(h as int)) by (nonlinear_arith);
    }
}

/// A product does not change when its arguments are permuted: for a
/// one-to-one map `s` of the integers from 1 to `h` into themselves, the
/// product of `f(s(i))` is the product of `f(i)`.
pub proof fn lemma_product_reindex(f: spec_fn(int) -> int, s: spec_fn(int) -> int, h: nat)
    requires
        forall|i: int| 1 <= i <= h ==> 1 <= #[trigger] s(i) <= h,
        forall|i: int, j: int|
            1 <= i <= h && 1 <= j <= h && #[trigger] s(i) == #[trigger] s(j) ==> i == j,
    ensures
        product(|i: int| f(s(i)), h) == product(f, h),
    decreases h,
{
    if h > 0 {
        let v = s(h as int);
        let f1 = |x: int|
            if x >= v {
                f(x + 1)
            } else {
                f(x)
            };
        let s1 = |i: int|
            if s(i) > v {
                s(i) - 1
            } else {
                s(i)
            };
        let k = (h - 1) as nat;
        assert forall|i: int| 1 <= i <= k implies 1 <= #[trigger] s1(i) <= k by {
            assert(1 <= s(i) <= h);
            assert(s(i) != s(h as int));
        }
        assert forall|i: int, j: int|
            1 <= i <= k && 1 <= j <= k && #[trigger] s1(i) == #[trigger] s1(j) implies i == j by {
            assert(s(i) != s(h as int));
            assert(s(j) != s(h as int));
            assert(s(i) == s(j));
        }
        lemma_product_reindex(f1, s1, k);
        lemma_product_skip(f, v, h);
        assert forall|i: int| 1 <= i <= k implies #[trigger] f1(s1(i)) == f(s(i)) by {
            assert(s(i) != s(h as int));
        }
        lemma_product_ext(|i: int| f1(s1(i)), |i: int| f(s(i)), k);
    }
}

/// The product of ones is 1.
pub proof fn lemma_product_of_ones(k: nat)
    ensures
        product(|i: int| 1int, k) == 1,
    decreases k,
{
    if k > 0 {
        lemma_product_of_ones((k - 1) as nat);
    }
}

/// A product whose factors are `a` or 1 is a power of `a`: with `e(i)` 0
/// or 1, the product of `a` where `e(i)` is 1 is `a` to the sum of the
/// `e(i)`.
pub proof fn lemma_product_of_choices(a: int, e: spec_fn(int) -> int, k: nat)
    requires
        forall|i: int| 1 <= i <= k ==> #[trigger] e(i) == 0 || e(i) == 1,
    ensures
        sum(e, k) >= 0,
        product(
            |i: int|
                if e(i) == 1 {
                    a
                } else {
                    1int
                },
            k,
        ) == pow(a, sum(e, k) as nat),
    decreases k,
{
    let choices = |i: int|
        if e(i) == 1 {
            a
        } else {
            1int
        };
    if k > 0 {
        let j = (k - 1) as nat;
        lemma_product_of_choices(a, e, j);
        assert(e(k as int) == 0 || e(k as int) == 1);
        let x = product(choices, j);
        assert(product(choices, k) == x * choices(k as int));
        if e(k as int) == 1 {
            reveal(pow);
            assert(pow(a, (sum(e, j) + 1) as nat) == a * pow(a, sum(e, j) as nat));
            assert(x * a == a * x) by (nonlinear_arith);
        } else {
            assert(x * 1 == x) by (nonlinear_arith);
        }
    } else {
        lemma_pow0(a);
    }
}

} // verus!
