//! Modular arithmetic on `u128`, the widest word: sums are kept from
//! overflowing by comparison, and products are built by doubling.

use crate::arith::{lemma_mul_step, lemma_pow_step, lemma_wrapping_sub};
use crate::gcd::{gcd, lemma_cofactor_step, lemma_has_inverse_iff_coprime};
use crate::jacobi::{lemma_jacobi_by_reciprocity, lemma_kronecker_range};
use crate::symbol::{
    jacobi_by_reciprocity, kronecker_symbol, kronecker_two, lemma_by_reciprocity_periodic,
    lemma_sign_times, reciprocity_sign, two_sign,
};
use crate::ModularOps;
use vstd::arithmetic::div_mod::*;
use vstd::arithmetic::mul::*;
use vstd::arithmetic::power::*;
use vstd::prelude::*;

verus! {

impl ModularOps<&u128, &u128> for &u128 {
    type Output = u128;

    open spec fn value(self) -> nat {
        *self as nat
    }

    open spec fn rhs_value(rhs: &u128) -> nat {
        *rhs as nat
    }

    open spec fn modulus_value(m: &u128) -> nat {
        *m as nat
    }

    open spec fn output_value(out: u128) -> nat {
        out as nat
    }

    fn addm(self, rhs: &u128, m: &u128) -> (r: u128) {
        let a: u128 = *self % *m;
        let b: u128 = *rhs % *m;
        let room: u128 = *m - b;
        proof {
            lemma_add_mod_noop(*self as int, *rhs as int, *m as int);
            if a >= room {
                lemma_fundamental_div_mod_converse(a + b, *m as int, 1, a - room);
            } else {
                lemma_small_mod((a + b) as nat, *m as nat);
            }
        }
        if a >= room {
            a - room
        } else {
            a + b
        }
    }

    fn subm(self, rhs: &u128, m: &u128) -> (r: u128) {
        let a: u128 = *self % *m;
        let b: u128 = *rhs % *m;
        proof {
            lemma_sub_mod_noop(*self as int, *rhs as int, *m as int);
            lemma_wrapping_sub(a as int, b as int, *m as int);
        }
        if a >= b {
            a - b
        } else {
            *m - (b - a)
        }
    }

    fn mulm(self, rhs: &u128, m: &u128) -> (r: u128) {
        let mut x: u128 = *self % *m;
        let mut y: u128 = *rhs;
        let mut result: u128 = 0;
        proof {
            lemma_mul_mod_noop_general(*self as int, *rhs as int, *m as int);
        }
        while y > 0
            invariant
                *m > 0,
                x < *m,
                result < *m,
                (result + x * y) % (*m as int) == (*self * *rhs) % (*m as int),
            decreases y,
        {
            proof {
                lemma_mul_step(result as int, x as int, y as nat, *m as int);
                lemma_add_mod_noop(x as int, x as int, *m as int);
            }
            if y % 2 == 1 {
                result = (&result).addm(&x, m);
            }
            x = (&x).addm(&x, m);
            y = y / 2;
        }
        proof {
            lemma_mul_basics(x as int);
            lemma_small_mod(result as nat, *m as nat);
        }
        result
    }

    fn powm(self, exp: &u128, m: &u128) -> (r: u128) {
        let mut multi: u128 = *self % *m;
        let mut e: u128 = *exp;
        let mut result: u128 = 1 % *m;
        proof {
            lemma_pow_mod_noop(*self as int, *exp as nat, *m as int);
            lemma_mul_mod_noop_general(1, pow(multi as int, e as nat), *m as int);
        }
        while e > 0
            invariant
                *m > 0,
                multi < *m,
                result < *m,
                (result * pow(multi as int, e as nat)) % (*m as int) == pow(
                    *self as int,
                    *exp as nat,
                ) % (*m as int),
            decreases e,
        {
            proof {
                lemma_pow_step(result as int, multi as int, e as nat, *m as int);
            }
            if e % 2 == 1 {
                result = (&result).mulm(&multi, m);
            }
            multi = (&multi).mulm(&multi, m);
            e = e / 2;
        }
        proof {
            lemma_pow0(multi as int);
            lemma_small_mod(result as nat, *m as nat);
        }
        result
    }

    fn negm(self, m: &u128) -> (r: u128) {
        let a: u128 = *self % *m;
        proof {
            lemma_sub_mod_noop(0, *self as int, *m as int);
            lemma_wrapping_sub(0, a as int, *m as int);
        }
        if a == 0 {
            0
        } else {
            *m - a
        }
    }

    fn invm(self, m: &u128) -> (r: Option<u128>) {
        let ghost a: int = *self as int;
        let ghost modulus: int = *m as int;
        // Euclid's algorithm on the remainders, with the cofactors of `self`
        // kept as residues: last_t * self = last_r and t * self = r modulo m
        let mut last_r: u128 = *m;
        let mut r: u128 = *self % *m;
        let mut last_t: u128 = 0;
        let mut t: u128 = 1 % *m;
        proof {
            lemma_mod_self_0(modulus);
            lemma_mul_basics(a);
            lemma_mul_mod_noop_general(1, a, modulus);
            lemma_mod_twice(a, modulus);
        }
        while r > 0
            invariant
                modulus == *m,
                a == *self,
                modulus > 0,
                last_r > 0,
                last_t < modulus,
                t < modulus,
                (last_t * a) % modulus == (last_r as int) % modulus,
                (t * a) % modulus == (r as int) % modulus,
                gcd(last_r as nat, r as nat) == gcd(a as nat, modulus as nat),
            decreases r,
        {
            let quo: u128 = last_r / r;
            let rem: u128 = last_r % r;
            proof {
                lemma_cofactor_step(
                    a,
                    modulus,
                    last_t as int,
                    t as int,
                    last_r as int,
                    r as int,
                    quo as int,
                );
                lemma_fundamental_div_mod(last_r as int, r as int);
                lemma_mul_is_commutative(quo as int, r as int);
                lemma_mod_bound(last_t - (quo * t) % modulus, modulus);
            }
            let new_t: u128 = (&last_t).subm(&(&quo).mulm(&t, m), m);
            last_r = r;
            r = rem;
            last_t = t;
            t = new_t;
        }
        // last_r is the greatest common divisor
        if last_r > 1 {
            proof {
                lemma_has_inverse_iff_coprime(*self as nat, *m as nat);
            }
            None
        } else {
            proof {
                lemma_mul_is_commutative(last_t as int, a);
                lemma_has_inverse_iff_coprime(*self as nat, *m as nat);
            }
            Some(last_t)
        }
    }

    fn jacobi(self, n: &u128) -> (r: i8) {
        let ghost a0: nat = *self as nat;
        let ghost n0: nat = *n as nat;
        let mut a: u128 = *self % *n;
        let mut n: u128 = *n;
        let mut t: i8 = 1;
        proof {
            lemma_jacobi_by_reciprocity(a0, n0);
            lemma_by_reciprocity_periodic(a0, n0);
            lemma_sign_times(1, jacobi_by_reciprocity(a as nat, n as nat));
        }
        while a > 0
            invariant
                n % 2 == 1,
                a < n,
                t == 1 || t == -1,
                t * jacobi_by_reciprocity(a as nat, n as nat) == jacobi_by_reciprocity(a0, n0),
            decreases n,
        {
            while a % 2 == 0
                invariant
                    n % 2 == 1,
                    0 < a < n,
                    t == 1 || t == -1,
                    t * jacobi_by_reciprocity(a as nat, n as nat) == jacobi_by_reciprocity(a0, n0),
                decreases a,
            {
                proof {
                    lemma_small_mod(a as nat, n as nat);
                    lemma_sign_times(t as int, jacobi_by_reciprocity(a as nat, n as nat));
                    lemma_sign_times(-t, jacobi_by_reciprocity((a / 2) as nat, n as nat));
                    lemma_sign_times(t as int, jacobi_by_reciprocity((a / 2) as nat, n as nat));
                    lemma_sign_times(two_sign(n as nat), jacobi_by_reciprocity((a / 2) as nat, n as nat));
                }
                // a factor 2 contributes the symbol (2|n)
                a = a / 2;
                if n % 8 == 3 || n % 8 == 5 {
                    t = -t;
                }
            }
            proof {
                lemma_small_mod(a as nat, n as nat);
                lemma_sign_times(t as int, jacobi_by_reciprocity(a as nat, n as nat));
                lemma_sign_times(-t, jacobi_by_reciprocity((n % a) as nat, a as nat));
                lemma_sign_times(t as int, jacobi_by_reciprocity((n % a) as nat, a as nat));
                lemma_sign_times(
                    reciprocity_sign(a as nat, n as nat),
                    jacobi_by_reciprocity((n % a) as nat, a as nat),
                );
            }
            // a is odd and below n: exchange the two by the law of reciprocity
            let swapped: u128 = a;
            a = n;
            n = swapped;
            if a % 4 == 3 && n % 4 == 3 {
                t = -t;
            }
            a = a % n;
        }
        proof {
            lemma_sign_times(t as int, jacobi_by_reciprocity(a as nat, n as nat));
        }
        if n == 1 {
            t
        } else {
            0
        }
    }

    fn kronecker(self, n: &u128) -> (r: i8) {
        let ghost a0: nat = *self as nat;
        let ghost n0: nat = *n as nat;
        proof {
            lemma_kronecker_range(a0, n0);
        }
        if *n == 0 {
            return if *self == 1 {
                1
            } else {
                0
            };
        }
        let two: i8 = if *self % 2 == 0 {
            0
        } else if *self % 8 == 1 || *self % 8 == 7 {
            1
        } else {
            -1
        };
        // each factor 2 of n contributes the symbol (a|2)
        let mut n: u128 = *n;
        let mut t: i8 = 1;
        proof {
            lemma_sign_times(1, kronecker_symbol(a0, n0));
        }
        while n % 2 == 0
            invariant
                n > 0,
                -1 <= t <= 1,
                two == kronecker_two(a0),
                t * kronecker_symbol(a0, n as nat) == kronecker_symbol(a0, n0),
            decreases n,
        {
            proof {
                let k = kronecker_symbol(a0, (n / 2) as nat);
                lemma_sign_times(t as int, kronecker_symbol(a0, n as nat));
                lemma_sign_times(two as int, k);
                lemma_sign_times(t as int, k);
                lemma_sign_times(-t, k);
                lemma_sign_times(0, k);
            }
            n = n / 2;
            t = if two == 0 {
                0
            } else if two == 1 {
                t
            } else {
                -t
            };
        }
        let j: i8 = self.jacobi(&n);
        proof {
            lemma_sign_times(t as int, j as int);
        }
        if t == 0 {
            0
        } else if t == 1 {
            j
        } else {
            -j
        }
    }
}

impl ModularOps<u128, &u128> for u128 {
    type Output = u128;

    open spec fn value(self) -> nat {
        self as nat
    }

    open spec fn rhs_value(rhs: u128) -> nat {
        rhs as nat
    }

    open spec fn modulus_value(m: &u128) -> nat {
        *m as nat
    }

    open spec fn output_value(out: u128) -> nat {
        out as nat
    }

    fn addm(self, rhs: u128, m: &u128) -> (r: u128) {
        (&self).addm(&rhs, m)
    }

    fn subm(self, rhs: u128, m: &u128) -> (r: u128) {
        (&self).subm(&rhs, m)
    }

    fn mulm(self, rhs: u128, m: &u128) -> (r: u128) {
        (&self).mulm(&rhs, m)
    }

    fn powm(self, exp: u128, m: &u128) -> (r: u128) {
        (&self).powm(&exp, m)
    }

    fn negm(self, m: &u128) -> (r: u128) {
        (&self).negm(m)
    }

    fn invm(self, m: &u128) -> (r: Option<u128>) {
        (&self).invm(m)
    }

    fn jacobi(self, n: &u128) -> (r: i8) {
        (&self).jacobi(n)
    }

    fn kronecker(self, n: &u128) -> (r: i8) {
        (&self).kronecker(n)
    }
}

} // verus!
