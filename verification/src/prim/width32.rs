//! Modular arithmetic on `u32`, with `u64` intermediates.

use crate::arith::{lemma_pow_step, lemma_wrapping_sub};
use crate::gcd::{gcd, lemma_cofactor_step, lemma_has_inverse_iff_coprime};
use crate::jacobi::{lemma_jacobi_by_reciprocity, lemma_kronecker_range};
use crate::symbol::{
    jacobi_by_reciprocity, kronecker_symbol, kronecker_two, lemma_by_reciprocity_periodic,
    lemma_sign_times, reciprocity_sign, two_sign,
};
use crate::ModularOps;
use vstd::arithmetic::div_mod::*;
use vstd::arithmetic::mul::*;
use vstd::arithmetic::power::*;
use vstd::prelude::*;

verus! {

impl ModularOps<&u32, &u32> for &u32 {
    type Output = u32;

    open spec fn value(self) -> nat {
        *self as nat
    }

    open spec fn rhs_value(rhs: &u32) -> nat {
        *rhs as nat
    }

    open spec fn modulus_value(m: &u32) -> nat {
        *m as nat
    }

    open spec fn output_value(out: u32) -> nat {
        out as nat
    }

    fn addm(self, rhs: &u32, m: &u32) -> (r: u32) {
        let md: u64 = *m as u64;
        let sum: u64 = (*self % *m) as u64 + (*rhs % *m) as u64;
        proof {
            lemma_add_mod_noop(*self as int, *rhs as int, *m as int);
            if sum >= md {
                lemma_fundamental_div_mod_converse(sum as int, md as int, 1, sum - md);
            } else {
                lemma_small_mod(sum as nat, md as nat);
            }
        }
        if sum >= md {
            (sum - md) as u32
        } else {
            sum as u32
        }
    }

    fn subm(self, rhs: &u32, m: &u32) -> (r: u32) {
        let a: u32 = *self % *m;
        let b: u32 = *rhs % *m;
        proof {
            lemma_sub_mod_noop(*self as int, *rhs as int, *m as int);
            lemma_wrapping_sub(a as int, b as int, *m as int);
        }
        if a >= b {
            a - b
        } else {
            *m - (b - a)
        }
    }

    fn mulm(self, rhs: &u32, m: &u32) -> (r: u32) {
        assert(*self as u64 * *rhs as u64 <= 0xFFFF_FFFF * 0xFFFF_FFFF) by (nonlinear_arith);
        (((*self as u64) * (*rhs as u64)) % (*m as u64)) as u32
    }

    fn powm(self, exp: &u32, m: &u32) -> (r: u32) {
        let mut multi: u32 = *self % *m;
        let mut e: u32 = *exp;
        let mut result: u32 = 1 % *m;
        proof {
            lemma_pow_mod_noop(*self as int, *exp as nat, *m as int);
            lemma_mul_mod_noop_general(1, pow(multi as int, e as nat), *m as int);
        }
        while e > 0
            invariant
                *m > 0,
                multi < *m,
                result < *m,
                (result * pow(multi as int, e as nat)) % (*m as int) == pow(
                    *self as int,
                    *exp as nat,
                ) % (*m as int),
            decreases e,
        {
            proof {
                lemma_pow_step(result as int, multi as int, e as nat, *m as int);
            }
            if e % 2 == 1 {
                result = (&result).mulm(&multi, m);
            }
            multi = (&multi).mulm(&multi, m);
            e = e / 2;
        }
        proof {
            lemma_pow0(multi as int);
            lemma_small_mod(result as nat, *m as nat);
        }
        result
    }

    fn negm(self, m: &u32) -> (r: u32) {
        let a: u32 = *self % *m;
        proof {
            lemma_sub_mod_noop(0, *self as int, *m as int);
            lemma_wrapping_sub(0, a as int, *m as int);
        }
        if a == 0 {
            0
        } else {
            *m - a
        }
    }

    fn invm(self, m: &u32) -> (r: Option<u32>) {
        let ghost a: int = *self as int;
        let ghost modulus: int = *m as int;
        // Euclid's algorithm on the remainders, with the cofactors of `self`
        // kept as residues: last_t * self = last_r and t * self = r modulo m
        let mut last_r: u32 = *m;
        let mut r: u32 = *self % *m;
        let mut last_t: u32 = 0;
        let mut t: u32 = 1 % *m;
        proof {
            lemma_mod_self_0(modulus);
            lemma_mul_basics(a);
            lemma_mul_mod_noop_general(1, a, modulus);
            lemma_mod_twice(a, modulus);
        }
        while r > 0
            invariant
                modulus == *m,
                a == *self,
                modulus > 0,
                last_r > 0,
                last_t < modulus,
                t < modulus,
                (last_t * a) % modulus == (last_r as int) % modulus,
                (t * a) % modulus == (r as int) % modulus,
                gcd(last_r as nat, r as nat) == gcd(a as nat, modulus as nat),
            decreases r,
        {
            let quo: u32 = last_r / r;
            let rem: u32 = last_r % r;
            proof {
                lemma_cofactor_step(
                    a,
                    modulus,
                    last_t as int,
                    t as int,
                    last_r as int,
                    r as int,
                    quo as int,
                );
                lemma_fundamental_div_mod(last_r as int, r as int);
                lemma_mul_is_commutative(quo as int, r as int);
                lemma_mod_bound(last_t - (quo * t) % modulus, modulus);
            }
            let new_t: u32 = (&last_t).subm(&(&quo).mulm(&t, m), m);
            last_r = r;
            r = rem;
            last_t = t;
            t = new_t;
        }
        // last_r is the greatest common divisor
        if last_r > 1 {
            proof {
                lemma_has_inverse_iff_coprime(*self as nat, *m as nat);
            }
            None
        } else {
            proof {
                lemma_mul_is_commutative(last_t as int, a);
                lemma_has_inverse_iff_coprime(*self as nat, *m as nat);
            }
            Some(last_t)
        }
    }

    fn jacobi(self, n: &u32) -> (r: i8) {
        let ghost a0: nat = *self as nat;
        let ghost n0: nat = *n as nat;
        let mut a: u32 = *self % *n;
        let mut n: u32 = *n;
        let mut t: i8 = 1;
        proof {
            lemma_jacobi_by_reciprocity(a0, n0);
            lemma_by_reciprocity_periodic(a0, n0);
            lemma_sign_times(1, jacobi_by_reciprocity(a as nat, n as nat));
        }
        while a > 0
            invariant
                n % 2 == 1,
                a < n,
                t == 1 || t == -1,
                t * jacobi_by_reciprocity(a as nat, n as nat) == jacobi_by_reciprocity(a0, n0),
            decreases n,
        {
            while a % 2 == 0
                invariant
                    n % 2 == 1,
                    0 < a < n,
                    t == 1 || t == -1,
                    t * jacobi_by_reciprocity(a as nat, n as nat) == jacobi_by_reciprocity(a0, n0),
                decreases a,
            {
                proof {
                    lemma_small_mod(a as nat, n as nat);
                    lemma_sign_times(t as int, jacobi_by_reciprocity(a as nat, n as nat));
                    lemma_sign_times(-t, jacobi_by_reciprocity((a / 2) as nat, n as nat));
                    lemma_sign_times(t as int, jacobi_by_reciprocity((a / 2) as nat, n as nat));
                    lemma_sign_times(two_sign(n as nat), jacobi_by_reciprocity((a / 2) as nat, n as nat));
                }
                // a factor 2 contributes the symbol (2|n)
                a = a / 2;
                if n % 8 == 3 || n % 8 == 5 {
                    t = -t;
                }
            }
            proof {
                lemma_small_mod(a as nat, n as nat);
                lemma_sign_times(t as int, jacobi_by_reciprocity(a as nat, n as nat));
                lemma_sign_times(-t, jacobi_by_reciprocity((n % a) as nat, a as nat));
                lemma_sign_times(t as int, jacobi_by_reciprocity((n % a) as nat, a as nat));
                lemma_sign_times(
                    reciprocity_sign(a as nat, n as nat),
                    jacobi_by_reciprocity((n % a) as nat, a as nat),
                );
            }
            // a is odd and below n: exchange the two by the law of reciprocity
            let swapped: u32 = a;
            a = n;
            n = swapped;
            if a % 4 == 3 && n % 4 == 3 {
                t = -t;
            }
            a = a % n;
        }
        proof {
            lemma_sign_times(t as int, jacobi_by_reciprocity(a as nat, n as nat));
        }
        if n == 1 {
            t
        } else {
            0
        }
    }

    fn kronecker(self, n: &u32) -> (r: i8) {
        let ghost a0: nat = *self as nat;
        let ghost n0: nat = *n as nat;
        proof {
            lemma_kronecker_range(a0, n0);
        }
        if *n == 0 {
            return if *self == 1 {
                1
            } else {
                0
            };
        }
        let two: i8 = if *self % 2 == 0 {
            0
        } else if *self % 8 == 1 || *self % 8 == 7 {
            1
        } else {
            -1
        };
        // each factor 2 of n contributes the symbol (a|2)
        let mut n: u32 = *n;
        let mut t: i8 = 1;
        proof {
            lemma_sign_times(1, kronecker_symbol(a0, n0));
        }
        while n % 2 == 0
            invariant
                n > 0,
                -1 <= t <= 1,
                two == kronecker_two(a0),
                t * kronecker_symbol(a0, n as nat) == kronecker_symbol(a0, n0),
            decreases n,
        {
            proof {
                let k = kronecker_symbol(a0, (n / 2) as nat);
                lemma_sign_times(t as int, kronecker_symbol(a0, n as nat));
                lemma_sign_times(two as int, k);
                lemma_sign_times(t as int, k);
                lemma_sign_times(-t, k);
                lemma_sign_times(0, k);
            }
            n = n / 2;
            t = if two == 0 {
                0
            } else if two == 1 {
                t
            } else {
                -t
            };
        }
        let j: i8 = self.jacobi(&n);
        proof {
            lemma_sign_times(t as int, j as int);
        }
        if t == 0 {
            0
        } else if t == 1 {
            j
        } else {
            -j
        }
    }
}

impl ModularOps<u32, &u32> for u32 {
    type Output = u32;

    open spec fn value(self) -> nat {
        self as nat
    }

    open spec fn rhs_value(rhs: u32) -> nat {
        rhs as nat
    }

    open spec fn modulus_value(m: &u32) -> nat {
        *m as nat
    }

    open spec fn output_value(out: u32) -> nat {
        out as nat
    }

    fn addm(self, rhs: u32, m: &u32) -> (r: u32) {
        (&self).addm(&rhs, m)
    }

    fn subm(self, rhs: u32, m: &u32) -> (r: u32) {
        (&self).subm(&rhs, m)
    }

    fn mulm(self, rhs: u32, m: &u32) -> (r: u32) {
        (&self).mulm(&rhs, m)
    }

    fn powm(self, exp: u32, m: &u32) -> (r: u32) {
        (&self).powm(&exp, m)
    }

    fn negm(self, m: &u32) -> (r: u32) {
        (&self).negm(m)
    }

    fn invm(self, m: &u32) -> (r: Option<u32>) {
        (&self).invm(m)
    }

    fn jacobi(self, n: &u32) -> (r: i8) {
        (&self).jacobi(n)
    }

    fn kronecker(self, n: &u32) -> (r: i8) {
        (&self).kronecker(n)
    }
}

} // verus!
