//! Montgomery arithmetic on 8-bit words, with 16-bit intermediates.

use crate::arith::{lemma_pow_nonnegative, lemma_pow_step, lemma_wrapping_sub};
use crate::monty::form::{
    is_neginv, lemma_montgomery_congruent, lemma_montgomery_of_redc, lemma_redc_bound,
    lemma_redc_mul, lemma_redc_of_montgomery, lemma_redc_quotient, redc,
};
use crate::monty::hensel::{lemma_negated_inverse, lemma_seed};
use crate::monty::table::seed_inverse;
use crate::monty::wrapping::wrapping_neg_u8;
use crate::monty::Montgomery;
use vstd::arithmetic::div_mod::*;
use vstd::arithmetic::power::*;
use vstd::arithmetic::power2::*;
use vstd::prelude::*;

verus! {

impl Montgomery for u8 {
    type Inv = u8;

    type Double = u16;

    open spec fn bits() -> nat {
        8
    }

    open spec fn value(&self) -> nat {
        *self as nat
    }

    open spec fn inv_value(inv: &u8) -> nat {
        *inv as nat
    }

    open spec fn double_value(d: &u16) -> nat {
        *d as nat
    }

    proof fn lemma_bounded(v: u8) {
        lemma2_to64();
    }

    proof fn lemma_widen(v: u8) {
    }

    proof fn lemma_equal(a: u8, b: u8) {
    }

    fn neginv(m: &u8) -> (r: u8) {
        let m: u8 = *m;
        let half: u8 = (m >> 1) & 0x7F;
        assert(half < 128 && m == 2 * half + 1) by (bit_vector)
            requires
                m % 2 == 1,
                half == (m >> 1) & 0x7F,
        ;
        let index: usize = half as usize;
        let i0: u8 = seed_inverse(index);
        let r: u8 = wrapping_neg_u8(&i0);
        proof {
            lemma2_to64();
            lemma_seed(m as nat, index as nat, i0 as nat);
            lemma_negated_inverse(m as int, i0 as int, r as int, 0x100);
        }
        r
    }

    fn transform(target: u8, m: &u8) -> (r: u8) {
        proof {
            lemma2_to64();
            assert((target as u16) << 8 == (target as u16) * 0x100) by (bit_vector);
        }
        (((target as u16) << 8) % (*m as u16)) as u8
    }

    fn reduce(monty: u16, m: &u8, minv: &u8) -> (r: u8) {
        let m: u8 = *m;
        // u = (t mod R) * minv mod R makes t + u * m a multiple of R
        let low: u8 = #[verifier::truncate] (monty as u8);
        let tm: u8 = low.wrapping_mul(*minv);
        assert(tm as u16 * m as u16 <= 0xFF * 0xFF) by (nonlinear_arith);
        let prod: u16 = tm as u16 * (m as u16);
        // the sum may pass the double word: the carry is kept apart
        let sum: u16 = monty.wrapping_add(prod);
        let overflow: bool = sum < monty;
        let t: u8 = (sum >> 8) as u8;
        proof {
            lemma2_to64();
            assert(low == monty % 0x100) by (bit_vector)
                requires
                    low == monty as u8,
            ;
            assert(t == sum / 0x100) by (bit_vector)
                requires
                    t == (sum >> 8) as u8,
            ;
            lemma_redc_quotient(monty as nat, m as nat, *minv as nat, 8, tm as nat);
            let big: int = 0x100;
            let s: int = monty + tm * m;
            let q: int = s / big;
            lemma_fundamental_div_mod(s, big);
            if overflow {
                lemma_fundamental_div_mod_converse(sum as int, big, q - big, 0);
            }
        }
        // a carry stands for R in the quotient, which is R - m modulo m
        let t: u8 = if overflow {
            t + wrapping_neg_u8(&m)
        } else {
            t
        };
        if t >= m {
            t - m
        } else {
            t
        }
    }

    fn add(lhs: &u8, rhs: &u8, m: &u8) -> (r: u8) {
        let m: u16 = *m as u16;
        let sum: u16 = *lhs as u16 + *rhs as u16;
        let sum: u16 = if sum >= m {
            sum - m
        } else {
            sum
        };
        proof {
            if *lhs + *rhs >= m {
                lemma_fundamental_div_mod_converse(*lhs + *rhs, m as int, 1, sum as int);
            } else {
                lemma_small_mod(sum as nat, m as nat);
            }
        }
        sum as u8
    }

    fn sub(lhs: &u8, rhs: &u8, m: &u8) -> (r: u8) {
        proof {
            lemma_wrapping_sub(*lhs as int, *rhs as int, *m as int);
        }
        if *lhs >= *rhs {
            *lhs - *rhs
        } else {
            *m - (*rhs - *lhs)
        }
    }

    fn neg(monty: &u8, m: &u8) -> (r: u8) {
        proof {
            lemma_wrapping_sub(0, *monty as int, *m as int);
        }
        if *monty == 0 {
            0
        } else {
            *m - *monty
        }
    }

    fn mul(lhs: &u8, rhs: &u8, m: &u8, minv: &u8) -> (r: u8) {
        assert(*lhs as u16 * *rhs as u16 <= 0xFF * 0xFF) by (nonlinear_arith);
        Self::reduce((*lhs as u16) * (*rhs as u16), m, minv)
    }

    fn pow(base: &u8, exp: &u8, m: &u8, minv: &u8) -> (r: u8) {
        let ghost modulus: nat = *m as nat;
        let ghost x: nat = redc(*base as nat, modulus, 8);
        proof {
            lemma_redc_bound(*base as nat, modulus, 8);
            lemma_pow_nonnegative(x, *exp as nat);
        }
        if *exp == 1 {
            proof {
                lemma_pow1(x as int);
                lemma_montgomery_of_redc(*base as nat, modulus, 8);
            }
            *base
        } else if *exp == 2 {
            proof {
                lemma2_to64();
                lemma_square_is_pow2(x as int);
                assert(*base * *base < modulus * pow2(8)) by (nonlinear_arith)
                    requires
                        *base < modulus,
                        modulus < pow2(8),
                ;
            }
            let r: u8 = Self::mul(base, base, m, minv);
            proof {
                lemma_redc_bound((*base * *base) as nat, modulus, 8);
                lemma_redc_mul(*base as nat, *base as nat, modulus, 8);
                lemma_montgomery_of_redc(r as nat, modulus, 8);
                lemma_mod_twice((x * x) as int, modulus as int);
                lemma_montgomery_congruent((x * x) % modulus, (x * x) as nat, modulus, 8);
            }
            r
        } else {
            let mut multi: u8 = *base;
            let mut e: u8 = *exp;
            // the form of 1 is the unit of the product of forms
            let mut result: u8 = Self::transform(1, m);
            proof {
                lemma_redc_of_montgomery(1, modulus, 8);
                lemma_mul_mod_noop_general(1, pow(x as int, *exp as nat), modulus as int);
            }
            while e > 0
                invariant
                    modulus == *m,
                    modulus % 2 == 1,
                    is_neginv(modulus, *minv as nat, 8),
                    multi < modulus,
                    result < modulus,
                    (redc(result as nat, modulus, 8) * pow(
                        redc(multi as nat, modulus, 8) as int,
                        e as nat,
                    )) % (modulus as int) == pow(x as int, *exp as nat) % (modulus as int),
                decreases e,
            {
                let ghost acc: nat = redc(result as nat, modulus, 8);
                let ghost b: nat = redc(multi as nat, modulus, 8);
                proof {
                    lemma_pow_step(acc as int, b as int, e as nat, modulus as int);
                    lemma2_to64();
                    assert(multi * multi < modulus * pow2(8)) by (nonlinear_arith)
                        requires
                            multi < modulus,
                            modulus < pow2(8),
                    ;
                    assert(result * multi < modulus * pow2(8)) by (nonlinear_arith)
                        requires
                            multi < modulus,
                            result < modulus,
                            modulus < pow2(8),
                    ;
                    assert((e & 1 > 0) == (e % 2 == 1)) by (bit_vector);
                    assert(e >> 1 == e / 2) by (bit_vector);
                    lemma_redc_mul(result as nat, multi as nat, modulus, 8);
                    lemma_redc_mul(multi as nat, multi as nat, modulus, 8);
                    lemma_redc_bound((result * multi) as nat, modulus, 8);
                    lemma_redc_bound((multi * multi) as nat, modulus, 8);
                }
                if e & 1 > 0 {
                    result = Self::mul(&result, &multi, m, minv);
                }
                multi = Self::mul(&multi, &multi, m, minv);
                e >>= 1;
            }
            proof {
                lemma_pow0(redc(multi as nat, modulus, 8) as int);
                lemma_redc_bound(result as nat, modulus, 8);
                lemma_small_mod(redc(result as nat, modulus, 8), modulus);
                lemma_montgomery_of_redc(result as nat, modulus, 8);
                lemma_montgomery_congruent(
                    redc(result as nat, modulus, 8),
                    pow(x as int, *exp as nat) as nat,
                    modulus,
                    8,
                );
            }
            result
        }
    }
}

} // verus!
