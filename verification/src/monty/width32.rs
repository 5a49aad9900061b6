//! Montgomery arithmetic on 32-bit words, with 64-bit intermediates.

use crate::arith::{lemma_pow_nonnegative, lemma_pow_step, lemma_wrapping_sub};
use crate::monty::form::{
    is_neginv, lemma_montgomery_congruent, lemma_montgomery_of_redc, lemma_redc_bound,
    lemma_redc_mul, lemma_redc_of_montgomery, lemma_redc_quotient, redc,
};
use crate::monty::hensel::{lemma_lift_step, lemma_negate_step, lemma_seed};
use crate::monty::table::seed_inverse;
use crate::monty::wrapping::wrapping_neg_u32;
use crate::monty::Montgomery;
use vstd::arithmetic::div_mod::*;
use vstd::arithmetic::power::*;
use vstd::arithmetic::power2::*;
use vstd::prelude::*;

verus! {

impl Montgomery for u32 {
    type Inv = u32;

    type Double = u64;

    open spec fn bits() -> nat {
        32
    }

    open spec fn value(&self) -> nat {
        *self as nat
    }

    open spec fn inv_value(inv: &u32) -> nat {
        *inv as nat
    }

    open spec fn double_value(d: &u64) -> nat {
        *d as nat
    }

    proof fn lemma_bounded(v: u32) {
        lemma2_to64();
    }

    proof fn lemma_widen(v: u32) {
    }

    proof fn lemma_equal(a: u32, b: u32) {
    }

    fn neginv(m: &u32) -> (r: u32) {
        let m: u32 = *m;
        let half: u32 = (m >> 1) & 0x7F;
        assert(half < 128 && m % 256 == 2 * half + 1) by (bit_vector)
            requires
                m % 2 == 1,
                half == (m >> 1) & 0x7F,
        ;
        let index: usize = half as usize;
        let i0: u32 = seed_inverse(index) as u32;
        let i1: u32 = 2u32.wrapping_sub(i0.wrapping_mul(m)).wrapping_mul(i0);
        let r: u32 = i1.wrapping_mul(m).wrapping_sub(2).wrapping_mul(i1);
        proof {
            let big: int = 0x1_0000_0000;
            lemma2_to64();
            assert(0x100nat * 0x100nat == 0x1_0000) by (nonlinear_arith);
            assert(0x1_0000nat * 0x1_0000nat == 0x1_0000_0000) by (nonlinear_arith);
            lemma_seed(m as nat, index as nat, i0 as nat);
            lemma_wrapping_sub(2, i0.wrapping_mul(m) as int, big);
            lemma_lift_step(m as nat, i0 as nat, i1 as nat, 0x100, big as nat);
            lemma_wrapping_sub(i1.wrapping_mul(m) as int, 2, big);
            lemma_negate_step(m as nat, i1 as nat, r as nat, 0x1_0000, big as nat);
        }
        r
    }

    fn transform(target: u32, m: &u32) -> (r: u32) {
        proof {
            lemma2_to64();
            assert((target as u64) << 32 == (target as u64) * 0x1_0000_0000) by (bit_vector);
        }
        (((target as u64) << 32) % (*m as u64)) as u32
    }

    fn reduce(monty: u64, m: &u32, minv: &u32) -> (r: u32) {
        let m: u32 = *m;
        // u = (t mod R) * minv mod R makes t + u * m a multiple of R
        let low: u32 = #[verifier::truncate] (monty as u32);
        let tm: u32 = low.wrapping_mul(*minv);
        assert(tm as u64 * m as u64 <= 0xFFFF_FFFF * 0xFFFF_FFFF) by (nonlinear_arith);
        let prod: u64 = tm as u64 * (m as u64);
        // the sum may pass the double word: the carry is kept apart
        let sum: u64 = monty.wrapping_add(prod);
        let overflow: bool = sum < monty;
        let t: u32 = (sum >> 32) as u32;
        proof {
            lemma2_to64();
            assert(low == monty % 0x1_0000_0000) by (bit_vector)
                requires
                    low == monty as u32,
            ;
            assert(t == sum / 0x1_0000_0000) by (bit_vector)
                requires
                    t == (sum >> 32) as u32,
            ;
            lemma_redc_quotient(monty as nat, m as nat, *minv as nat, 32, tm as nat);
            let big: int = 0x1_0000_0000;
            let s: int = monty + tm * m;
            let q: int = s / big;
            lemma_fundamental_div_mod(s, big);
            if overflow {
                lemma_fundamental_div_mod_converse(sum as int, big, q - big, 0);
            }
        }
        // a carry stands for R in the quotient, which is R - m modulo m
        let t: u32 = if overflow {
            t + wrapping_neg_u32(&m)
        } else {
            t
        };
        if t >= m {
            t - m
        } else {
            t
        }
    }

    fn add(lhs: &u32, rhs: &u32, m: &u32) -> (r: u32) {
        let m: u64 = *m as u64;
        let sum: u64 = *lhs as u64 + *rhs as u64;
        let sum: u64 = if sum >= m {
            sum - m
        } else {
            sum
        };
        proof {
            if *lhs + *rhs >= m {
                lemma_fundamental_div_mod_converse(*lhs + *rhs, m as int, 1, sum as int);
            } else {
                lemma_small_mod(sum as nat, m as nat);
            }
        }
        sum as u32
    }

    fn sub(lhs: &u32, rhs: &u32, m: &u32) -> (r: u32) {
        proof {
            lemma_wrapping_sub(*lhs as int, *rhs as int, *m as int);
        }
        if *lhs >= *rhs {
            *lhs - *rhs
        } else {
            *m - (*rhs - *lhs)
        }
    }

    fn neg(monty: &u32, m: &u32) -> (r: u32) {
        proof {
            lemma_wrapping_sub(0, *monty as int, *m as int);
        }
        if *monty == 0 {
            0
        } else {
            *m - *monty
        }
    }

    fn mul(lhs: &u32, rhs: &u32, m: &u32, minv: &u32) -> (r: u32) {
        assert(*lhs as u64 * *rhs as u64 <= 0xFFFF_FFFF * 0xFFFF_FFFF) by (nonlinear_arith);
        Self::reduce((*lhs as u64) * (*rhs as u64), m, minv)
    }

    fn pow(base: &u32, exp: &u32, m: &u32, minv: &u32) -> (r: u32) {
        let ghost modulus: nat = *m as nat;
        let ghost x: nat = redc(*base as nat, modulus, 32);
        proof {
            lemma_redc_bound(*base as nat, modulus, 32);
            lemma_pow_nonnegative(x, *exp as nat);
        }
        if *exp == 1 {
            proof {
                lemma_pow1(x as int);
                lemma_montgomery_of_redc(*base as nat, modulus, 32);
            }
            *base
        } else if *exp == 2 {
            proof {
                lemma2_to64();
                lemma_square_is_pow2(x as int);
                assert(*base * *base < modulus * pow2(32)) by (nonlinear_arith)
                    requires
                        *base < modulus,
                        modulus < pow2(32),
                ;
            }
            let r: u32 = Self::mul(base, base, m, minv);
            proof {
                lemma_redc_bound((*base * *base) as nat, modulus, 32);
                lemma_redc_mul(*base as nat, *base as nat, modulus, 32);
                lemma_montgomery_of_redc(r as nat, modulus, 32);
                lemma_mod_twice((x * x) as int, modulus as int);
                lemma_montgomery_congruent((x * x) % modulus, (x * x) as nat, modulus, 32);
            }
            r
        } else {
            let mut multi: u32 = *base;
            let mut e: u32 = *exp;
            // the form of 1 is the unit of the product of forms
            let mut result: u32 = Self::transform(1, m);
            proof {
                lemma_redc_of_montgomery(1, modulus, 32);
                lemma_mul_mod_noop_general(1, pow(x as int, *exp as nat), modulus as int);
            }
            while e > 0
                invariant
                    modulus == *m,
                    modulus % 2 == 1,
                    is_neginv(modulus, *minv as nat, 32),
                    multi < modulus,
                    result < modulus,
                    (redc(result as nat, modulus, 32) * pow(
                        redc(multi as nat, modulus, 32) as int,
                        e as nat,
                    )) % (modulus as int) == pow(x as int, *exp as nat) % (modulus as int),
                decreases e,
            {
                let ghost acc: nat = redc(result as nat, modulus, 32);
                let ghost b: nat = redc(multi as nat, modulus, 32);
                proof {
                    lemma_pow_step(acc as int, b as int, e as nat, modulus as int);
                    lemma2_to64();
                    assert(multi * multi < modulus * pow2(32)) by (nonlinear_arith)
                        requires
                            multi < modulus,
                            modulus < pow2(32),
                    ;
                    assert(result * multi < modulus * pow2(32)) by (nonlinear_arith)
                        requires
                            multi < modulus,
                            result < modulus,
                            modulus < pow2(32),
                    ;
                    assert((e & 1 > 0) == (e % 2 == 1)) by (bit_vector);
                    assert(e >> 1 == e / 2) by (bit_vector);
                    lemma_redc_mul(result as nat, multi as nat, modulus, 32);
                    lemma_redc_mul(multi as nat, multi as nat, modulus, 32);
                    lemma_redc_bound((result * multi) as nat, modulus, 32);
                    lemma_redc_bound((multi * multi) as nat, modulus, 32);
                }
                if e & 1 > 0 {
                    result = Self::mul(&result, &multi, m, minv);
                }
                multi = Self::mul(&multi, &multi, m, minv);
                e >>= 1;
            }
            proof {
                lemma_pow0(redc(multi as nat, modulus, 32) as int);
                lemma_redc_bound(result as nat, modulus, 32);
                lemma_small_mod(redc(result as nat, modulus, 32), modulus);
                lemma_montgomery_of_redc(result as nat, modulus, 32);
                lemma_montgomery_congruent(
                    redc(result as nat, modulus, 32),
                    pow(x as int, *exp as nat) as nat,
                    modulus,
                    32,
                );
            }
            result
        }
    }
}

} // verus!
