//! Montgomery arithmetic on 16-bit words, with 32-bit intermediates.

use crate::arith::{lemma_pow_nonnegative, lemma_pow_step, lemma_wrapping_sub};
use crate::monty::form::{
    is_neginv, lemma_montgomery_congruent, lemma_montgomery_of_redc, lemma_redc_bound,
    lemma_redc_mul, lemma_redc_of_montgomery, lemma_redc_quotient, redc,
};
use crate::monty::hensel::{lemma_negate_step, lemma_seed};
use crate::monty::table::seed_inverse;
use crate::monty::wrapping::wrapping_neg_u16;
use crate::monty::Montgomery;
use vstd::arithmetic::div_mod::*;
use vstd::arithmetic::power::*;
use vstd::arithmetic::power2::*;
use vstd::prelude::*;

verus! {

impl Montgomery for u16 {
    type Inv = u16;

    type Double = u32;

    open spec fn bits() -> nat {
        16
    }

    open spec fn value(&self) -> nat {
        *self as nat
    }

    open spec fn inv_value(inv: &u16) -> nat {
        *inv as nat
    }

    open spec fn double_value(d: &u32) -> nat {
        *d as nat
    }

    proof fn lemma_bounded(v: u16) {
        lemma2_to64();
    }

    proof fn lemma_widen(v: u16) {
    }

    proof fn lemma_equal(a: u16, b: u16) {
    }

    fn neginv(m: &u16) -> (r: u16) {
        let m: u16 = *m;
        let half: u16 = (m >> 1) & 0x7F;
        assert(half < 128 && m % 256 == 2 * half + 1) by (bit_vector)
            requires
                m % 2 == 1,
                half == (m >> 1) & 0x7F,
        ;
        let index: usize = half as usize;
        let i0: u16 = seed_inverse(index) as u16;
        let r: u16 = i0.wrapping_mul(m).wrapping_sub(2).wrapping_mul(i0);
        proof {
            let big: int = 0x1_0000;
            lemma2_to64();
            assert(0x100nat * 0x100nat == 0x1_0000) by (nonlinear_arith);
            lemma_seed(m as nat, index as nat, i0 as nat);
            lemma_wrapping_sub(i0.wrapping_mul(m) as int, 2, big);
            lemma_negate_step(m as nat, i0 as nat, r as nat, 0x100, big as nat);
        }
        r
    }

    fn transform(target: u16, m: &u16) -> (r: u16) {
        proof {
            lemma2_to64();
            assert((target as u32) << 16 == (target as u32) * 0x1_0000) by (bit_vector);
        }
        (((target as u32) << 16) % (*m as u32)) as u16
    }

    fn reduce(monty: u32, m: &u16, minv: &u16) -> (r: u16) {
        let m: u16 = *m;
        // u = (t mod R) * minv mod R makes t + u * m a multiple of R
        let low: u16 = #[verifier::truncate] (monty as u16);
        let tm: u16 = low.wrapping_mul(*minv);
        assert(tm as u32 * m as u32 <= 0xFFFF * 0xFFFF) by (nonlinear_arith);
        let prod: u32 = tm as u32 * (m as u32);
        // the sum may pass the double word: the carry is kept apart
        let sum: u32 = monty.wrapping_add(prod);
        let overflow: bool = sum < monty;
        let t: u16 = (sum >> 16) as u16;
        proof {
            lemma2_to64();
            assert(low == monty % 0x1_0000) by (bit_vector)
                requires
                    low == monty as u16,
            ;
            assert(t == sum / 0x1_0000) by (bit_vector)
                requires
                    t == (sum >> 16) as u16,
            ;
            lemma_redc_quotient(monty as nat, m as nat, *minv as nat, 16, tm as nat);
            let big: int = 0x1_0000;
            let s: int = monty + tm * m;
            let q: int = s / big;
            lemma_fundamental_div_mod(s, big);
            if overflow {
                lemma_fundamental_div_mod_converse(sum as int, big, q - big, 0);
            }
        }
        // a carry stands for R in the quotient, which is R - m modulo m
        let t: u16 = if overflow {
            t + wrapping_neg_u16(&m)
        } else {
            t
        };
        if t >= m {
            t - m
        } else {
            t
        }
    }

    fn add(lhs: &u16, rhs: &u16, m: &u16) -> (r: u16) {
        let m: u32 = *m as u32;
        let sum: u32 = *lhs as u32 + *rhs as u32;
        let sum: u32 = if sum >= m {
            sum - m
        } else {
            sum
        };
        proof {
            if *lhs + *rhs >= m {
                lemma_fundamental_div_mod_converse(*lhs + *rhs, m as int, 1, sum as int);
            } else {
                lemma_small_mod(sum as nat, m as nat);
            }
        }
        sum as u16
    }

    fn sub(lhs: &u16, rhs: &u16, m: &u16) -> (r: u16) {
        proof {
            lemma_wrapping_sub(*lhs as int, *rhs as int, *m as int);
        }
        if *lhs >= *rhs {
            *lhs - *rhs
        } else {
            *m - (*rhs - *lhs)
        }
    }

    fn neg(monty: &u16, m: &u16) -> (r: u16) {
        proof {
            lemma_wrapping_sub(0, *monty as int, *m as int);
        }
        if *monty == 0 {
            0
        } else {
            *m - *monty
        }
    }

    fn mul(lhs: &u16, rhs: &u16, m: &u16, minv: &u16) -> (r: u16) {
        assert(*lhs as u32 * *rhs as u32 <= 0xFFFF * 0xFFFF) by (nonlinear_arith);
        Self::reduce((*lhs as u32) * (*rhs as u32), m, minv)
    }

    fn pow(base: &u16, exp: &u16, m: &u16, minv: &u16) -> (r: u16) {
        let ghost modulus: nat = *m as nat;
        let ghost x: nat = redc(*base as nat, modulus, 16);
        proof {
            lemma_redc_bound(*base as nat, modulus, 16);
            lemma_pow_nonnegative(x, *exp as nat);
        }
        if *exp == 1 {
            proof {
                lemma_pow1(x as int);
                lemma_montgomery_of_redc(*base as nat, modulus, 16);
            }
            *base
        } else if *exp == 2 {
            proof {
                lemma2_to64();
                lemma_square_is_pow2(x as int);
                assert(*base * *base < modulus * pow2(16)) by (nonlinear_arith)
                    requires
                        *base < modulus,
                        modulus < pow2(16),
                ;
            }
            let r: u16 = Self::mul(base, base, m, minv);
            proof {
                lemma_redc_bound((*base * *base) as nat, modulus, 16);
                lemma_redc_mul(*base as nat, *base as nat, modulus, 16);
                lemma_montgomery_of_redc(r as nat, modulus, 16);
                lemma_mod_twice((x * x) as int, modulus as int);
                lemma_montgomery_congruent((x * x) % modulus, (x * x) as nat, modulus, 16);
            }
            r
        } else {
            let mut multi: u16 = *base;
            let mut e: u16 = *exp;
            // the form of 1 is the unit of the product of forms
            let mut result: u16 = Self::transform(1, m);
            proof {
                lemma_redc_of_montgomery(1, modulus, 16);
                lemma_mul_mod_noop_general(1, pow(x as int, *exp as nat), modulus as int);
            }
            while e > 0
                invariant
                    modulus == *m,
                    modulus % 2 == 1,
                    is_neginv(modulus, *minv as nat, 16),
                    multi < modulus,
                    result < modulus,
                    (redc(result as nat, modulus, 16) * pow(
                        redc(multi as nat, modulus, 16) as int,
                        e as nat,
                    )) % (modulus as int) == pow(x as int, *exp as nat) % (modulus as int),
                decreases e,
            {
                let ghost acc: nat = redc(result as nat, modulus, 16);
                let ghost b: nat = redc(multi as nat, modulus, 16);
                proof {
                    lemma_pow_step(acc as int, b as int, e as nat, modulus as int);
                    lemma2_to64();
                    assert(multi * multi < modulus * pow2(16)) by (nonlinear_arith)
                        requires
                            multi < modulus,
                            modulus < pow2(16),
                    ;
                    assert(result * multi < modulus * pow2(16)) by (nonlinear_arith)
                        requires
                            multi < modulus,
                            result < modulus,
                            modulus < pow2(16),
                    ;
                    assert((e & 1 > 0) == (e % 2 == 1)) by (bit_vector);
                    assert(e >> 1 == e / 2) by (bit_vector);
                    lemma_redc_mul(result as nat, multi as nat, modulus, 16);
                    lemma_redc_mul(multi as nat, multi as nat, modulus, 16);
                    lemma_redc_bound((result * multi) as nat, modulus, 16);
                    lemma_redc_bound((multi * multi) as nat, modulus, 16);
                }
                if e & 1 > 0 {
                    result = Self::mul(&result, &multi, m, minv);
                }
                multi = Self::mul(&multi, &multi, m, minv);
                e >>= 1;
            }
            proof {
                lemma_pow0(redc(multi as nat, modulus, 16) as int);
                lemma_redc_bound(result as nat, modulus, 16);
                lemma_small_mod(redc(result as nat, modulus, 16), modulus);
                lemma_montgomery_of_redc(result as nat, modulus, 16);
                lemma_montgomery_congruent(
                    redc(result as nat, modulus, 16),
                    pow(x as int, *exp as nat) as nat,
                    modulus,
                    16,
                );
            }
            result
        }
    }
}

} // verus!
