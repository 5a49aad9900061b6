//! Wrapping negation of machine words.

use num_traits::WrappingNeg;
use vstd::prelude::*;

verus! {

/// `num_traits::WrappingNeg::wrapping_neg` on `u8`: the negation modulo
/// `2^8`, which is 0 for 0 and `2^8 - x` for any other `x`.
#[verifier::external_body]
pub(crate) fn wrapping_neg_u8(x: &u8) -> (r: u8)
    ensures
        r == (if *x == 0 {
            0
        } else {
            0x100 - *x
        }),
{
    WrappingNeg::wrapping_neg(x)
}

/// `num_traits::WrappingNeg::wrapping_neg` on `u16`: the negation modulo
/// `2^16`, which is 0 for 0 and `2^16 - x` for any other `x`.
#[verifier::external_body]
pub(crate) fn wrapping_neg_u16(x: &u16) -> (r: u16)
    ensures
        r == (if *x == 0 {
            0
        } else {
            0x1_0000 - *x
        }),
{
    WrappingNeg::wrapping_neg(x)
}

/// `num_traits::WrappingNeg::wrapping_neg` on `u32`: the negation modulo
/// `2^32`, which is 0 for 0 and `2^32 - x` for any other `x`.
#[verifier::external_body]
pub(crate) fn wrapping_neg_u32(x: &u32) -> (r: u32)
    ensures
        r == (if *x == 0 {
            0
        } else {
            0x1_0000_0000 - *x
        }),
{
    WrappingNeg::wrapping_neg(x)
}

/// `num_traits::WrappingNeg::wrapping_neg` on `u64`: the negation modulo
/// `2^64`, which is 0 for 0 and `2^64 - x` for any other `x`.
#[verifier::external_body]
pub(crate) fn wrapping_neg_u64(x: &u64) -> (r: u64)
    ensures
        r == (if *x == 0 {
            0
        } else {
            0x1_0000_0000_0000_0000 - *x
        }),
{
    WrappingNeg::wrapping_neg(x)
}

} // verus!
