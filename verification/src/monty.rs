//! Integers in Montgomery form.
//!
//! For a word of `W` bits the auxiliary modulus is `R = 2^W`. The Montgomery
//! form of `x` modulo an odd `m` is `x * R mod m`; sums and differences of
//! forms are forms, and a product of two forms becomes a form again after
//! one reduction by `R`.

use crate::monty::form::{is_neginv, redc, to_montgomery};
use vstd::arithmetic::power::pow;
use vstd::arithmetic::power2::pow2;
use vstd::prelude::*;
use vstd::std_specs::cmp::PartialEqSpec;
use vstd::std_specs::convert::FromSpec;

pub mod form;
pub mod handle;
pub mod hensel;
pub mod table;
pub mod width16;
pub mod width32;
pub mod width64;
pub mod width8;
pub mod wrapping;

verus! {

/// Operations on an integer held in Montgomery form. A value of this type
/// can stand in for an ordinary integer in modular arithmetic.
///
/// `Self` is the word that holds a residue, and `R = 2^bits` is the
/// auxiliary modulus.
pub trait Montgomery: Sized {
    /// The type of the negated inverse of the modulus.
    ///
    /// It is usually `Self`, but may be narrower where the words are limbs
    /// of a longer integer.
    type Inv;

    /// The type of integer with doubled width.
    type Double;

    /// The width of `Self` in bits.
    spec fn bits() -> nat;

    /// The integer that a word holds.
    spec fn value(&self) -> nat;

    /// The integer that a negated inverse holds.
    spec fn inv_value(inv: &Self::Inv) -> nat;

    /// The integer that a double word holds.
    spec fn double_value(d: &Self::Double) -> nat;

    /// A word holds an integer below `R`.
    proof fn lemma_bounded(v: Self)
        ensures
            v.value() < pow2(Self::bits()),
    ;

    /// Widening a word through `From` keeps the integer it holds.
    proof fn lemma_widen(v: Self) where Self::Double: From<Self>
        ensures
            <Self::Double as FromSpec<Self>>::obeys_from_spec(),
            Self::double_value(&<Self::Double as FromSpec<Self>>::from_spec(v)) == v.value(),
    ;

    /// Two words are equal under `==` exactly when they hold the same
    /// integer.
    proof fn lemma_equal(a: Self, b: Self) where Self: PartialEq
        ensures
            <Self as PartialEqSpec>::obeys_eq_spec(),
            a.eq_spec(&b) <==> a.value() == b.value(),
    ;

    /// Calculates `-(m^-1) mod R` for an odd `m`.
    fn neginv(m: &Self) -> (r: Self::Inv)
        requires
            m.value() % 2 == 1,
        ensures
            is_neginv(m.value(), Self::inv_value(&r), Self::bits()),
    ;

    /// Transforms an ordinary integer into Montgomery form:
    /// `target * R mod m`. The target need not be below `m`.
    fn transform(target: Self, m: &Self) -> (r: Self)
        requires
            m.value() > 0,
        ensures
            r.value() == to_montgomery(target.value(), m.value(), Self::bits()),
    ;

    /// Montgomery reduction: `monty / R mod m`, for `monty < m * R`.
    fn reduce(monty: Self::Double, m: &Self, minv: &Self::Inv) -> (r: Self)
        requires
            m.value() % 2 == 1,
            is_neginv(m.value(), Self::inv_value(minv), Self::bits()),
            Self::double_value(&monty) < m.value() * pow2(Self::bits()),
        ensures
            r.value() == redc(Self::double_value(&monty), m.value(), Self::bits()),
    ;

    /// `(lhs + rhs) mod m`, on residues.
    fn add(lhs: &Self, rhs: &Self, m: &Self) -> (r: Self)
        requires
            lhs.value() < m.value(),
            rhs.value() < m.value(),
        ensures
            r.value() == (lhs.value() + rhs.value()) % m.value(),
    ;

    /// `(lhs - rhs) mod m`, on residues.
    fn sub(lhs: &Self, rhs: &Self, m: &Self) -> (r: Self)
        requires
            lhs.value() < m.value(),
            rhs.value() < m.value(),
        ensures
            r.value() == (lhs.value() - rhs.value()) % (m.value() as int),
    ;

    /// `-monty mod m`, on a residue.
    fn neg(monty: &Self, m: &Self) -> (r: Self)
        requires
            monty.value() < m.value(),
        ensures
            r.value() == (-(monty.value() as int)) % (m.value() as int),
    ;

    /// The product of two Montgomery forms, as a Montgomery form:
    /// `lhs * rhs / R mod m`.
    fn mul(lhs: &Self, rhs: &Self, m: &Self, minv: &Self::Inv) -> (r: Self)
        requires
            m.value() % 2 == 1,
            is_neginv(m.value(), Self::inv_value(minv), Self::bits()),
            lhs.value() * rhs.value() < m.value() * pow2(Self::bits()),
        ensures
            r.value() == redc(lhs.value() * rhs.value(), m.value(), Self::bits()),
    ;

    /// Raises a Montgomery form to the power `exp`, an ordinary integer.
    /// The result is the Montgomery form of the power of the integer that
    /// `base` stands for.
    fn pow(base: &Self, exp: &Self, m: &Self, minv: &Self::Inv) -> (r: Self)
        requires
            m.value() % 2 == 1,
            is_neginv(m.value(), Self::inv_value(minv), Self::bits()),
            base.value() < m.value(),
        ensures
            r.value() == to_montgomery(
                pow(redc(base.value(), m.value(), Self::bits()) as int, exp.value()) as nat,
                m.value(),
                Self::bits(),
            ),
    ;
}

} // verus!
