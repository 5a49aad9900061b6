//! Modular arithmetic on unsigned machine integers, with proofs.
//!
//! There are two ways through the crate. [`ModularOps`] works on raw
//! integers: `addm`, `subm`, `mulm`, `powm` and `negm` reduce on the way,
//! `invm` finds the inverse that the extended Euclidean algorithm yields,
//! and `jacobi` and `kronecker` compute the symbols of those names. Where
//! one odd modulus serves many products, [`MontgomeryInt`] holds a residue
//! in Montgomery form, on which a product costs no division; the engine
//! under it is the trait [`Montgomery`], implemented for words of 8, 16, 32
//! and 64 bits.
//!
//! Every function states what it returns over the integers, and Verus
//! proves it: no operation overflows or panics where its precondition
//! holds. The mathematics behind the contracts lives in modules of its own:
//! [`gcd`] for divisors and inverses, [`symbol`] for the definition of the
//! Legendre, Jacobi and Kronecker symbols, [`gauss`], [`euler`] and
//! [`pairing`] for the law of quadratic reciprocity and Euler's criterion,
//! by which the reduction that `jacobi` runs computes the symbol,
//! [`jacobi`] for the properties of the symbols, and [`laws`] for what
//! holds between the operations.

use crate::gcd::{gcd, has_inverse, is_inverse};
use crate::symbol::{jacobi_symbol, kronecker_symbol};
use std::ops::{Add, Mul, Neg, Sub};
use vstd::arithmetic::power::pow;
use vstd::prelude::*;

pub mod arith;
pub mod euler;
pub mod gauss;
pub mod gcd;
pub mod jacobi;
pub mod laws;
pub mod monty;
pub mod pairing;
pub mod prim;
pub mod sums;
pub mod symbol;

pub use monty::handle::MontgomeryInt;
pub use monty::Montgomery;

verus! {

/// Modular arithmetic on raw integers. No operand needs to be reduced
/// beforehand, and the modulus may be even.
pub trait ModularOps<Rhs = Self, Modulus = Self>: Sized {
    /// The type of the results.
    type Output;

    /// The integer that `self` holds.
    spec fn value(self) -> nat;

    /// The integer that a right operand holds.
    spec fn rhs_value(rhs: Rhs) -> nat;

    /// The integer that a modulus holds.
    spec fn modulus_value(m: Modulus) -> nat;

    /// The integer that a result holds.
    spec fn output_value(out: Self::Output) -> nat;

    /// Returns `(self + rhs) % m`.
    fn addm(self, rhs: Rhs, m: Modulus) -> (r: Self::Output)
        requires
            Self::modulus_value(m) > 0,
        ensures
            Self::output_value(r) == (self.value() + Self::rhs_value(rhs)) % Self::modulus_value(
                m,
            ),
    ;

    /// Returns `(self - rhs) % m`, the residue in `[0, m)`.
    fn subm(self, rhs: Rhs, m: Modulus) -> (r: Self::Output)
        requires
            Self::modulus_value(m) > 0,
        ensures
            Self::output_value(r) == (self.value() - Self::rhs_value(rhs)) % (Self::modulus_value(
                m,
            ) as int),
    ;

    /// Returns `(self * rhs) % m`.
    fn mulm(self, rhs: Rhs, m: Modulus) -> (r: Self::Output)
        requires
            Self::modulus_value(m) > 0,
        ensures
            Self::output_value(r) == (self.value() * Self::rhs_value(rhs)) % Self::modulus_value(
                m,
            ),
    ;

    /// Returns `(self ^ exp) % m`.
    fn powm(self, exp: Rhs, m: Modulus) -> (r: Self::Output)
        requires
            Self::modulus_value(m) > 0,
        ensures
            Self::output_value(r) == pow(self.value() as int, Self::rhs_value(exp)) % (
            Self::modulus_value(m) as int),
    ;

    /// Returns `(-self) % m`, the residue in `[0, m)`.
    fn negm(self, m: Modulus) -> (r: Self::Output)
        requires
            Self::modulus_value(m) > 0,
        ensures
            Self::output_value(r) == (-(self.value() as int)) % (Self::modulus_value(m) as int),
    ;

    /// Calculates the modular inverse: the `x` in `[0, m)` with
    /// `self * x = 1 mod m`.
    ///
    /// There is one, and only one, exactly when `self` is coprime to `m`.
    fn invm(self, m: Modulus) -> (r: Option<Self::Output>)
        requires
            Self::modulus_value(m) > 0,
        ensures
            r is Some <==> has_inverse(self.value(), Self::modulus_value(m)),
            r is Some <==> gcd(self.value(), Self::modulus_value(m)) == 1,
            r matches Some(x) ==> Self::output_value(x) < Self::modulus_value(m) && is_inverse(
                self.value(),
                Self::output_value(x),
                Self::modulus_value(m),
            ),
    ;

    /// Calculates the Jacobi symbol `(self|n)` for an odd `n`.
    ///
    /// For a prime `n` this is the Legendre symbol.
    fn jacobi(self, n: Modulus) -> (r: i8)
        requires
            Self::modulus_value(n) % 2 == 1,
        ensures
            r == jacobi_symbol(self.value(), Self::modulus_value(n)),
            r == -1 || r == 0 || r == 1,
    ;

    /// Calculates the Kronecker symbol `(self|n)`.
    fn kronecker(self, n: Modulus) -> (r: i8)
        ensures
            r == kronecker_symbol(self.value(), Self::modulus_value(n)),
            r == -1 || r == 0 || r == 1,
    ;
}

/// A number of a ring of residues ℤ/nℤ.
///
/// The operators are defined between numbers of one ring only.
pub trait ModularInteger: Sized + PartialEq + Add<Self, Output = Self> + Sub<
    Self,
    Output = Self,
> + Neg<Output = Self> + Mul<Self, Output = Self> {
    /// The underlying representation type of the integer.
    type Base;

    /// The integer that a value of the base type holds.
    spec fn base_value(b: &Self::Base) -> nat;

    /// The modulus of the ring.
    spec fn modulus_value(&self) -> nat;

    /// The residue that this number stands for, normalized to `[0, n)`.
    spec fn residue_value(&self) -> nat;

    /// Returns the modulus of the ring.
    fn modulus(&self) -> (r: &Self::Base)
        ensures
            Self::base_value(r) == self.modulus_value(),
    ;

    /// Returns the normalized residue of this number.
    fn residue(&self) -> (r: Self::Base)
        ensures
            Self::base_value(&r) == self.residue_value(),
    ;

    /// Converts an ordinary integer into the ring of `self`.
    ///
    /// This is cheaper than a constructor that starts from the modulus,
    /// because what was precomputed for the ring is shared.
    fn new(&self, n: Self::Base) -> (r: Self)
        ensures
            r.modulus_value() == self.modulus_value(),
            r.residue_value() == Self::base_value(&n) % self.modulus_value(),
    ;
}

} // verus!
