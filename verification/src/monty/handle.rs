//! A residue modulo an odd modulus, held in Montgomery form together with
//! the context that its operations need.

use crate::arith::lemma_product_below;
use crate::monty::form::{
    is_neginv, lemma_montgomery_of_redc, lemma_redc_add, lemma_redc_bound, lemma_redc_mul,
    lemma_redc_neg, lemma_redc_of_montgomery, lemma_redc_sub, redc,
};
use crate::monty::Montgomery;
use crate::ModularInteger;
use std::ops::{Add, Mul, Neg, Sub};
use std::rc::Rc;
use vstd::arithmetic::div_mod::*;
use vstd::arithmetic::power2::*;
use vstd::prelude::*;
use vstd::std_specs::cmp::PartialEqSpecImpl;
use vstd::std_specs::ops::{AddSpecImpl, MulSpecImpl, NegSpecImpl, SubSpecImpl};

verus! {

/// An integer in Montgomery form. It implements [`ModularInteger`] and is
/// cheaper than a plain integer where one modulus serves many products.
///
/// The handles of one ring share their context through an `Rc`, whose count
/// is not atomic: they stay on one thread.
#[derive(Debug)]
pub struct MontgomeryInt<T: Montgomery> {
    /// The Montgomery form of the integer.
    a: T,
    /// The modulus and its negated inverse. They are shared between the
    /// handles of one ring, which saves copies and lets two handles of one
    /// origin be recognised at once.
    minv: Rc<(T, T::Inv)>,
}

/// `Rc::ptr_eq` of std: whether two handles point to one allocation. When
/// they do, they hold one and the same value; when they do not, nothing is
/// known.
#[verifier::external_body]
fn same_allocation<C>(a: &Rc<C>, b: &Rc<C>) -> (r: bool)
    ensures
        r ==> *a == *b,
{
    Rc::ptr_eq(a, b)
}

/// `Rc::clone` of std: another handle to the same allocation, and so to the
/// same value.
#[verifier::external_body]
fn share<C>(a: &Rc<C>) -> (r: Rc<C>)
    ensures
        *r == *a,
{
    Rc::clone(a)
}

impl<T: Montgomery> MontgomeryInt<T> {
    /// The modulus is odd and at least 3, the context holds its negated
    /// inverse, and the form is a residue.
    #[verifier::type_invariant]
    spec fn well_formed(&self) -> bool {
        &&& self.minv.0.value() % 2 == 1
        &&& self.minv.0.value() >= 3
        &&& is_neginv(self.minv.0.value(), T::inv_value(&self.minv.1), T::bits())
        &&& self.a.value() < self.minv.0.value()
    }
}

impl<T: Montgomery + Copy + PartialEq> MontgomeryInt<T> where T::Double: From<T> {
    /// Converts `n` into the ring of integers modulo `m`, an odd modulus
    /// that is at least 3.
    pub fn new(n: T, m: T) -> (r: Self)
        requires
            m.value() % 2 == 1,
            m.value() >= 3,
        ensures
            r.modulus_value() == m.value(),
            r.residue_value() == n.value() % m.value(),
    {
        let inv = T::neginv(&m);
        let a = T::transform(n, &m);
        proof {
            lemma_mod_bound((n.value() * pow2(T::bits())) as int, m.value() as int);
            lemma_redc_of_montgomery(n.value(), m.value(), T::bits());
        }
        MontgomeryInt { a, minv: Rc::new((m, inv)) }
    }

    /// Whether two handles belong to the same ring. Handles of one origin
    /// are recognised by their shared context; otherwise the moduli are
    /// compared.
    pub fn same_modulus(&self, rhs: &Self) -> (r: bool)
        ensures
            r == (self.modulus_value() == rhs.modulus_value()),
    {
        if same_allocation(&self.minv, &rhs.minv) {
            true
        } else {
            proof {
                T::lemma_equal(self.minv.0, rhs.minv.0);
            }
            self.minv.0 == rhs.minv.0
        }
    }
}

impl<T: Montgomery + Copy + PartialEq> ModularInteger for MontgomeryInt<T> where T::Double: From<T> {
    type Base = T;

    open spec fn base_value(b: &T) -> nat {
        b.value()
    }

    closed spec fn modulus_value(&self) -> nat {
        self.minv.0.value()
    }

    closed spec fn residue_value(&self) -> nat {
        redc(self.a.value(), self.minv.0.value(), T::bits())
    }

    /// The modulus of a handle is odd and at least 3.
    fn modulus(&self) -> (r: &T)
        ensures
            r.value() % 2 == 1,
            r.value() >= 3,
    {
        proof {
            use_type_invariant(self);
        }
        &self.minv.0
    }

    /// The residue of a handle lies below its modulus.
    fn residue(&self) -> (r: T)
        ensures
            r.value() < self.modulus_value(),
    {
        proof {
            use_type_invariant(self);
            lemma_redc_bound(self.a.value(), self.minv.0.value(), T::bits());
            T::lemma_widen(self.a);
            lemma_pow2_pos(T::bits());
            assert(self.a.value() < self.minv.0.value() * pow2(T::bits())) by (nonlinear_arith)
                requires
                    self.a.value() < self.minv.0.value(),
                    pow2(T::bits()) > 0,
            ;
        }
        T::reduce(T::Double::from(self.a), &self.minv.0, &self.minv.1)
    }

    fn new(&self, n: T) -> (r: Self) {
        proof {
            use_type_invariant(self);
            lemma_mod_bound(
                (n.value() * pow2(T::bits())) as int,
                self.minv.0.value() as int,
            );
            lemma_redc_of_montgomery(n.value(), self.minv.0.value(), T::bits());
        }
        let a = T::transform(n, &self.minv.0);
        MontgomeryInt { a, minv: share(&self.minv) }
    }
}

impl<T: Montgomery + Copy + PartialEq> Clone for MontgomeryInt<T> where T::Double: From<T> {
    /// A clone stands for the same residue of the same ring, and shares the
    /// context of the handle it was made from.
    fn clone(&self) -> (r: Self)
        ensures
            r.modulus_value() == self.modulus_value(),
            r.residue_value() == self.residue_value(),
    {
        proof {
            use_type_invariant(self);
        }
        MontgomeryInt { a: self.a, minv: share(&self.minv) }
    }
}

impl<T: Montgomery + Copy + PartialEq> PartialEq for MontgomeryInt<T> where T::Double: From<T> {
    /// Two handles are equal when they belong to the same ring and stand for
    /// the same residue.
    fn eq(&self, other: &Self) -> (r: bool) {
        proof {
            use_type_invariant(self);
            use_type_invariant(other);
            T::lemma_equal(self.a, other.a);
            lemma_montgomery_of_redc(self.a.value(), self.minv.0.value(), T::bits());
            lemma_montgomery_of_redc(other.a.value(), other.minv.0.value(), T::bits());
        }
        self.same_modulus(other) && self.a == other.a
    }
}

impl<T: Montgomery + Copy + PartialEq> PartialEqSpecImpl for MontgomeryInt<T> where T::Double: From<T> {
    open spec fn obeys_eq_spec() -> bool {
        true
    }

    open spec fn eq_spec(&self, other: &Self) -> bool {
        self.modulus_value() == other.modulus_value() && self.residue_value()
            == other.residue_value()
    }
}

impl<T: Montgomery + Copy + PartialEq> Add for MontgomeryInt<T> where T::Double: From<T> {
    type Output = Self;

    /// The sum of two numbers of one ring.
    fn add(self, rhs: Self) -> (r: Self)
        ensures
            r.modulus_value() == self.modulus_value(),
            r.residue_value() == (self.residue_value() + rhs.residue_value()) % self.modulus_value(),
    {
        proof {
            use_type_invariant(&self);
            use_type_invariant(&rhs);
            lemma_redc_add(self.a.value(), rhs.a.value(), self.minv.0.value(), T::bits());
            lemma_mod_bound((self.a.value() + rhs.a.value()) as int, self.minv.0.value() as int);
        }
        let a = T::add(&self.a, &rhs.a, &self.minv.0);
        MontgomeryInt { a, minv: self.minv }
    }
}

impl<T: Montgomery + Copy + PartialEq> AddSpecImpl for MontgomeryInt<T> where T::Double: From<T> {
    /// The result is stated by the contract of `add`, over residues.
    open spec fn obeys_add_spec() -> bool {
        false
    }

    /// Both operands belong to one ring.
    open spec fn add_req(self, rhs: Self) -> bool {
        self.modulus_value() == rhs.modulus_value()
    }

    open spec fn add_spec(self, rhs: Self) -> Self {
        self
    }
}

impl<T: Montgomery + Copy + PartialEq> Sub for MontgomeryInt<T> where T::Double: From<T> {
    type Output = Self;

    /// The difference of two numbers of one ring.
    fn sub(self, rhs: Self) -> (r: Self)
        ensures
            r.modulus_value() == self.modulus_value(),
            r.residue_value() == (self.residue_value() - rhs.residue_value()) % (self.modulus_value() as int),
    {
        proof {
            use_type_invariant(&self);
            use_type_invariant(&rhs);
            lemma_redc_sub(self.a.value(), rhs.a.value(), self.minv.0.value(), T::bits());
            lemma_mod_bound(self.a.value() - rhs.a.value(), self.minv.0.value() as int);
        }
        let a = T::sub(&self.a, &rhs.a, &self.minv.0);
        MontgomeryInt { a, minv: self.minv }
    }
}

impl<T: Montgomery + Copy + PartialEq> SubSpecImpl for MontgomeryInt<T> where T::Double: From<T> {
    /// The result is stated by the contract of `sub`, over residues.
    open spec fn obeys_sub_spec() -> bool {
        false
    }

    /// Both operands belong to one ring.
    open spec fn sub_req(self, rhs: Self) -> bool {
        self.modulus_value() == rhs.modulus_value()
    }

    open spec fn sub_spec(self, rhs: Self) -> Self {
        self
    }
}

impl<T: Montgomery + Copy + PartialEq> Mul for MontgomeryInt<T> where T::Double: From<T> {
    type Output = Self;

    /// The product of two numbers of one ring.
    fn mul(self, rhs: Self) -> (r: Self)
        ensures
            r.modulus_value() == self.modulus_value(),
            r.residue_value() == (self.residue_value() * rhs.residue_value()) % self.modulus_value(),
    {
        proof {
            use_type_invariant(&self);
            use_type_invariant(&rhs);
            lemma_redc_mul(self.a.value(), rhs.a.value(), self.minv.0.value(), T::bits());
            lemma_redc_bound(self.a.value() * rhs.a.value(), self.minv.0.value(), T::bits());
            T::lemma_bounded(self.minv.0);
            lemma_product_below(
                self.a.value(),
                rhs.a.value(),
                self.minv.0.value(),
                pow2(T::bits()),
            );
        }
        let a = T::mul(&self.a, &rhs.a, &self.minv.0, &self.minv.1);
        MontgomeryInt { a, minv: self.minv }
    }
}

impl<T: Montgomery + Copy + PartialEq> MulSpecImpl for MontgomeryInt<T> where T::Double: From<T> {
    /// The result is stated by the contract of `mul`, over residues.
    open spec fn obeys_mul_spec() -> bool {
        false
    }

    /// Both operands belong to one ring.
    open spec fn mul_req(self, rhs: Self) -> bool {
        self.modulus_value() == rhs.modulus_value()
    }

    open spec fn mul_spec(self, rhs: Self) -> Self {
        self
    }
}

impl<T: Montgomery + Copy + PartialEq> Neg for MontgomeryInt<T> where T::Double: From<T> {
    type Output = Self;

    /// The negative of a number, in its ring.
    ///
    /// Verified code reaches it as `Neg::neg(x)`.
    fn neg(self) -> (r: Self)
        ensures
            r.modulus_value() == self.modulus_value(),
            r.residue_value() == (-(self.residue_value() as int)) % (self.modulus_value() as int),
    {
        proof {
            use_type_invariant(&self);
            lemma_redc_neg(self.a.value(), self.minv.0.value(), T::bits());
            lemma_mod_bound(-(self.a.value() as int), self.minv.0.value() as int);
        }
        let a = T::neg(&self.a, &self.minv.0);
        MontgomeryInt { a, minv: self.minv }
    }
}

impl<T: Montgomery + Copy + PartialEq> NegSpecImpl for MontgomeryInt<T> where T::Double: From<T> {
    /// The result is stated by the contract of `neg`, over residues.
    open spec fn obeys_neg_spec() -> bool {
        false
    }

    open spec fn neg_req(self) -> bool {
        true
    }

    open spec fn neg_spec(self) -> Self {
        self
    }
}

} // verus!
