//! Laws that relate the operations of the crate to each other.
//!
//! Each law speaks of every value that the named functions may return: a
//! premise of the form `call_ensures(f, args, r)` says that `r` is a result
//! of `f` on `args`.

use crate::gcd::{gcd, has_inverse, lemma_inverse_unique};
use crate::jacobi::{lemma_euler_criterion, lemma_jacobi_of_prime};
use crate::monty::form::{
    is_neginv, lemma_redc_congruent, lemma_redc_of_montgomery, to_montgomery,
};
use crate::monty::handle::MontgomeryInt;
use crate::monty::Montgomery;
use crate::symbol::is_prime;
use crate::{ModularInteger, ModularOps};
use std::ops::{Add, Mul, Sub};
use vstd::arithmetic::div_mod::*;
use vstd::arithmetic::power2::*;
use vstd::prelude::*;

verus! {

/// Converting an integer into a ring and reading the residue back gives
/// the integer modulo the modulus of the ring.
pub proof fn lemma_residue_of_new<T: Montgomery + Copy + PartialEq>(
    x: T,
    m: T,
    h: MontgomeryInt<T>,
    r: T,
) where T::Double: From<T>
    requires
        m.value() % 2 == 1,
        m.value() >= 3,
        call_ensures(MontgomeryInt::<T>::new, (x, m), h),
        call_ensures(<MontgomeryInt<T> as ModularInteger>::residue, (&h,), r),
    ensures
        r.value() == x.value() % m.value(),
{
}

/// The sum of two handles stands for the sum of the integers they were
/// made from, modulo the modulus.
pub proof fn lemma_residue_of_sum<T: Montgomery + Copy + PartialEq>(
    a: T,
    b: T,
    m: T,
    x: MontgomeryInt<T>,
    y: MontgomeryInt<T>,
    s: MontgomeryInt<T>,
    r: T,
) where T::Double: From<T>
    requires
        m.value() % 2 == 1,
        m.value() >= 3,
        call_ensures(MontgomeryInt::<T>::new, (a, m), x),
        call_ensures(MontgomeryInt::<T>::new, (b, m), y),
        call_ensures(<MontgomeryInt<T> as Add>::add, (x, y), s),
        call_ensures(<MontgomeryInt<T> as ModularInteger>::residue, (&s,), r),
    ensures
        r.value() == (a.value() + b.value()) % m.value(),
{
    lemma_add_mod_noop(a.value() as int, b.value() as int, m.value() as int);
}

/// The difference of two handles stands for the difference of the integers
/// they were made from, modulo the modulus.
pub proof fn lemma_residue_of_difference<T: Montgomery + Copy + PartialEq>(
    a: T,
    b: T,
    m: T,
    x: MontgomeryInt<T>,
    y: MontgomeryInt<T>,
    s: MontgomeryInt<T>,
    r: T,
) where T::Double: From<T>
    requires
        m.value() % 2 == 1,
        m.value() >= 3,
        call_ensures(MontgomeryInt::<T>::new, (a, m), x),
        call_ensures(MontgomeryInt::<T>::new, (b, m), y),
        call_ensures(<MontgomeryInt<T> as Sub>::sub, (x, y), s),
        call_ensures(<MontgomeryInt<T> as ModularInteger>::residue, (&s,), r),
    ensures
        r.value() == (a.value() - b.value()) % (m.value() as int),
{
    lemma_sub_mod_noop(a.value() as int, b.value() as int, m.value() as int);
}

/// The product of two handles stands for the product of the integers they
/// were made from, modulo the modulus.
pub proof fn lemma_residue_of_product<T: Montgomery + Copy + PartialEq>(
    a: T,
    b: T,
    m: T,
    x: MontgomeryInt<T>,
    y: MontgomeryInt<T>,
    s: MontgomeryInt<T>,
    r: T,
) where T::Double: From<T>
    requires
        m.value() % 2 == 1,
        m.value() >= 3,
        call_ensures(MontgomeryInt::<T>::new, (a, m), x),
        call_ensures(MontgomeryInt::<T>::new, (b, m), y),
        call_ensures(<MontgomeryInt<T> as Mul>::mul, (x, y), s),
        call_ensures(<MontgomeryInt<T> as ModularInteger>::residue, (&s,), r),
    ensures
        r.value() == (a.value() * b.value()) % m.value(),
{
    lemma_mul_mod_noop(a.value() as int, b.value() as int, m.value() as int);
}

/// The round trip through Montgomery form: reducing the form of `x` gives
/// `x` modulo `m`.
pub proof fn lemma_reduce_of_transform<T: Montgomery>(
    x: T,
    m: T,
    minv: T::Inv,
    t: T,
    d: T::Double,
    r: T,
)
    requires
        m.value() % 2 == 1,
        is_neginv(m.value(), T::inv_value(&minv), T::bits()),
        call_ensures(T::transform, (x, &m), t),
        T::double_value(&d) == t.value(),
        call_ensures(T::reduce, (d, &m, &minv), r),
    ensures
        r.value() == x.value() % m.value(),
{
    lemma_redc_of_montgomery(x.value(), m.value(), T::bits());
}

/// Reducing the form of `x` times `R` gives the form itself.
pub proof fn lemma_reduce_of_shifted_form<T: Montgomery>(
    x: T,
    m: T,
    minv: T::Inv,
    t: T,
    d: T::Double,
    r: T,
)
    requires
        m.value() % 2 == 1,
        is_neginv(m.value(), T::inv_value(&minv), T::bits()),
        call_ensures(T::transform, (x, &m), t),
        T::double_value(&d) == t.value() * pow2(T::bits()),
        call_ensures(T::reduce, (d, &m, &minv), r),
    ensures
        r.value() == t.value(),
{
    let w = T::bits();
    let mi = m.value() as int;
    lemma_pow2_pos(w);
    lemma_mod_bound((x.value() * pow2(w)) as int, mi);
    assert(t.value() * pow2(w) < m.value() * pow2(w)) by (nonlinear_arith)
        requires
            t.value() < m.value(),
            pow2(w) > 0,
    ;
    // the form times R is the form of the form
    lemma_mod_twice((t.value() * pow2(w)) as int, mi);
    lemma_redc_congruent(
        t.value() * pow2(w),
        to_montgomery(t.value(), m.value(), w),
        m.value(),
        w,
    );
    lemma_redc_of_montgomery(t.value(), m.value(), w);
    lemma_small_mod(t.value(), m.value());
}

/// Reducing the form of `x` times `R` gives `x` modulo `m` for those `x`
/// whose form is their own residue, as when `R` is 1 modulo `m`.
pub proof fn lemma_round_trip_of_shifted_form<T: Montgomery>(
    x: T,
    m: T,
    minv: T::Inv,
    t: T,
    d: T::Double,
    r: T,
)
    requires
        m.value() % 2 == 1,
        is_neginv(m.value(), T::inv_value(&minv), T::bits()),
        to_montgomery(x.value(), m.value(), T::bits()) == x.value() % m.value(),
        call_ensures(T::transform, (x, &m), t),
        T::double_value(&d) == t.value() * pow2(T::bits()),
        call_ensures(T::reduce, (d, &m, &minv), r),
    ensures
        r.value() == x.value() % m.value(),
{
    lemma_reduce_of_shifted_form(x, m, minv, t, d, r);
}

/// What `invm` returns is an inverse, and it returns none only where the
/// operand and the modulus have a common factor.
pub proof fn lemma_invm_sound<A, R, M>(a: A, m: M, r: Option<A::Output>) where A: ModularOps<R, M>
    requires
        A::modulus_value(m) > 1,
        call_ensures(A::invm, (a, m), r),
    ensures
        r matches Some(x) ==> (a.value() * A::output_value(x)) % A::modulus_value(m) == 1,
        r is None ==> gcd(a.value(), A::modulus_value(m)) != 1,
        r is None ==> !has_inverse(a.value(), A::modulus_value(m)),
{
    lemma_small_mod(1, A::modulus_value(m));
}

/// The sum does not depend on the width of the words: two
/// implementations of the generic operations agree on equal integers.
pub proof fn lemma_addm_width_parity<A, RA, MA, B, RB, MB>(
    a: A,
    ra: RA,
    ma: MA,
    oa: A::Output,
    b: B,
    rb: RB,
    mb: MB,
    ob: B::Output,
) where A: ModularOps<RA, MA>, B: ModularOps<RB, MB>
    requires
        A::modulus_value(ma) > 0,
        a.value() == b.value(),
        A::rhs_value(ra) == B::rhs_value(rb),
        A::modulus_value(ma) == B::modulus_value(mb),
        call_ensures(A::addm, (a, ra, ma), oa),
        call_ensures(B::addm, (b, rb, mb), ob),
    ensures
        A::output_value(oa) == B::output_value(ob),
{
}

/// The difference does not depend on the width of the words: two
/// implementations of the generic operations agree on equal integers.
pub proof fn lemma_subm_width_parity<A, RA, MA, B, RB, MB>(
    a: A,
    ra: RA,
    ma: MA,
    oa: A::Output,
    b: B,
    rb: RB,
    mb: MB,
    ob: B::Output,
) where A: ModularOps<RA, MA>, B: ModularOps<RB, MB>
    requires
        A::modulus_value(ma) > 0,
        a.value() == b.value(),
        A::rhs_value(ra) == B::rhs_value(rb),
        A::modulus_value(ma) == B::modulus_value(mb),
        call_ensures(A::subm, (a, ra, ma), oa),
        call_ensures(B::subm, (b, rb, mb), ob),
    ensures
        A::output_value(oa) == B::output_value(ob),
{
}

/// The product does not depend on the width of the words: two
/// implementations of the generic operations agree on equal integers.
pub proof fn lemma_mulm_width_parity<A, RA, MA, B, RB, MB>(
    a: A,
    ra: RA,
    ma: MA,
    oa: A::Output,
    b: B,
    rb: RB,
    mb: MB,
    ob: B::Output,
) where A: ModularOps<RA, MA>, B: ModularOps<RB, MB>
    requires
        A::modulus_value(ma) > 0,
        a.value() == b.value(),
        A::rhs_value(ra) == B::rhs_value(rb),
        A::modulus_value(ma) == B::modulus_value(mb),
        call_ensures(A::mulm, (a, ra, ma), oa),
        call_ensures(B::mulm, (b, rb, mb), ob),
    ensures
        A::output_value(oa) == B::output_value(ob),
{
}

/// The power does not depend on the width of the words: two
/// implementations of the generic operations agree on equal integers.
pub proof fn lemma_powm_width_parity<A, RA, MA, B, RB, MB>(
    a: A,
    ra: RA,
    ma: MA,
    oa: A::Output,
    b: B,
    rb: RB,
    mb: MB,
    ob: B::Output,
) where A: ModularOps<RA, MA>, B: ModularOps<RB, MB>
    requires
        A::modulus_value(ma) > 0,
        a.value() == b.value(),
        A::rhs_value(ra) == B::rhs_value(rb),
        A::modulus_value(ma) == B::modulus_value(mb),
        call_ensures(A::powm, (a, ra, ma), oa),
        call_ensures(B::powm, (b, rb, mb), ob),
    ensures
        A::output_value(oa) == B::output_value(ob),
{
}

/// The negative does not depend on the width of the words: two
/// implementations of the generic operations agree on equal integers.
pub proof fn lemma_negm_width_parity<A, RA, MA, B, RB, MB>(
    a: A,
    ma: MA,
    oa: A::Output,
    b: B,
    mb: MB,
    ob: B::Output,
) where A: ModularOps<RA, MA>, B: ModularOps<RB, MB>
    requires
        A::modulus_value(ma) > 0,
        a.value() == b.value(),
        A::modulus_value(ma) == B::modulus_value(mb),
        call_ensures(A::negm, (a, ma), oa),
        call_ensures(B::negm, (b, mb), ob),
    ensures
        A::output_value(oa) == B::output_value(ob),
{
}

/// The inverse does not depend on the width of the words: two
/// implementations of the generic operations agree on equal integers.
pub proof fn lemma_invm_width_parity<A, RA, MA, B, RB, MB>(
    a: A,
    ma: MA,
    oa: Option<A::Output>,
    b: B,
    mb: MB,
    ob: Option<B::Output>,
) where A: ModularOps<RA, MA>, B: ModularOps<RB, MB>
    requires
        A::modulus_value(ma) > 0,
        a.value() == b.value(),
        A::modulus_value(ma) == B::modulus_value(mb),
        call_ensures(A::invm, (a, ma), oa),
        call_ensures(B::invm, (b, mb), ob),
    ensures
        oa is Some <==> ob is Some,
        oa is Some ==> A::output_value(oa->0) == B::output_value(ob->0),
{
    if oa is Some {
        lemma_inverse_unique(
            a.value(),
            A::output_value(oa->0),
            B::output_value(ob->0),
            A::modulus_value(ma),
        );
    }
}

/// The Jacobi symbol does not depend on the width of the words: two
/// implementations of the generic operations agree on equal integers.
pub proof fn lemma_jacobi_width_parity<A, RA, MA, B, RB, MB>(
    a: A,
    ma: MA,
    oa: i8,
    b: B,
    mb: MB,
    ob: i8,
) where A: ModularOps<RA, MA>, B: ModularOps<RB, MB>
    requires
        A::modulus_value(ma) % 2 == 1,
        a.value() == b.value(),
        A::modulus_value(ma) == B::modulus_value(mb),
        call_ensures(A::jacobi, (a, ma), oa),
        call_ensures(B::jacobi, (b, mb), ob),
    ensures
        oa == ob,
{
}

/// The Kronecker symbol does not depend on the width of the words: two
/// implementations of the generic operations agree on equal integers.
pub proof fn lemma_kronecker_width_parity<A, RA, MA, B, RB, MB>(
    a: A,
    ma: MA,
    oa: i8,
    b: B,
    mb: MB,
    ob: i8,
) where A: ModularOps<RA, MA>, B: ModularOps<RB, MB>
    requires
        a.value() == b.value(),
        A::modulus_value(ma) == B::modulus_value(mb),
        call_ensures(A::kronecker, (a, ma), oa),
        call_ensures(B::kronecker, (b, mb), ob),
    ensures
        oa == ob,
{
}

/// Euler's criterion: for an odd prime `n`, the Jacobi symbol `(a|n)` is
/// the power `a^((n - 1) / 2)` modulo `n`, read as a sign: the power is
/// 0, 1 or `n - 1`, and the symbol is 0, 1 or -1 accordingly.
pub proof fn lemma_jacobi_is_euler_power<A, R, M>(a: A, e: R, n: M, x: A::Output, r: i8) where
    A: ModularOps<R, M>,

    requires
        is_prime(A::modulus_value(n)),
        A::modulus_value(n) % 2 == 1,
        A::rhs_value(e) == (A::modulus_value(n) - 1) / 2,
        call_ensures(A::powm, (a, e, n), x),
        call_ensures(A::jacobi, (a, n), r),
    ensures
        A::output_value(x) == 0 || A::output_value(x) == 1 || A::output_value(x)
            == A::modulus_value(n) - 1,
        r == if A::output_value(x) == 0 {
            0int
        } else if A::output_value(x) == 1 {
            1int
        } else {
            -1int
        },
{
    lemma_jacobi_of_prime(a.value(), A::modulus_value(n));
    lemma_euler_criterion(a.value(), A::modulus_value(n));
}

} // verus!
