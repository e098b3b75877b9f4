//! Opaque complex coefficients.
//!
//! The observable's coefficients are `num_complex::Complex64` values.  The
//! library never inspects their float parts: it combines them through the
//! trusted wrappers below, whose bodies are single calls into
//! `num_complex`.  Each wrapper's result is a function of its arguments
//! alone, so it carries a name — an uninterpreted spec function — and the
//! contracts of the observable pipeline are stated exactly over those
//! names.

use vstd::prelude::*;

verus! {

/// num_complex's complex number, declared so that its values can flow
/// through signatures and fields; the library treats them as opaque.
#[verifier::external_type_specification]
#[verifier::external_body]
#[verifier::reject_recursive_types(T)]
pub struct ExComplex<T>(num_complex::Complex<T>);

/// The complex number 0.
pub uninterp spec fn complex_zero(u: ()) -> num_complex::Complex64;

/// The complex number 1.
pub uninterp spec fn complex_one(u: ()) -> num_complex::Complex64;

/// The complex sum `a + b`.
pub uninterp spec fn add_of(
    a: num_complex::Complex64,
    b: num_complex::Complex64,
) -> num_complex::Complex64;

/// The complex product `a * b`.
pub uninterp spec fn mul_of(
    a: num_complex::Complex64,
    b: num_complex::Complex64,
) -> num_complex::Complex64;

/// The complex negation `-a`.
pub uninterp spec fn neg_of(a: num_complex::Complex64) -> num_complex::Complex64;

/// One quarter turn: the complex product `i * a`.
pub uninterp spec fn i_mul_of(a: num_complex::Complex64) -> num_complex::Complex64;

/// Whether the modulus `|v|` is strictly below the real part of `bound`.
pub uninterp spec fn norm_below_of(
    v: num_complex::Complex64,
    bound: num_complex::Complex64,
) -> bool;

/// Relies on the constant `num_complex::Complex64::ZERO`, the number 0.
#[verifier::external_body]
pub(crate) fn c_zero() -> (r: num_complex::Complex64)
    ensures
        r == complex_zero(()),
{
    num_complex::Complex64::ZERO
}

/// Relies on the constant `num_complex::Complex64::ONE`, the number 1.
#[verifier::external_body]
pub(crate) fn c_one() -> (r: num_complex::Complex64)
    ensures
        r == complex_one(()),
{
    num_complex::Complex64::ONE
}

/// Relies on `num_complex`'s `Add` impl for `Complex64`: complex
/// addition, a function of the two operands alone.
#[verifier::external_body]
pub(crate) fn c_add(a: &num_complex::Complex64, b: &num_complex::Complex64) -> (r:
    num_complex::Complex64)
    ensures
        r == add_of(*a, *b),
{
    *a + *b
}

/// Relies on `num_complex`'s `Mul` impl for `Complex64`: complex
/// multiplication, a function of the two operands alone.
#[verifier::external_body]
pub(crate) fn c_mul(a: &num_complex::Complex64, b: &num_complex::Complex64) -> (r:
    num_complex::Complex64)
    ensures
        r == mul_of(*a, *b),
{
    *a * *b
}

/// Relies on `num_complex`'s `Neg` impl for `Complex64`: complex
/// negation, a function of its operand alone.
#[verifier::external_body]
pub(crate) fn c_neg(a: &num_complex::Complex64) -> (r: num_complex::Complex64)
    ensures
        r == neg_of(*a),
{
    -*a
}

/// Relies on `num_complex`'s `Mul` impl and the constant `Complex64::I`:
/// the product with the imaginary unit, a function of its operand alone.
#[verifier::external_body]
pub(crate) fn c_mul_i(a: &num_complex::Complex64) -> (r: num_complex::Complex64)
    ensures
        r == i_mul_of(*a),
{
    *a * num_complex::Complex64::I
}

/// Relies on `num_complex::Complex64::norm` (the float modulus `|v|`) and
/// the float comparison of core: whether `|v|` is strictly below the real
/// part of `bound`, a function of the two values alone.
#[verifier::external_body]
pub(crate) fn norm_below(v: &num_complex::Complex64, bound: &num_complex::Complex64) -> (r: bool)
    ensures
        r == norm_below_of(*v, *bound),
{
    v.norm() < bound.re
}

} // verus!
