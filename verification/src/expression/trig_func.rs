//! The trigonometric and hyperbolic functions and their inverses, built from the sine,
//! the cosine, the logarithm and powers.

use crate::expression::algebra::{
    apply, difference, inverse, natural_log, power, product, quotient, sum, Expression,
};
use crate::expression::Function;
use crate::scalar::Scalar;
use crate::term::Term;
use core::ops::{Add, Div, Mul, Sub};
use vstd::prelude::*;

verus! {

/// The imaginary unit.
pub open spec fn imaginary_unit() -> Scalar {
    Scalar { re: 0, im: 1, den: 1 }
}

/// One half.
pub open spec fn one_half() -> Scalar {
    Scalar { re: 1, im: 0, den: 2 }
}

/// The rational number that the double-precision number nearest to π/2 denotes.
pub open spec fn half_pi() -> Scalar {
    Scalar { re: 884279719003555, im: 0, den: 562949953421312 }
}

/// The square root of `z`, as `z` raised to one half.
pub open spec fn root_term(z: Term) -> Term {
    power(z, Term::constant(one_half()))
}

/// The square of `z`, as `z` raised to two.
pub open spec fn square_term(z: Term) -> Term {
    power(z, Term::integer(2))
}

/// The sine of `z`.
pub open spec fn sin_term(z: Term) -> Term {
    apply(Function::Sin, z)
}

/// The cosine of `z`.
pub open spec fn cos_term(z: Term) -> Term {
    apply(Function::Cos, z)
}

/// The tangent of `z`, as the sine over the cosine.
pub open spec fn tan_term(z: Term) -> Term {
    quotient(sin_term(z), cos_term(z))
}

/// `i · ln(√(1 - z²) - i·z)`.
pub open spec fn asin_term(z: Term) -> Term {
    product(
        natural_log(
            difference(
                root_term(difference(Term::integer(1), square_term(z))),
                product(Term::constant(imaginary_unit()), z),
            ),
        ),
        Term::constant(imaginary_unit()),
    )
}

/// `π/2 - asin(z)`.
pub open spec fn acos_term(z: Term) -> Term {
    difference(Term::constant(half_pi()), asin_term(z))
}

/// `-i/2 · ln((i·z - 1) / (i·z + 1))`; for a real `z` greater than zero that is a quarter
/// turn less the angle whose tangent is `z`.
pub open spec fn atan_term(z: Term) -> Term {
    let a = product(Term::constant(imaginary_unit()), z);
    product(
        Term::constant(Scalar { re: 0, im: (-1) as i64, den: 2 }),
        natural_log(quotient(difference(a, Term::integer(1)), sum(a, Term::integer(1)))),
    )
}

/// `-i · sin(i·z)`.
pub open spec fn sinh_term(z: Term) -> Term {
    product(
        Term::constant(Scalar { re: 0, im: (-1) as i64, den: 1 }),
        sin_term(product(Term::constant(imaginary_unit()), z)),
    )
}

/// `cos(i·z)`.
pub open spec fn cosh_term(z: Term) -> Term {
    cos_term(product(Term::constant(imaginary_unit()), z))
}

/// The hyperbolic tangent of `z`, as the hyperbolic sine over the hyperbolic cosine.
pub open spec fn tanh_term(z: Term) -> Term {
    quotient(sinh_term(z), cosh_term(z))
}

/// `ln(√(z² + 1) + z)`.
pub open spec fn asinh_term(z: Term) -> Term {
    natural_log(sum(root_term(sum(square_term(z), Term::integer(1))), z))
}

/// `ln(√(z² - 1) + z)`.
pub open spec fn acosh_term(z: Term) -> Term {
    natural_log(sum(root_term(difference(square_term(z), Term::integer(1))), z))
}

/// `1/2 · ln((1 + z) / (1 - z))`.
pub open spec fn atanh_term(z: Term) -> Term {
    product(
        Term::constant(one_half()),
        natural_log(quotient(sum(Term::integer(1), z), difference(Term::integer(1), z))),
    )
}

fn unit_i() -> (r: Expression)
    ensures
        r@ == Term::constant(imaginary_unit()),
{
    Expression::from_scalar(Scalar { re: 0, im: 1, den: 1 })
}

fn half() -> (r: Expression)
    ensures
        r@ == Term::constant(one_half()),
{
    Expression::from_scalar(Scalar { re: 1, im: 0, den: 2 })
}

fn square(z: Expression) -> (r: Expression)
    ensures
        r@ == square_term(z@),
{
    z.pow(Expression::from(2i64))
}

fn root(z: Expression) -> (r: Expression)
    ensures
        r@ == root_term(z@),
{
    z.pow(half())
}

/// The sine.
pub fn sin(z: Expression) -> (r: Expression)
    ensures
        r@ == sin_term(z@),
{
    Expression::func(Function::Sin, z)
}

/// The cosine.
pub fn cos(z: Expression) -> (r: Expression)
    ensures
        r@ == cos_term(z@),
{
    Expression::func(Function::Cos, z)
}

/// The tangent: the sine over the cosine.
pub fn tan(z: Expression) -> (r: Expression)
    ensures
        r@ == tan_term(z@),
{
    let copy = z.clone();
    sin(z).div(cos(copy))
}

/// The secant: one over the cosine.
pub fn sec(z: Expression) -> (r: Expression)
    ensures
        r@ == inverse(cos_term(z@)),
{
    cos(z).inv()
}

/// The cosecant: one over the sine.
pub fn csc(z: Expression) -> (r: Expression)
    ensures
        r@ == inverse(sin_term(z@)),
{
    sin(z).inv()
}

/// The cotangent: one over the tangent.
pub fn cot(z: Expression) -> (r: Expression)
    ensures
        r@ == inverse(tan_term(z@)),
{
    tan(z).inv()
}

/// The inverse sine, built as `i · ln(√(1 - z²) - i·z)`.
pub fn asin(z: Expression) -> (r: Expression)
    ensures
        r@ == asin_term(z@),
{
    let copy = z.clone();
    let under = Expression::from(1i64).sub(square(z));
    root(under).sub(unit_i().mul(copy)).ln().mul(unit_i())
}

/// The inverse cosine, built as `π/2` less the inverse sine, with the double-precision
/// number nearest to `π/2` for `π/2`.
pub fn acos(z: Expression) -> (r: Expression)
    ensures
        r@ == acos_term(z@),
{
    let quarter_turn = Expression::from_scalar(
        Scalar { re: 884279719003555, im: 0, den: 562949953421312 },
    );
    quarter_turn.sub(asin(z))
}

/// The function built as `-i/2 · ln((i·z - 1) / (i·z + 1))`.
pub fn atan(z: Expression) -> (r: Expression)
    ensures
        r@ == atan_term(z@),
{
    let a = unit_i().mul(z);
    let copy = a.clone();
    let b = a.sub(Expression::from(1i64)).div(copy.add(Expression::from(1i64)));
    Expression::from_scalar(Scalar { re: 0, im: -1, den: 2 }).mul(b.ln())
}

/// The inverse secant: the inverse cosine of one over `z`.
pub fn asec(z: Expression) -> (r: Expression)
    ensures
        r@ == acos_term(inverse(z@)),
{
    acos(z.inv())
}

/// The inverse cosecant: the inverse sine of one over `z`.
pub fn acsc(z: Expression) -> (r: Expression)
    ensures
        r@ == asin_term(inverse(z@)),
{
    asin(z.inv())
}

/// The function of [`atan`] at one over `z`.
pub fn acot(z: Expression) -> (r: Expression)
    ensures
        r@ == atan_term(inverse(z@)),
{
    atan(z.inv())
}

/// The hyperbolic sine, built as `-i · sin(i·z)`.
pub fn sinh(z: Expression) -> (r: Expression)
    ensures
        r@ == sinh_term(z@),
{
    Expression::from_scalar(Scalar { re: 0, im: -1, den: 1 }).mul(sin(unit_i().mul(z)))
}

/// The hyperbolic cosine, built as `cos(i·z)`.
pub fn cosh(z: Expression) -> (r: Expression)
    ensures
        r@ == cosh_term(z@),
{
    cos(unit_i().mul(z))
}

/// The hyperbolic tangent: the hyperbolic sine over the hyperbolic cosine.
pub fn tanh(z: Expression) -> (r: Expression)
    ensures
        r@ == tanh_term(z@),
{
    let copy = z.clone();
    sinh(z).div(cosh(copy))
}

/// The hyperbolic secant: one over the hyperbolic cosine.
pub fn sech(z: Expression) -> (r: Expression)
    ensures
        r@ == inverse(cosh_term(z@)),
{
    cosh(z).inv()
}

/// The hyperbolic cosecant: one over the hyperbolic sine.
pub fn csch(z: Expression) -> (r: Expression)
    ensures
        r@ == inverse(sinh_term(z@)),
{
    sinh(z).inv()
}

/// The hyperbolic cotangent: one over the hyperbolic tangent.
pub fn coth(z: Expression) -> (r: Expression)
    ensures
        r@ == inverse(tanh_term(z@)),
{
    tanh(z).inv()
}

/// The inverse hyperbolic sine, built as `ln(√(z² + 1) + z)`.
pub fn asinh(z: Expression) -> (r: Expression)
    ensures
        r@ == asinh_term(z@),
{
    let copy = z.clone();
    root(square(z).add(Expression::from(1i64))).add(copy).ln()
}

/// The inverse hyperbolic cosine, built as `ln(√(z² - 1) + z)`.
pub fn acosh(z: Expression) -> (r: Expression)
    ensures
        r@ == acosh_term(z@),
{
    let copy = z.clone();
    root(square(z).sub(Expression::from(1i64))).add(copy).ln()
}

/// The inverse hyperbolic tangent, built as `1/2 · ln((1 + z) / (1 - z))`.
pub fn atanh(z: Expression) -> (r: Expression)
    ensures
        r@ == atanh_term(z@),
{
    let copy = z.clone();
    let b = Expression::from(1i64).add(z).div(Expression::from(1i64).sub(copy));
    half().mul(b.ln())
}

/// The inverse hyperbolic secant: the inverse hyperbolic cosine of one over `z`.
pub fn asech(z: Expression) -> (r: Expression)
    ensures
        r@ == acosh_term(inverse(z@)),
{
    acosh(z.inv())
}

/// The inverse hyperbolic cosecant: the inverse hyperbolic sine of one over `z`.
pub fn acsch(z: Expression) -> (r: Expression)
    ensures
        r@ == asinh_term(inverse(z@)),
{
    asinh(z.inv())
}

/// The inverse hyperbolic cotangent: the inverse hyperbolic tangent of one over `z`.
pub fn acoth(z: Expression) -> (r: Expression)
    ensures
        r@ == atanh_term(inverse(z@)),
{
    atanh(z.inv())
}

} // verus!
