//! Expressions as values: the arithmetic that builds them, and the transforms on them.

use crate::expression::diff::{diff, DiffError};
use crate::expression::eval::{bound_by, countable, program, Step};
use crate::expression::simplify::{simplify, SimplifyError};
use crate::expression::{held, views, ExprKind, Expressand, Function, Var};
use crate::scalar::Scalar;
use crate::term::Term;
use crate::tree::Tree;
use core::ops::{Add, Div, Mul, Neg, Sub};
use vstd::prelude::*;
use vstd::std_specs::convert::FromSpecImpl;
use vstd::std_specs::ops::{AddSpecImpl, DivSpecImpl, MulSpecImpl, NegSpecImpl, SubSpecImpl};

verus! {

/// A value that stands for an expression.
#[derive(Debug)]
pub struct Expressable<T>(pub T);

/// An expression that owns its tree.
pub type Expression = Expressable<Expressand>;

/// The node of `kind` over two terms.
pub open spec fn binary(kind: ExprKind, a: Term, b: Term) -> Term {
    Term { kind, args: seq![a, b] }
}

/// The node of `kind` over one term.
pub open spec fn unary(kind: ExprKind, a: Term) -> Term {
    Term { kind, args: seq![a] }
}

/// `a + b`.
pub open spec fn sum(a: Term, b: Term) -> Term {
    binary(ExprKind::Add, a, b)
}

/// `a · b`.
pub open spec fn product(a: Term, b: Term) -> Term {
    binary(ExprKind::Mul, a, b)
}

/// `-a`, as minus one times `a`.
pub open spec fn negation(a: Term) -> Term {
    product(Term::minus_one(), a)
}

/// `a - b`, as `a` plus minus one times `b`.
pub open spec fn difference(a: Term, b: Term) -> Term {
    sum(a, negation(b))
}

/// `a` raised to `e`.
pub open spec fn power(a: Term, e: Term) -> Term {
    binary(ExprKind::Pow, a, e)
}

/// `1 / a`, as `a` raised to minus one.
pub open spec fn inverse(a: Term) -> Term {
    power(a, Term::minus_one())
}

/// `a / b`, as `a` times the inverse of `b`.
pub open spec fn quotient(a: Term, b: Term) -> Term {
    product(a, inverse(b))
}

/// The natural logarithm of `a`.
pub open spec fn natural_log(a: Term) -> Term {
    unary(ExprKind::Ln, a)
}

/// The exponential of `a`.
pub open spec fn exponential(a: Term) -> Term {
    unary(ExprKind::Exp, a)
}

/// The logarithm of `a` to the base `base`, as the quotient of the natural logarithms.
pub open spec fn logarithm(a: Term, base: Term) -> Term {
    quotient(natural_log(a), natural_log(base))
}

/// The function `f` applied to `a`.
pub open spec fn apply(f: Function, a: Term) -> Term {
    unary(ExprKind::Func(f), a)
}

/// The result of a transform, read as a term.
pub open spec fn term_of_result<E>(r: Result<Expression, E>) -> Result<Term, E> {
    match r {
        Ok(e) => Ok(e@),
        Err(x) => Err(x),
    }
}

impl Clone for Expressable<Expressand> {
    /// A copy of the expression.
    fn clone(&self) -> (r: Expressable<Expressand>)
        ensures
            r@ == self@,
    {
        Expressable(self.0.clone())
    }
}

impl View for Expressable<Expressand> {
    type V = Term;

    open spec fn view(&self) -> Term {
        self.0@
    }
}

/// The expression of one node of `kind` over one operand.
fn one(kind: ExprKind, a: Expressand) -> (r: Expressand)
    requires
        kind == ExprKind::Exp || kind == ExprKind::Ln || kind is Func,
    ensures
        r@ == unary(kind, a@),
{
    let mut parts: Vec<Expressand> = Vec::new();
    parts.push(a);
    proof {
        assert(views(parts@) =~= seq![a@]);
    }
    Expressand::compose(kind, parts)
}

/// The expression of one node of `kind` over two operands.
fn two(kind: ExprKind, a: Expressand, b: Expressand) -> (r: Expressand)
    requires
        kind == ExprKind::Add || kind == ExprKind::Mul || kind == ExprKind::Pow,
    ensures
        r@ == binary(kind, a@, b@),
{
    let mut parts: Vec<Expressand> = Vec::new();
    parts.push(a);
    parts.push(b);
    proof {
        assert(views(parts@) =~= seq![a@, b@]);
    }
    Expressand::compose(kind, parts)
}

impl Expressable<Expressand> {
    /// The expression that is the constant `c`.
    pub fn from_scalar(c: Scalar) -> (r: Expression)
        requires
            c.well_formed(),
        ensures
            r@ == Term::constant(c),
    {
        Expressable(Expressand::constant(c))
    }

    /// The partial derivative by `x`.
    pub fn diff(self, x: Var) -> (r: Result<Expression, DiffError>)
        ensures
            term_of_result(r) == diff(self@, x),
    {
        match self.0.diff(x) {
            Ok(d) => Ok(Expressable(d)),
            Err(e) => Err(e),
        }
    }

    /// One bottom-up pass of simplification.
    pub fn simplify(self) -> (r: Result<Expression, SimplifyError>)
        ensures
            term_of_result(r) == simplify(self@),
    {
        match self.0.simplify() {
            Ok(s) => Ok(Expressable(s)),
            Err(e) => Err(e),
        }
    }

    /// The natural logarithm of the expression.
    pub fn ln(self) -> (r: Expression)
        ensures
            r@ == natural_log(self@),
    {
        Expressable(one(ExprKind::Ln, self.0))
    }

    /// The exponential of the expression.
    pub fn exp(self) -> (r: Expression)
        ensures
            r@ == exponential(self@),
    {
        Expressable(one(ExprKind::Exp, self.0))
    }

    /// The expression raised to `exp`.
    pub fn pow(self, exp: Expression) -> (r: Expression)
        ensures
            r@ == power(self@, exp@),
    {
        Expressable(two(ExprKind::Pow, self.0, exp.0))
    }

    /// One over the expression.
    pub fn inv(self) -> (r: Expression)
        ensures
            r@ == inverse(self@),
    {
        Expressable(two(ExprKind::Pow, self.0, Expressand::integer(-1)))
    }

    /// The logarithm of the expression to the base `base`.
    pub fn log(self, base: Expression) -> (r: Expression)
        ensures
            r@ == logarithm(self@, base@),
    {
        self.ln() / base.ln()
    }

    /// The function `f` applied to the expression.
    pub fn func(f: Function, arg: Expression) -> (r: Expression)
        ensures
            r@ == apply(f, arg@),
    {
        Expressable(one(ExprKind::Func(f), arg.0))
    }

    /// The tree of the expression.
    pub fn tree(&self) -> (r: &Tree)
        ensures
            r.wf(),
            r.finished(),
            r.terms().len() <= 1,
            self@ == held(r.terms()),
            self@.well_formed(),
    {
        self.0.tree()
    }

    /// The operand that the expression wraps.
    pub fn ex(self) -> (r: Expressand)
        ensures
            r@ == self@,
    {
        self.0
    }

    /// The steps that evaluate the expression.
    pub fn program(&self) -> (r: Vec<Step>)
        ensures
            r@ == program(self@),
            countable(self@),
    {
        self.0.program()
    }

    /// Whether every variable of the expression has an id below `n`.
    pub fn bound_by(&self, n: usize) -> (r: bool)
        ensures
            r == bound_by(self@, n as nat),
    {
        self.0.bound_by(n)
    }
}

impl Add<Expressable<Expressand>> for Expressable<Expressand> {
    type Output = Expressable<Expressand>;

    /// The sum of the expression and `rhs`.
    fn add(self, rhs: Expressable<Expressand>) -> (r: Expressable<Expressand>)
        ensures
            r@ == sum(self@, rhs@),
    {
        Expressable(two(ExprKind::Add, self.0, rhs.0))
    }
}

impl AddSpecImpl<Expressable<Expressand>> for Expressable<Expressand> {
    open spec fn obeys_add_spec() -> bool {
        false
    }

    open spec fn add_req(self, rhs: Expressable<Expressand>) -> bool {
        true
    }

    open spec fn add_spec(self, rhs: Expressable<Expressand>) -> Expressable<Expressand> {
        self
    }
}

impl Mul<Expressable<Expressand>> for Expressable<Expressand> {
    type Output = Expressable<Expressand>;

    /// The product of the expression and `rhs`.
    fn mul(self, rhs: Expressable<Expressand>) -> (r: Expressable<Expressand>)
        ensures
            r@ == product(self@, rhs@),
    {
        Expressable(two(ExprKind::Mul, self.0, rhs.0))
    }
}

impl MulSpecImpl<Expressable<Expressand>> for Expressable<Expressand> {
    open spec fn obeys_mul_spec() -> bool {
        false
    }

    open spec fn mul_req(self, rhs: Expressable<Expressand>) -> bool {
        true
    }

    open spec fn mul_spec(self, rhs: Expressable<Expressand>) -> Expressable<Expressand> {
        self
    }
}

impl Sub<Expressable<Expressand>> for Expressable<Expressand> {
    type Output = Expressable<Expressand>;

    /// The expression less `rhs`.
    fn sub(self, rhs: Expressable<Expressand>) -> (r: Expressable<Expressand>)
        ensures
            r@ == difference(self@, rhs@),
    {
        self + rhs.neg()
    }
}

impl SubSpecImpl<Expressable<Expressand>> for Expressable<Expressand> {
    open spec fn obeys_sub_spec() -> bool {
        false
    }

    open spec fn sub_req(self, rhs: Expressable<Expressand>) -> bool {
        true
    }

    open spec fn sub_spec(self, rhs: Expressable<Expressand>) -> Expressable<Expressand> {
        self
    }
}

impl Div<Expressable<Expressand>> for Expressable<Expressand> {
    type Output = Expressable<Expressand>;

    /// The expression over `rhs`.
    fn div(self, rhs: Expressable<Expressand>) -> (r: Expressable<Expressand>)
        ensures
            r@ == quotient(self@, rhs@),
    {
        self * rhs.inv()
    }
}

impl DivSpecImpl<Expressable<Expressand>> for Expressable<Expressand> {
    open spec fn obeys_div_spec() -> bool {
        false
    }

    open spec fn div_req(self, rhs: Expressable<Expressand>) -> bool {
        true
    }

    open spec fn div_spec(self, rhs: Expressable<Expressand>) -> Expressable<Expressand> {
        self
    }
}

impl Neg for Expressable<Expressand> {
    type Output = Expressable<Expressand>;

    /// The negated expression.
    fn neg(self) -> (r: Expressable<Expressand>)
        ensures
            r@ == negation(self@),
    {
        Expressable(two(ExprKind::Mul, Expressand::integer(-1), self.0))
    }
}

impl NegSpecImpl for Expressable<Expressand> {
    open spec fn obeys_neg_spec() -> bool {
        false
    }

    open spec fn neg_req(self) -> bool {
        true
    }

    open spec fn neg_spec(self) -> Expressable<Expressand> {
        self
    }
}

impl From<Var> for Expressable<Expressand> {
    /// The expression that is the variable `value`.
    fn from(value: Var) -> (r: Expressable<Expressand>)
        ensures
            r@ == Term::leaf(ExprKind::Var(value)),
    {
        Expressable(Expressand::variable(value))
    }
}

impl FromSpecImpl<Var> for Expressable<Expressand> {
    open spec fn obeys_from_spec() -> bool {
        false
    }

    open spec fn from_spec(value: Var) -> Expressable<Expressand> {
        arbitrary()
    }
}

impl From<i64> for Expressable<Expressand> {
    /// The expression that is the integer constant `value`.
    fn from(value: i64) -> (r: Expressable<Expressand>)
        ensures
            r@ == Term::integer(value),
    {
        Expressable(Expressand::integer(value))
    }
}

impl FromSpecImpl<i64> for Expressable<Expressand> {
    open spec fn obeys_from_spec() -> bool {
        false
    }

    open spec fn from_spec(value: i64) -> Expressable<Expressand> {
        arbitrary()
    }
}

impl From<Expressand> for Expressable<Expressand> {
    /// The expression that wraps the operand `value`.
    fn from(value: Expressand) -> (r: Expressable<Expressand>)
        ensures
            r@ == value@,
    {
        Expressable(value)
    }
}

impl FromSpecImpl<Expressand> for Expressable<Expressand> {
    open spec fn obeys_from_spec() -> bool {
        true
    }

    open spec fn from_spec(value: Expressand) -> Expressable<Expressand> {
        Expressable(value)
    }
}

} // verus!
