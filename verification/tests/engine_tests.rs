use symrs::system::split_words;
use symrs::{
    DiffError, ExprKind, Expression, Function, Scalar, SimplifyError, Step, System, Var,
};
use std::ops::{Add, Div, Mul, Neg, Sub};

fn var(id: usize) -> Expression {
    Expression::from(Var { id })
}

fn num(n: i64) -> Expression {
    Expression::from(n)
}

fn frac(re: i64, den: i64) -> Expression {
    Expression::from_scalar(Scalar::new(re, 0, den).unwrap())
}

fn sin(e: Expression) -> Expression {
    Expression::func(Function::Sin, e)
}

fn cos(e: Expression) -> Expression {
    Expression::func(Function::Cos, e)
}

fn sys() -> System {
    let mut sys = System::new();
    sys.symbols("x y z").unwrap();
    sys
}

fn x() -> Var {
    Var { id: 0 }
}

fn written(e: &Expression) -> String {
    sys().str(e)
}

fn derived(e: Expression) -> String {
    written(&e.diff(x()).unwrap())
}

fn simple(e: Expression) -> String {
    written(&e.simplify().unwrap())
}

#[test]
fn names_are_split_at_white_space() {
    assert_eq!(split_words(""), Vec::<String>::new());
    assert_eq!(split_words("   \t\n"), Vec::<String>::new());
    assert_eq!(split_words("x"), vec!["x"]);
    assert_eq!(split_words("ct s"), vec!["ct", "s"]);
    assert_eq!(split_words("  alpha\tbeta\n\ngamma\r\x0Cdelta "), vec!["alpha", "beta", "gamma", "delta"]);
    assert_eq!(split_words("θ φ"), vec!["θ", "φ"]);
    // a blank that is not one of the five separators belongs to the name
    assert_eq!(split_words("a\u{a0}b c"), vec!["a\u{a0}b", "c"]);
}

#[test]
fn every_kind_has_its_written_form() {
    assert_eq!(written(&var(0)), "x");
    assert_eq!(written(&var(2)), "z");
    assert_eq!(written(&var(9)), "?");
    assert_eq!(written(&num(-3)), "-3.000e0");
    assert_eq!(written(&frac(1, 2)), "5.000e-1");
    assert_eq!(written(&var(0).add(var(1))), "(x+y)");
    assert_eq!(written(&var(0).mul(var(1))), " x*y ");
    assert_eq!(written(&var(0).sub(var(1))), "(x+ -1.000e0*y )");
    assert_eq!(written(&var(0).div(var(1))), " x*(y^-1.000e0) ");
    assert_eq!(written(&var(0).neg()), " -1.000e0*x ");
    assert_eq!(written(&var(0).pow(num(2))), "(x^2.000e0)");
    assert_eq!(written(&var(0).inv()), "(x^-1.000e0)");
    assert_eq!(written(&var(0).exp()), " e^x ");
    assert_eq!(written(&var(0).ln()), "ln(x)");
    assert_eq!(written(&var(0).log(num(2))), " ln(x)*(ln(2.000e0)^-1.000e0) ");
    assert_eq!(written(&sin(var(0))), "sin(x)");
    assert_eq!(written(&cos(var(0).add(num(1)))), "cos((x+1.000e0))");
    assert_eq!(Function::Sin.str(), "sin");
    assert_eq!(Function::Cos.str(), "cos");
    assert!(sys().knows(&var(2)));
    assert!(!sys().knows(&var(3)));
}

#[test]
fn the_rules_of_differentiation() {
    // constants and variables
    assert_eq!(derived(num(5)), "0.000");
    assert_eq!(derived(var(0)), "1.000e0");
    assert_eq!(derived(var(1)), "0.000");
    // a sum leaves out the terms whose derivative is zero
    assert_eq!(derived(var(0).add(var(1))), "1.000e0");
    assert_eq!(derived(var(0).add(var(0))), "(1.000e0+1.000e0)");
    assert_eq!(derived(var(1).add(num(2))), "0.000");
    // a product: the derivative of one factor times the others
    assert_eq!(derived(var(0).mul(var(1))), " 1.000e0*y ");
    assert_eq!(derived(var(0).mul(var(0))), "( 1.000e0*x + 1.000e0*x )");
    assert_eq!(derived(var(1).mul(var(2))), "0.000");
    // the power rule
    assert_eq!(derived(var(0).pow(num(3))), " 3.000e0*(x^(3.000e0+-1.000e0))*1.000e0 ");
    assert_eq!(derived(var(0).pow(var(1))), " y*(x^(y+-1.000e0))*1.000e0 ");
    // the chain rule
    assert_eq!(derived(var(0).exp()), "  e^x *1.000e0 ");
    assert_eq!(derived(var(0).ln()), " 1.000e0*(x^-1.000e0) ");
    assert_eq!(derived(sin(var(0))), " cos(x)*1.000e0 ");
    assert_eq!(derived(cos(var(0))), "  -1.000e0*sin(x) *1.000e0 ");
    assert_eq!(derived(sin(var(0).mul(var(0)))), " cos( x*x )*( 1.000e0*x + 1.000e0*x ) ");
}

#[test]
fn an_exponent_must_be_known_to_be_constant() {
    assert_eq!(num(2).pow(var(0)).diff(x()).err(), Some(DiffError::NonConstantExponent));
    assert_eq!(
        var(0).pow(var(0).mul(var(1))).diff(x()).err(),
        Some(DiffError::NonConstantExponent)
    );
    // the derivative of the exponent simplifies to zero
    assert!(var(0).pow(sin(var(1))).diff(x()).is_ok());
    // the simplification of the derivative of the exponent fails
    let huge = num(i64::MAX).mul(num(2)).mul(var(0));
    assert_eq!(var(0).pow(huge).diff(x()).err(), Some(DiffError::NonConstantExponent));
    // the failure of an operand is the failure of the whole
    assert_eq!(
        sin(num(2).pow(var(0))).add(var(0)).diff(x()).err(),
        Some(DiffError::NonConstantExponent)
    );
}

#[test]
fn sums_are_flattened_and_folded() {
    assert_eq!(simple(var(0).add(var(1)).add(var(2))), "(x+y+z)");
    assert_eq!(simple(num(1).add(var(0)).add(num(2))), "(x+3.000e0)");
    assert_eq!(simple(num(1).add(num(2))), "3.000e0");
    assert_eq!(simple(var(0).add(num(0))), "x");
    assert_eq!(simple(num(2).add(num(-2))), "0.000");
    assert_eq!(simple(num(2).add(var(0)).add(num(-2))), "x");
    assert_eq!(simple(frac(1, 2).add(frac(1, 3))), "8.333e-1");
}

#[test]
fn products_are_flattened_folded_and_expanded() {
    assert_eq!(simple(var(0).mul(var(1)).mul(var(2))), " x*y*z ");
    assert_eq!(simple(num(2).mul(var(0)).mul(num(3))), " x*6.000e0 ");
    assert_eq!(simple(num(2).mul(num(3))), "6.000e0");
    assert_eq!(simple(var(0).mul(num(1))), "x");
    assert_eq!(simple(frac(1, 2).mul(num(2))), "1.000e0");
    assert_eq!(simple(var(0).mul(num(0)).mul(var(1))), "0.000");
    assert_eq!(simple(num(2).mul(var(0).add(var(1)))), "( x*2.000e0 + y*2.000e0 )");
    assert_eq!(
        simple(var(0).add(num(1)).mul(var(1).add(num(2)))),
        "( x*y + x*2.000e0 + 1.000e0*y + 1.000e0*2.000e0 )"
    );
    assert_eq!(
        simple(var(0).add(var(1)).mul(var(2)).mul(var(0).add(var(1)))),
        "(  x*z *x +  x*z *y +  y*z *x +  y*z *y )"
    );
}

#[test]
fn a_zero_factor_ends_the_work_on_a_product() {
    // the failure behind the zero is never met
    let bad = num(0).pow(num(-1));
    assert_eq!(simple(num(0).mul(bad.clone())), "0.000");
    // the failure before the zero is
    assert_eq!(bad.mul(num(0)).simplify().err(), Some(SimplifyError::Indeterminate));
}

#[test]
fn the_rules_of_powers() {
    assert_eq!(simple(num(0).pow(var(0))), "0.000");
    assert_eq!(simple(num(0).pow(num(3))), "0.000");
    assert_eq!(num(0).pow(num(-3)).simplify().err(), Some(SimplifyError::Indeterminate));
    assert_eq!(num(0).pow(num(0)).simplify().err(), Some(SimplifyError::Indeterminate));
    let i = Expression::from_scalar(Scalar { re: 0, im: 1, den: 1 });
    assert_eq!(num(0).pow(i).simplify().err(), Some(SimplifyError::Indeterminate));
    assert_eq!(simple(num(1).pow(var(0))), "1.000e0");
    assert_eq!(simple(var(0).pow(num(0))), "1.000e0");
    assert_eq!(simple(var(0).pow(num(1))), "x");
    assert_eq!(simple(var(0).pow(num(2)).pow(num(3))), "(x^6.000e0)");
    assert_eq!(simple(var(0).pow(num(2)).pow(frac(1, 2))), "x");
    assert_eq!(simple(var(0).pow(var(1)).pow(var(2))), "(x^ y*z )");
    assert_eq!(simple(num(3).pow(num(4))), "8.100e1");
    assert_eq!(simple(num(2).pow(num(-3))), "1.250e-1");
    assert_eq!(simple(frac(2, 3).pow(num(-2))), "2.250e0");
    assert_eq!(simple(num(2).pow(frac(1, 2))), "(2.000e0^5.000e-1)");
    assert_eq!(num(2).pow(num(64)).simplify().err(), Some(SimplifyError::Overflow));
    assert_eq!(simple(var(0).pow(var(1))), "(x^y)");
}

#[test]
fn the_rules_of_the_exponential() {
    assert_eq!(simple(num(0).exp()), "1.000e0");
    assert_eq!(simple(num(1).add(num(-1)).exp()), "1.000e0");
    assert_eq!(simple(var(0).ln().exp()), "x");
    assert_eq!(simple(var(0).add(num(0)).ln().exp()), "x");
    assert_eq!(simple(var(0).exp()), " e^x ");
    assert_eq!(simple(var(0).exp().ln()), "ln( e^x )");
    assert_eq!(simple(sin(var(0).add(num(0)))), "sin(x)");
    assert_eq!(simple(num(0).add(num(0)).ln()), "ln(0.000)");
}

#[test]
fn the_first_failure_is_reported() {
    let overflow = num(i64::MAX).add(num(1));
    let indeterminate = num(0).pow(num(-1));
    assert_eq!(
        overflow.clone().add(indeterminate.clone()).simplify().err(),
        Some(SimplifyError::Overflow)
    );
    assert_eq!(
        indeterminate.add(overflow).simplify().err(),
        Some(SimplifyError::Indeterminate)
    );
    // both operands are simplified before the constants are folded
    let folded_late = num(i64::MAX).add(num(1)).add(num(0).pow(num(-1)));
    assert_eq!(folded_late.simplify().err(), Some(SimplifyError::Overflow));
    let operands_first = num(i64::MAX).add(num(0).pow(num(-1))).add(num(1));
    assert_eq!(operands_first.simplify().err(), Some(SimplifyError::Indeterminate));
}

#[test]
fn simplification_is_one_pass() {
    // the product of the expansion is not flattened again
    assert_eq!(
        simple(var(0).mul(var(1)).add(var(2)).mul(num(2).mul(var(0)))),
        "(  x*y *x*2.000e0 + z*x*2.000e0 )"
    );
}

#[test]
fn a_plan_lists_the_operands_before_the_operation() {
    let e = var(0).add(num(2)).mul(sin(var(1)).pow(num(3)));
    assert_eq!(
        e.program(),
        vec![
            Step::Var(0),
            Step::Const(Scalar::integer(2)),
            Step::Sum(2),
            Step::Var(1),
            Step::Apply(Function::Sin),
            Step::Const(Scalar::integer(3)),
            Step::Power,
            Step::Product(2),
        ]
    );
    assert_eq!(var(0).exp().ln().program(), vec![Step::Var(0), Step::Exp, Step::Ln]);
    assert!(e.bound_by(2));
    assert!(!e.bound_by(1));
    assert!(num(1).bound_by(0));
    assert_eq!(e.0.kind(), ExprKind::Mul);
    assert!(!e.0.is_zero());
    assert!(num(0).0.is_zero());
    assert!(frac(3, 3).0.is_one());
}
