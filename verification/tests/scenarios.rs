use num_complex::Complex64;
use symrs::{DiffError, EvalError, ExprKind, Expression, Function, Scalar, SimplifyError, Step, System, Var};
use std::ops::{Add, Div, Mul, Neg, Sub};

fn value(c: &Scalar) -> Complex64 {
    Complex64::new(c.re as f64 / c.den as f64, c.im as f64 / c.den as f64)
}

fn run(steps: &[Step], x: &[Complex64]) -> Complex64 {
    let mut stack: Vec<Complex64> = Vec::new();
    for step in steps {
        match step {
            Step::Const(c) => stack.push(value(c)),
            Step::Var(id) => stack.push(x[*id]),
            Step::Sum(n) => {
                let at = stack.len() - n;
                let sum = stack.drain(at..).fold(Complex64::new(0.0, 0.0), |a, b| a + b);
                stack.push(sum);
            }
            Step::Product(n) => {
                let at = stack.len() - n;
                let product = stack.drain(at..).fold(Complex64::new(1.0, 0.0), |a, b| a * b);
                stack.push(product);
            }
            Step::Power => {
                let e = stack.pop().unwrap();
                let b = stack.pop().unwrap();
                stack.push(b.powc(e));
            }
            Step::Exp => {
                let a = stack.pop().unwrap();
                stack.push(a.exp());
            }
            Step::Ln => {
                let a = stack.pop().unwrap();
                stack.push(a.ln());
            }
            Step::Apply(Function::Sin) => {
                let a = stack.pop().unwrap();
                stack.push(a.sin());
            }
            Step::Apply(Function::Cos) => {
                let a = stack.pop().unwrap();
                stack.push(a.cos());
            }
        }
    }
    assert_eq!(stack.len(), 1);
    stack[0]
}

fn eval(sys: &System, e: &Expression, x: &[f64]) -> Complex64 {
    let steps = sys.eval(e, x.len()).unwrap();
    let points: Vec<Complex64> = x.iter().map(|v| Complex64::new(*v, 0.0)).collect();
    run(&steps, &points)
}

fn close(a: Complex64, b: Complex64) -> bool {
    (a - b).norm() <= 1e-9 * (1.0 + a.norm().max(b.norm()))
}

fn var(v: Var) -> Expression {
    Expression::from(v)
}

fn num(n: i64) -> Expression {
    Expression::from(n)
}

#[test]
fn derivative_of_tangent_at_quarter_pi() {
    let mut sys = System::new();
    let x = sys.symbols("x").unwrap()[0];
    let y = Expression::func(Function::Sin, var(x)).div(Expression::func(Function::Cos, var(x)));
    let dy = y.diff(x).unwrap().simplify().unwrap();
    let got = eval(&sys, &dy, &[std::f64::consts::FRAC_PI_4]);
    assert!((got.re - 2.0).abs() < 1e-6);
    assert!(got.im.abs() < 1e-6);
}

#[test]
fn product_of_sums_expands() {
    let mut sys = System::new();
    let v = sys.symbols("x y z w").unwrap();
    let (x, y, z, w) = (v[0], v[1], v[2], v[3]);
    let left = var(x).add(var(y)).add(var(z));
    let right = var(x).add(var(y)).sub(var(w));
    let a = left.mul(right);
    let s = a.clone().simplify().unwrap();
    assert_eq!(
        sys.str(&s),
        "( x*x + x*y + x* w*-1.000e0  + y*x + y*y + y* w*-1.000e0  + z*x + z*y + z* w*-1.000e0  )"
    );
    for p in [[0.5, -1.25, 2.0, 3.5], [1.0, 2.0, 3.0, 4.0], [-0.3, 0.7, 1.9, -2.2]] {
        assert!(close(eval(&sys, &s, &p), eval(&sys, &a, &p)));
    }
}

#[test]
fn registering_a_name_twice_fails() {
    let mut sys = System::new();
    let first = sys.symbols("x").unwrap();
    assert_eq!(first[0].id, 0);
    let again = sys.symbols("x");
    assert_eq!(again, Err(String::from("Variable with the name x already exists")));
    assert_eq!(sys.len(), 1);
    let next = sys.symbols("y z").unwrap();
    assert_eq!(next[0].id, 1);
    assert_eq!(next[1].id, 2);
}

#[test]
fn a_repeated_name_registers_nothing() {
    let mut sys = System::new();
    assert_eq!(
        sys.symbols("a b a"),
        Err(String::from("Variable with the name a already exists"))
    );
    assert_eq!(sys.len(), 0);
    let v = sys.symbols(" \t a\nb \r c  ").unwrap();
    assert_eq!(v.len(), 3);
    assert_eq!(sys.name(v[2]).unwrap(), "c");
}

#[test]
fn derivative_is_linear_at_sample_points() {
    let mut sys = System::new();
    let v = sys.symbols("x y").unwrap();
    let (x, y) = (v[0], v[1]);
    let f = var(x).mul(var(x)).mul(var(y));
    let g = Expression::func(Function::Sin, var(x).mul(var(y)));
    let whole = f.clone().add(g.clone()).diff(x).unwrap();
    let parts = f.diff(x).unwrap().add(g.diff(x).unwrap());
    for p in [[0.5, -1.25], [1.0, 2.0], [-0.3, 0.7]] {
        assert!(close(eval(&sys, &whole, &p), eval(&sys, &parts, &p)));
    }
}

#[test]
fn derivative_obeys_the_product_rule_at_sample_points() {
    let mut sys = System::new();
    let v = sys.symbols("x y").unwrap();
    let (x, y) = (v[0], v[1]);
    let f = var(x).mul(var(x)).add(var(y));
    let g = Expression::func(Function::Cos, var(x)).add(num(3));
    let whole = f.clone().mul(g.clone()).diff(x).unwrap();
    let df = f.clone().diff(x).unwrap();
    let dg = g.clone().diff(x).unwrap();
    let parts = df.mul(g).add(f.mul(dg));
    for p in [[0.5, -1.25], [1.0, 2.0], [-0.3, 0.7]] {
        assert!(close(eval(&sys, &whole, &p), eval(&sys, &parts, &p)));
    }
}

#[test]
fn derivative_of_an_expression_without_the_variable_is_zero() {
    let mut sys = System::new();
    let v = sys.symbols("x y").unwrap();
    let (x, y) = (v[0], v[1]);
    let e = var(y).mul(var(y)).add(num(7)).mul(var(y));
    let d = e.diff(x).unwrap();
    assert_eq!(d.0.kind(), ExprKind::Const(Scalar::integer(0)));
    let trig = Expression::func(Function::Sin, var(y)).exp();
    let dt = trig.diff(x).unwrap();
    for p in [[0.5, -1.25], [1.0, 2.0]] {
        assert!(close(eval(&sys, &dt, &p), Complex64::new(0.0, 0.0)));
    }
}

#[test]
fn derivative_of_a_variable() {
    let mut sys = System::new();
    let v = sys.symbols("x y").unwrap();
    let (x, y) = (v[0], v[1]);
    assert_eq!(var(x).diff(x).unwrap().0.kind(), ExprKind::Const(Scalar::integer(1)));
    assert_eq!(var(y).diff(x).unwrap().0.kind(), ExprKind::Const(Scalar::integer(0)));
}

#[test]
fn difference_of_squares() {
    let mut sys = System::new();
    let v = sys.symbols("x y").unwrap();
    let (x, y) = (v[0], v[1]);
    let e = var(x).add(var(y)).mul(var(x).sub(var(y)));
    let s = e.simplify().unwrap();
    let want = var(x).mul(var(x)).sub(var(y).mul(var(y)));
    for p in [[0.5, -1.25], [1.0, 2.0], [-0.3, 0.7], [3.0, 3.0]] {
        assert!(close(eval(&sys, &s, &p), eval(&sys, &want, &p)));
    }
}

#[test]
fn power_with_a_varying_exponent_is_not_differentiated() {
    let mut sys = System::new();
    let x = sys.symbols("x").unwrap()[0];
    let e = num(2).pow(var(x));
    assert_eq!(e.diff(x).err(), Some(DiffError::NonConstantExponent));
    let ok = var(x).pow(num(3)).diff(x).unwrap().simplify().unwrap();
    assert!(close(eval(&sys, &ok, &[2.0]), Complex64::new(12.0, 0.0)));
}

#[test]
fn zero_to_a_negative_power_is_indeterminate() {
    let e = num(0).pow(num(-1));
    assert_eq!(e.simplify().err(), Some(SimplifyError::Indeterminate));
    let z = num(0).pow(num(2)).simplify().unwrap();
    assert_eq!(z.0.kind(), ExprKind::Const(Scalar::integer(0)));
    let zero_zero = num(0).pow(num(0));
    assert_eq!(zero_zero.simplify().err(), Some(SimplifyError::Indeterminate));
}

#[test]
fn constants_fold_exactly() {
    let sys = System::new();
    let half = Expression::from_scalar(Scalar::new(1, 0, 2).unwrap());
    let e = num(2).add(half.clone()).add(num(3));
    let folded = e.simplify().unwrap();
    assert_eq!(folded.0.kind(), ExprKind::Const(Scalar::new(11, 0, 2).unwrap()));
    assert_eq!(sys.str(&folded), "5.500e0");
    let p = num(2).mul(half).mul(num(5));
    assert_eq!(sys.str(&p.simplify().unwrap()), "5.000e0");
    let big = num(i64::MAX).mul(num(2));
    assert_eq!(big.simplify().err(), Some(SimplifyError::Overflow));
    let pw = num(2).pow(num(10)).simplify().unwrap();
    assert_eq!(pw.0.kind(), ExprKind::Const(Scalar::integer(1024)));
    assert_eq!(sys.str(&pw), "1.024e3");
    let inv = num(4).pow(num(-1)).simplify().unwrap();
    assert_eq!(inv.0.kind(), ExprKind::Const(Scalar::new(1, 0, 4).unwrap()));
    assert_eq!(sys.str(&inv), "2.500e-1");
}

#[test]
fn too_few_bindings_are_refused() {
    let mut sys = System::new();
    let v = sys.symbols("x y").unwrap();
    let e = var(v[0]);
    assert_eq!(sys.eval(&e, 1).err(), Some(EvalError::MissingBinding));
    assert!(sys.eval(&e, 2).is_ok());
    let stranger = var(Var { id: 5 });
    assert!(sys.eval(&stranger, 2).is_err());
    assert!(sys.eval(&stranger, 6).is_ok());
}
