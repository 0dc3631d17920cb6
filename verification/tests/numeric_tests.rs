use num_complex::Complex64;
use symrs::curvature::{christoffel, ricci_tensor, riemann_tensor, scalar_curvature};
use symrs::expression::trig_func::{
    acos, acosh, acot, acoth, acsc, acsch, asec, asech, asin, asinh, atan, atanh, cos, cosh, cot,
    coth, csc, csch, sec, sech, sin, sinh, tan, tanh,
};
use symrs::{Expression, Function, Scalar, SqMatrix, Step, System, Var};
use std::ops::{Add, Div, Mul, Neg, Sub};

fn value(c: &Scalar) -> Complex64 {
    Complex64::new(c.re as f64 / c.den as f64, c.im as f64 / c.den as f64)
}

fn run(steps: &[Step], x: &[Complex64]) -> Complex64 {
    let mut stack: Vec<Complex64> = Vec::new();
    for step in steps {
        match step {
            Step::Const(c) => stack.push(value(c)),
            Step::Var(id) => stack.push(x[*id]),
            Step::Sum(n) => {
                let at = stack.len() - n;
                let sum = stack.drain(at..).fold(Complex64::new(0.0, 0.0), |a, b| a + b);
                stack.push(sum);
            }
            Step::Product(n) => {
                let at = stack.len() - n;
                let product = stack.drain(at..).fold(Complex64::new(1.0, 0.0), |a, b| a * b);
                stack.push(product);
            }
            Step::Power => {
                let e = stack.pop().unwrap();
                let b = stack.pop().unwrap();
                stack.push(b.powc(e));
            }
            Step::Exp => {
                let a = stack.pop().unwrap();
                stack.push(a.exp());
            }
            Step::Ln => {
                let a = stack.pop().unwrap();
                stack.push(a.ln());
            }
            Step::Apply(Function::Sin) => {
                let a = stack.pop().unwrap();
                stack.push(a.sin());
            }
            Step::Apply(Function::Cos) => {
                let a = stack.pop().unwrap();
                stack.push(a.cos());
            }
        }
    }
    assert_eq!(stack.len(), 1);
    stack[0]
}

fn at(e: &Expression, x: &[f64]) -> Complex64 {
    let points: Vec<Complex64> = x.iter().map(|v| Complex64::new(*v, 0.0)).collect();
    run(&e.program(), &points)
}

fn close(a: Complex64, b: Complex64) -> bool {
    (a - b).norm() <= 1e-9 * (1.0 + a.norm().max(b.norm()))
}

fn just(x: f64) -> Complex64 {
    Complex64::new(x, 0.0)
}

fn var(id: usize) -> Expression {
    Expression::from(Var { id })
}

fn num(n: i64) -> Expression {
    Expression::from(n)
}

#[test]
fn the_functions_have_their_values() {
    let z = 0.5f64;
    let x = [z];
    assert!(close(at(&sin(var(0)), &x), just(z.sin())));
    assert!(close(at(&cos(var(0)), &x), just(z.cos())));
    assert!(close(at(&tan(var(0)), &x), just(z.tan())));
    assert!(close(at(&sec(var(0)), &x), just(1.0 / z.cos())));
    assert!(close(at(&csc(var(0)), &x), just(1.0 / z.sin())));
    assert!(close(at(&cot(var(0)), &x), just(1.0 / z.tan())));
    assert!(close(at(&asin(var(0)), &x), just(z.asin())));
    assert!(close(at(&acos(var(0)), &x), just(z.acos())));
    // the inverse tangent is built as -i/2 · ln((iz - 1) / (iz + 1))
    let i = Complex64::new(0.0, 1.0);
    let built = |z: f64| Complex64::new(0.0, -0.5) * ((i * z - 1.0) / (i * z + 1.0)).ln();
    assert!(close(at(&atan(var(0)), &x), built(z)));
    assert!(close(at(&atan(var(0)), &[1.0]), just(std::f64::consts::FRAC_PI_4)));
    assert!(close(at(&sinh(var(0)), &x), just(z.sinh())));
    assert!(close(at(&cosh(var(0)), &x), just(z.cosh())));
    assert!(close(at(&tanh(var(0)), &x), just(z.tanh())));
    assert!(close(at(&sech(var(0)), &x), just(1.0 / z.cosh())));
    assert!(close(at(&csch(var(0)), &x), just(1.0 / z.sinh())));
    assert!(close(at(&coth(var(0)), &x), just(1.0 / z.tanh())));
    assert!(close(at(&asinh(var(0)), &x), just(z.asinh())));
    assert!(close(at(&atanh(var(0)), &x), just(z.atanh())));
    let w = 2.0f64;
    let y = [w];
    assert!(close(at(&acosh(var(0)), &y), just(w.acosh())));
    assert!(close(at(&asec(var(0)), &y), just((1.0 / w).acos())));
    assert!(close(at(&acsc(var(0)), &y), just((1.0 / w).asin())));
    assert!(close(at(&acot(var(0)), &y), built(1.0 / w)));
    assert!(close(at(&acsch(var(0)), &y), just((1.0 / w).asinh())));
    assert!(close(at(&acoth(var(0)), &y), just((1.0 / w).atanh())));
    assert!(close(at(&asech(var(0)), &x), just((1.0 / z).acosh())));
}

#[test]
fn the_arithmetic_has_its_values() {
    let x = [3.0, 4.0];
    assert!(close(at(&var(0).add(var(1)), &x), just(7.0)));
    assert!(close(at(&var(0).sub(var(1)), &x), just(-1.0)));
    assert!(close(at(&var(0).mul(var(1)), &x), just(12.0)));
    assert!(close(at(&var(0).div(var(1)), &x), just(0.75)));
    assert!(close(at(&var(0).neg(), &x), just(-3.0)));
    assert!(close(at(&var(0).inv(), &x), just(1.0 / 3.0)));
    assert!(close(at(&var(0).pow(var(1)), &x), just(81.0)));
    assert!(close(at(&var(0).exp(), &x), just(3.0f64.exp())));
    assert!(close(at(&var(0).ln(), &x), just(3.0f64.ln())));
    assert!(close(at(&var(1).log(num(2)), &x), just(2.0)));
}

/// A generator of numbers that repeats from run to run.
struct Numbers(u64);

impl Numbers {
    fn next(&mut self) -> u64 {
        self.0 ^= self.0 << 13;
        self.0 ^= self.0 >> 7;
        self.0 ^= self.0 << 17;
        self.0
    }

    fn below(&mut self, n: u64) -> u64 {
        self.next() % n
    }

    fn point(&mut self) -> f64 {
        0.25 + (self.below(1000) as f64) / 400.0
    }

    fn tree(&mut self, depth: u32) -> Expression {
        let leaf = depth == 0 || self.below(5) == 0;
        if leaf {
            if self.below(2) == 0 {
                var(self.below(3) as usize)
            } else {
                num(self.below(7) as i64 - 3)
            }
        } else {
            let a = self.tree(depth - 1);
            match self.below(8) {
                0 | 1 => a.add(self.tree(depth - 1)),
                2 | 3 => a.mul(self.tree(depth - 1)),
                4 => a.sub(self.tree(depth - 1)),
                5 => Expression::func(Function::Sin, a),
                6 => Expression::func(Function::Cos, a),
                _ => a.pow(num(self.below(3) as i64 + 1)),
            }
        }
    }
}

#[test]
fn simplification_keeps_the_value_of_random_trees() {
    let mut numbers = Numbers(0x2545_f491_4f6c_dd1d);
    let mut compared = 0;
    let mut trees = 0;
    while trees < 150 {
        let e = numbers.tree(5);
        let s = match e.clone().simplify() {
            Ok(s) => s,
            Err(_) => continue,
        };
        trees += 1;
        for _ in 0..4 {
            let p = [numbers.point(), numbers.point(), numbers.point()];
            let before = at(&e, &p);
            let after = at(&s, &p);
            if before.is_finite() && after.is_finite() {
                assert!(
                    (before - after).norm() <= 1e-6 * (1.0 + before.norm()),
                    "{before} and {after}"
                );
                compared += 1;
            }
        }
    }
    assert!(compared >= 400);
}

#[test]
fn differentiation_agrees_with_difference_quotients() {
    let mut numbers = Numbers(0x9e37_79b9_7f4a_7c15);
    let mut compared = 0;
    while compared < 100 {
        let e = numbers.tree(3);
        let d = match e.clone().diff(Var { id: 0 }) {
            Ok(d) => d,
            Err(_) => continue,
        };
        let p = [numbers.point(), numbers.point(), numbers.point()];
        let h = 1e-6;
        let up = at(&e, &[p[0] + h, p[1], p[2]]);
        let down = at(&e, &[p[0] - h, p[1], p[2]]);
        let quotient = (up - down) / (2.0 * h);
        let exact = at(&d, &p);
        if quotient.is_finite() && exact.is_finite() && exact.norm() < 1e6 {
            assert!(
                (quotient - exact).norm() <= 1e-4 * (1.0 + exact.norm()),
                "{quotient} and {exact}"
            );
            compared += 1;
        }
    }
}

fn matrix2(a: Expression, b: Expression, c: Expression, d: Expression) -> SqMatrix<2> {
    SqMatrix::new(vec![vec![a, b], vec![c, d]]).unwrap()
}

fn entries<const N: usize>(sys: &System, m: &SqMatrix<N>) -> Vec<Vec<String>> {
    (0..N).map(|i| (0..N).map(|j| sys.str(&m.get(i, j))).collect()).collect()
}

#[test]
fn matrices_are_built_entry_by_entry() {
    let mut sys = System::new();
    sys.symbols("a b c d").unwrap();
    let m = matrix2(var(0), var(1), var(2), var(3));
    assert_eq!(m.size(), 2);
    assert_eq!(entries(&sys, &m), vec![vec!["a", "b"], vec!["c", "d"]]);
    assert_eq!(entries(&sys, &m.clone()), vec![vec!["a", "b"], vec!["c", "d"]]);
    assert_eq!(entries(&sys, &m.transpose()), vec![vec!["a", "c"], vec!["b", "d"]]);
    assert_eq!(
        entries(&sys, &SqMatrix::<2>::identity()),
        vec![vec!["1.000e0", "0.000"], vec!["0.000", "1.000e0"]]
    );
    assert_eq!(
        entries(&sys, &SqMatrix::<2>::zeroes()),
        vec![vec!["0.000", "0.000"], vec!["0.000", "0.000"]]
    );
    assert_eq!(sys.str(&m.tr()), "((0.000+a)+d)");
    assert_eq!(
        entries(&sys, &(m.clone() + m.clone())),
        vec![vec!["(a+a)", "(b+b)"], vec!["(c+c)", "(d+d)"]]
    );
    assert_eq!(entries(&sys, &(m.clone() - m.clone()))[0][1], "(b+ -1.000e0*b )");
    assert_eq!(entries(&sys, &(m.clone() * num(2)))[1][0], " c*2.000e0 ");
    assert_eq!(entries(&sys, &(m.clone() / num(2)))[1][1], " d*(2.000e0^-1.000e0) ");
    assert_eq!(entries(&sys, &(m.clone() * m.clone()))[0][1], "((0.000+ a*b )+ b*d )");
    assert_eq!(entries(&sys, &m.minor(0, 0, 2))[0][0], "d");
    assert_eq!(entries(&sys, &m.minor(0, 1, 2)), vec![vec!["c", "0.000"], vec!["0.000", "0.000"]]);
    assert_eq!(sys.str(&m.determinant(1)), "a");
    assert_eq!(sys.str(&m.determinant(0)), "0.000");
    assert_eq!(sys.str(&m.det()), "((0.000+  1.000e0*a *d )+  -1.000e0*b *c )");
    assert_eq!(
        entries(&sys, &m.adj()),
        vec![vec![" 1.000e0*d ", " -1.000e0*b "], vec![" -1.000e0*c ", " 1.000e0*a "]]
    );
    assert_eq!(
        entries(&sys, &m.cofactor()),
        vec![vec![" 1.000e0*d ", " -1.000e0*c "], vec![" -1.000e0*b ", " 1.000e0*a "]]
    );
    assert_eq!(entries(&sys, &m.pow(1)), vec![vec!["a", "b"], vec!["c", "d"]]);
    assert_eq!(entries(&sys, &m.pow(2)), entries(&sys, &(m.clone() * m.clone())));
    assert_eq!(entries(&sys, &SqMatrix::<1>::identity().adj()), vec![vec!["1.000e0"]]);
    assert!(SqMatrix::<2>::new(vec![vec![num(1)], vec![num(2), num(3)]]).is_none());
    assert!(SqMatrix::<2>::new(vec![vec![num(1), num(2)]]).is_none());
    assert_eq!(
        sys.strmat(&matrix2(var(0), num(10), var(0).add(var(1)), var(0).add(var(1)).add(var(0)))),
        "[   a    1.000e1 ]\n[ (a+b)  ((a+b)+a)]\n"
    );
}

#[test]
fn matrices_are_transformed_entry_by_entry() {
    let mut sys = System::new();
    sys.symbols("a b").unwrap();
    let m = matrix2(var(0).mul(var(0)), var(1), num(1).add(num(2)), var(0).pow(var(1)));
    let d = m.diff(Var { id: 0 }).unwrap();
    assert_eq!(entries(&sys, &d)[0], vec!["( 1.000e0*a + 1.000e0*a )", "0.000"]);
    assert_eq!(entries(&sys, &d)[1][0], "0.000");
    assert!(m.diff(Var { id: 1 }).is_err());
    let s = m.simplify().unwrap();
    assert_eq!(entries(&sys, &s), vec![vec![" a*a ", "b"], vec!["3.000e0", "(a^b)"]]);
    let bad = matrix2(num(1), num(0).pow(num(-1)), num(i64::MAX).add(num(1)), num(0));
    assert_eq!(bad.simplify().err(), Some(symrs::SimplifyError::Indeterminate));
}

#[test]
fn the_inverse_times_the_matrix_is_the_identity() {
    let x = [2.0, -1.0, 0.5];
    let m = SqMatrix::<3>::new(vec![
        vec![var(0), num(1), var(2)],
        vec![num(2), var(1), num(0)],
        vec![var(0).mul(var(1)), num(3), num(1)],
    ])
    .unwrap();
    let product = m.clone() * m.inv();
    for i in 0..3 {
        for j in 0..3 {
            let want = if i == j { 1.0 } else { 0.0 };
            assert!(close(at(&product.get(i, j), &x), just(want)));
        }
    }
    // x*y*1 + 1*0*(x*y) + z*(2*3 - y*x*y) - ... by the rule of Sarrus
    let (a, b, c) = (x[0], x[1], x[2]);
    let det = a * (b * 1.0 - 0.0 * 3.0) - 1.0 * (2.0 * 1.0 - 0.0 * a * b)
        + c * (2.0 * 3.0 - b * a * b);
    assert!(close(at(&m.det(), &x), just(det)));
}

#[test]
fn the_curvature_of_the_sphere() {
    // the unit sphere in the coordinates (θ, φ): g = diag(1, sin²θ)
    let theta = Var { id: 0 };
    let phi = Var { id: 1 };
    let sin2 = sin(var(0)).pow(num(2));
    let g = matrix2(num(1), num(0), num(0), sin2.clone());
    let g_inv = matrix2(num(1), num(0), num(0), sin2.inv());
    let x = vec![theta, phi];
    let gamma = christoffel(&g, &g_inv, &x).unwrap();
    let p = [0.7, 0.3];
    let (s, c) = (0.7f64.sin(), 0.7f64.cos());
    // Γ[m][n][r] is the symbol with the upper index r
    assert!(close(at(&gamma[1][1][0], &p), just(-s * c)));
    assert!(close(at(&gamma[0][1][1], &p), just(c / s)));
    assert!(close(at(&gamma[1][0][1], &p), just(c / s)));
    assert!(close(at(&gamma[0][0][0], &p), just(0.0)));
    assert!(close(at(&gamma[0][0][1], &p), just(0.0)));
    assert!(close(at(&gamma[1][1][1], &p), just(0.0)));
    let riemann = riemann_tensor::<2>(&gamma, &x).unwrap();
    // every entry is what its formula says
    let g_at = |i: usize, j: usize, k: usize| at(&gamma[i][j][k], &p);
    let d_at = |i: usize, j: usize, k: usize, by: usize| {
        at(&gamma[i][j][k].clone().diff(x[by]).unwrap(), &p)
    };
    for i in 0..2 {
        for j in 0..2 {
            for k in 0..2 {
                for l in 0..2 {
                    let mut want = d_at(i, j, l, k) - d_at(i, j, k, l);
                    for m in 0..2 {
                        want = want + g_at(i, m, k) * g_at(m, j, l) - g_at(i, m, l) * g_at(m, j, k);
                    }
                    assert!(close(at(&riemann[i][j][k][l], &p), want));
                }
            }
        }
    }
    let ricci = ricci_tensor::<2>(&riemann);
    for i in 0..2 {
        for j in 0..2 {
            let sum = at(&riemann[0][i][0][j], &p) + at(&riemann[1][i][1][j], &p);
            assert!(close(at(&ricci[i][j], &p), sum));
        }
    }
    let scalar = scalar_curvature(&ricci, &g_inv);
    let mut want = just(0.0);
    for m in 0..2 {
        for n in 0..2 {
            want = want + at(&g_inv.get(m, n), &p) * at(&ricci[m][n], &p);
        }
    }
    assert!(close(at(&scalar, &p), want));
    // a metric whose entry has no derivative has no symbols
    let odd = matrix2(num(2).pow(var(0)), num(0), num(0), num(1));
    assert!(christoffel(&odd, &g_inv, &x).is_err());
}
