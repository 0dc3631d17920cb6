//! The Christoffel symbols and the curvature tensors of a metric, assembled from the
//! arithmetic and the derivatives of expressions. Nothing is simplified along the way.

use crate::expression::algebra::{difference, product, sum, Expression};
use crate::expression::diff::{diff, DiffError};
use crate::expression::trig_func::one_half;
use crate::expression::Var;
use crate::matrix::{grid_terms, is_square, row_terms, Grid, SqMatrix};
use crate::scalar::Scalar;
use crate::term::Term;
use core::ops::{Add, Mul, Sub};
use vstd::prelude::*;

verus! {

/// The entries of a tensor of rank three.
pub type Cube = Seq<Seq<Seq<Term>>>;

/// The entries of a tensor of rank four.
pub type Tesseract = Seq<Seq<Seq<Seq<Term>>>>;

/// The Christoffel symbols, indexed `[m][n][r]`.
pub type Christoffel = Vec<Vec<Vec<Expression>>>;

/// The Riemann tensor, indexed `[i][j][k][l]`.
pub type RiemannCurvature = Vec<Vec<Vec<Vec<Expression>>>>;

/// The Ricci tensor, indexed `[i][j]`.
pub type RicciCurvature = Vec<Vec<Expression>>;

/// The terms of a tensor of rank three.
pub open spec fn cube_terms(c: Seq<Vec<Vec<Expression>>>) -> Cube {
    Seq::new(c.len(), |i: int| grid_terms(c[i]@))
}

/// The terms of a tensor of rank four.
pub open spec fn tesseract_terms(t: Seq<Vec<Vec<Vec<Expression>>>>) -> Tesseract {
    Seq::new(t.len(), |i: int| cube_terms(t[i]@))
}

/// The cube has `n` by `n` by `n` entries.
pub open spec fn is_cube(c: Cube, n: nat) -> bool {
    &&& c.len() == n
    &&& forall|i: int| 0 <= i < n ==> is_square(#[trigger] c[i], n)
}

/// The derivative of `t` by `x`, where there is one.
#[verifier::opaque]
pub open spec fn derivative(t: Term, x: Var) -> Term {
    diff(t, x)->Ok_0
}

/// The entry `[a][b]` of the grid has a derivative by the variable `xs[c]`.
#[verifier::opaque]
pub open spec fn has_derivative(g: Grid, xs: Seq<Var>, a: int, b: int, c: int) -> bool {
    diff(g[a][b], xs[c]) is Ok
}

/// Every entry of the grid has a derivative by every variable.
pub open spec fn differentiable(g: Grid, xs: Seq<Var>, n: nat) -> bool {
    forall|a: int, b: int, c: int|
        0 <= a < n && 0 <= b < n && 0 <= c < n ==> #[trigger] has_derivative(g, xs, a, b, c)
}

/// The sum over the first `k` indices `s` of
/// `g_inv[r][s] · (∂g[m][s]/∂x[n] + ∂g[n][s]/∂x[m] - ∂g[m][n]/∂x[s])`, added to zero from
/// the left.
pub open spec fn christoffel_sum(
    g: Grid,
    g_inv: Grid,
    xs: Seq<Var>,
    m: int,
    n: int,
    r: int,
    k: int,
) -> Term
    decreases k,
{
    if k <= 0 {
        Term::integer(0)
    } else {
        let s = k - 1;
        sum(
            christoffel_sum(g, g_inv, xs, m, n, r, s),
            product(
                g_inv[r][s],
                difference(
                    sum(derivative(g[m][s], xs[n]), derivative(g[n][s], xs[m])),
                    derivative(g[m][n], xs[s]),
                ),
            ),
        )
    }
}

/// The Christoffel symbol `[m][n][r]`: half the sum of [`christoffel_sum`] over all
/// indices.
pub open spec fn christoffel_term(
    g: Grid,
    g_inv: Grid,
    xs: Seq<Var>,
    m: int,
    n: int,
    r: int,
    size: nat,
) -> Term {
    product(christoffel_sum(g, g_inv, xs, m, n, r, size as int), Term::constant(one_half()))
}

/// The Christoffel symbols of a metric `g` with inverse `g_inv` in the coordinates `xs`.
pub open spec fn christoffel_cube(g: Grid, g_inv: Grid, xs: Seq<Var>, size: nat) -> Cube {
    Seq::new(
        size,
        |m: int|
            Seq::new(
                size,
                |n: int| Seq::new(size, |r: int| christoffel_term(g, g_inv, xs, m, n, r, size)),
            ),
    )
}

/// The derivatives that the symbol `[m][n][·]` takes exist.
pub open spec fn symbol_defined(g: Grid, xs: Seq<Var>, m: int, n: int, size: nat) -> bool {
    forall|s: int|
        0 <= s < size ==> #[trigger] has_derivative(g, xs, m, s, n) && has_derivative(
            g,
            xs,
            n,
            s,
            m,
        ) && has_derivative(g, xs, m, n, s)
}

/// The derivative of the entry `[a][b]` of the matrix by the variable `x[c]`.
fn partial<const N: usize>(g: &SqMatrix<N>, x: &Vec<Var>, a: usize, b: usize, c: usize) -> (d:
    Result<Expression, DiffError>)
    requires
        x@.len() == N,
        a < N,
        b < N,
        c < N,
    ensures
        d is Ok <==> has_derivative(g@, x@, a as int, b as int, c as int),
        d matches Ok(v) ==> v@ == derivative(g@[a as int][b as int], x@[c as int]),
{
    reveal(has_derivative);
    reveal(derivative);
    g.get(a, b).diff(x[c])
}

/// One Christoffel symbol, or the failure of a derivative that it takes.
fn christoffel_entry<const N: usize>(
    g: &SqMatrix<N>,
    g_inv: &SqMatrix<N>,
    x: &Vec<Var>,
    m: usize,
    n: usize,
    r: usize,
) -> (e: Result<Expression, DiffError>)
    requires
        x@.len() == N,
        m < N,
        n < N,
        r < N,
    ensures
        e is Ok <==> symbol_defined(g@, x@, m as int, n as int, N as nat),
        e matches Ok(v) ==> v@ == christoffel_term(
            g@,
            g_inv@,
            x@,
            m as int,
            n as int,
            r as int,
            N as nat,
        ),
{
    let size = g.size();
    let other = g_inv.size();
    let mut total = Expression::from(0i64);
    let mut s: usize = 0;
    while s < N
        invariant
            s <= N,
            m < N,
            n < N,
            r < N,
            x@.len() == N,
            is_square(g@, N as nat),
            is_square(g_inv@, N as nat),
            total@ == christoffel_sum(g@, g_inv@, x@, m as int, n as int, r as int, s as int),
            forall|k: int|
                0 <= k < s ==> #[trigger] has_derivative(g@, x@, m as int, k, n as int)
                    && has_derivative(g@, x@, n as int, k, m as int) && has_derivative(
                    g@,
                    x@,
                    m as int,
                    n as int,
                    k,
                ),
        decreases N - s,
    {
        let first = match partial(g, x, m, s, n) {
            Err(e) => {
                proof {
                    assert(!has_derivative(g@, x@, m as int, s as int, n as int));
                }
                return Err(e);
            },
            Ok(d) => d,
        };
        let second = match partial(g, x, n, s, m) {
            Err(e) => {
                proof {
                    assert(!has_derivative(g@, x@, n as int, s as int, m as int));
                    assert(has_derivative(g@, x@, m as int, s as int, n as int));
                }
                return Err(e);
            },
            Ok(d) => d,
        };
        let third = match partial(g, x, m, n, s) {
            Err(e) => {
                proof {
                    assert(!has_derivative(g@, x@, m as int, n as int, s as int));
                    assert(has_derivative(g@, x@, m as int, s as int, n as int));
                }
                return Err(e);
            },
            Ok(d) => d,
        };
        total = total.add(g_inv.get(r, s).mul(first.add(second).sub(third)));
        proof {
            assert(has_derivative(g@, x@, m as int, s as int, n as int));
            assert(has_derivative(g@, x@, n as int, s as int, m as int));
            assert(has_derivative(g@, x@, m as int, n as int, s as int));
        }
        s += 1;
    }
    Ok(total.mul(Expression::from_scalar(Scalar { re: 1, im: 0, den: 2 })))
}

/// The Christoffel symbols of the metric `g` with inverse `g_inv` in the coordinates `x`,
/// or the failure of a derivative of an entry of the metric.
pub fn christoffel<const N: usize>(g: &SqMatrix<N>, g_inv: &SqMatrix<N>, x: &Vec<Var>) -> (gamma:
    Result<Christoffel, DiffError>)
    requires
        x@.len() == N,
    ensures
        gamma is Ok <==> differentiable(g@, x@, N as nat),
        gamma matches Ok(c) ==> cube_terms(c@) == christoffel_cube(g@, g_inv@, x@, N as nat),
{
    let ghost want = christoffel_cube(g@, g_inv@, x@, N as nat);
    let mut cube: Christoffel = Vec::new();
    let mut m: usize = 0;
    proof {
        assert(cube_terms(cube@) =~= want.take(0));
    }
    while m < N
        invariant
            m <= N,
            x@.len() == N,
            want == christoffel_cube(g@, g_inv@, x@, N as nat),
            cube@.len() == m,
            cube_terms(cube@) == want.take(m as int),
            forall|a: int, c: int| 0 <= a < m && 0 <= c < N ==> #[trigger] symbol_defined(
                g@,
                x@,
                a,
                c,
                N as nat,
            ),
        decreases N - m,
    {
        let mut plane: Vec<Vec<Expression>> = Vec::new();
        let mut n: usize = 0;
        proof {
            assert(grid_terms(plane@) =~= want[m as int].take(0));
        }
        while n < N
            invariant
                n <= N,
                m < N,
                x@.len() == N,
                want == christoffel_cube(g@, g_inv@, x@, N as nat),
                plane@.len() == n,
                grid_terms(plane@) == want[m as int].take(n as int),
                forall|c: int| 0 <= c < n ==> #[trigger] symbol_defined(
                    g@,
                    x@,
                    m as int,
                    c,
                    N as nat,
                ),
            decreases N - n,
        {
            let mut row: Vec<Expression> = Vec::new();
            let mut r: usize = 0;
            proof {
                assert(row_terms(row@) =~= want[m as int][n as int].take(0));
            }
            while r < N
                invariant
                    r <= N,
                    m < N,
                    n < N,
                    x@.len() == N,
                    want == christoffel_cube(g@, g_inv@, x@, N as nat),
                    row@.len() == r,
                    row_terms(row@) == want[m as int][n as int].take(r as int),
                    r > 0 ==> symbol_defined(g@, x@, m as int, n as int, N as nat),
                decreases N - r,
            {
                match christoffel_entry(g, g_inv, x, m, n, r) {
                    Err(e) => {
                        proof {
                            lemma_undefined_symbol(g@, x@, m as int, n as int, N as nat);
                        }
                        return Err(e);
                    },
                    Ok(entry) => {
                        proof {
                            assert(row_terms(row@.push(entry)) =~= want[m as int][n as int].take(
                                r + 1,
                            ));
                        }
                        row.push(entry);
                    },
                }
                r += 1;
            }
            proof {
                assert(want[m as int][n as int].take(N as int) =~= want[m as int][n as int]);
                assert(grid_terms(plane@.push(row)) =~= want[m as int].take(n + 1));
            }
            plane.push(row);
            n += 1;
        }
        proof {
            assert(want[m as int].take(N as int) =~= want[m as int]);
            assert(cube_terms(cube@.push(plane)) =~= want.take(m + 1));
        }
        cube.push(plane);
        m += 1;
    }
    proof {
        assert(want.take(N as int) =~= want);
        assert forall|a: int, b: int, c: int|
            0 <= a < N && 0 <= b < N && 0 <= c < N implies #[trigger] has_derivative(
            g@,
            x@,
            a,
            b,
            c,
        ) by {
            assert(symbol_defined(g@, x@, a, c, N as nat));
        }
    }
    Ok(cube)
}

/// Where a symbol is not defined, the metric is not differentiable.
proof fn lemma_undefined_symbol(g: Grid, xs: Seq<Var>, m: int, n: int, size: nat)
    requires
        0 <= m < size,
        0 <= n < size,
        !symbol_defined(g, xs, m, n, size),
    ensures
        !differentiable(g, xs, size),
{
    let s = choose|s: int|
        0 <= s < size && !(#[trigger] has_derivative(g, xs, m, s, n) && has_derivative(
            g,
            xs,
            n,
            s,
            m,
        ) && has_derivative(g, xs, m, n, s));
    if !has_derivative(g, xs, m, s, n) {
    } else if !has_derivative(g, xs, n, s, m) {
    } else {
        assert(!has_derivative(g, xs, m, n, s));
    }
}

/// The entry `[i][j][l]` of the cube has a derivative by the variable `xs[k]`.
#[verifier::opaque]
pub open spec fn symbol_has_derivative(c: Cube, xs: Seq<Var>, i: int, j: int, l: int, k: int) -> bool {
    diff(c[i][j][l], xs[k]) is Ok
}

/// Every entry of the cube has a derivative by every variable.
pub open spec fn cube_differentiable(c: Cube, xs: Seq<Var>, n: nat) -> bool {
    forall|i: int, j: int, l: int, k: int|
        0 <= i < n && 0 <= j < n && 0 <= l < n && 0 <= k < n ==> #[trigger] symbol_has_derivative(
            c,
            xs,
            i,
            j,
            l,
            k,
        )
}

/// The entry `[i][j][k][l]` of the Riemann tensor after the first `n` terms of its sum:
/// `∂Γ[i][j][l]/∂x[k] - ∂Γ[i][j][k]/∂x[l]`, then for each index `m` in turn plus
/// `Γ[i][m][k] · Γ[m][j][l]` and minus `Γ[i][m][l] · Γ[m][j][k]`.
pub open spec fn riemann_sum(
    c: Cube,
    xs: Seq<Var>,
    i: int,
    j: int,
    k: int,
    l: int,
    n: int,
) -> Term
    decreases n,
{
    if n <= 0 {
        difference(derivative(c[i][j][l], xs[k]), derivative(c[i][j][k], xs[l]))
    } else {
        let m = n - 1;
        difference(
            sum(riemann_sum(c, xs, i, j, k, l, m), product(c[i][m][k], c[m][j][l])),
            product(c[i][m][l], c[m][j][k]),
        )
    }
}

/// The Riemann tensor of the Christoffel symbols `c` in the coordinates `xs`.
pub open spec fn riemann_tesseract(c: Cube, xs: Seq<Var>, size: nat) -> Tesseract {
    Seq::new(
        size,
        |i: int|
            Seq::new(
                size,
                |j: int|
                    Seq::new(
                        size,
                        |k: int|
                            Seq::new(
                                size,
                                |l: int| riemann_sum(c, xs, i, j, k, l, size as int),
                            ),
                    ),
            ),
    )
}

/// A copy of the entry `[i][j][k]` of a tensor of rank three.
fn symbol<const N: usize>(gamma: &Christoffel, i: usize, j: usize, k: usize) -> (r: Expression)
    requires
        is_cube(cube_terms(gamma@), N as nat),
        i < N,
        j < N,
        k < N,
    ensures
        r@ == cube_terms(gamma@)[i as int][j as int][k as int],
{
    proof {
        let c = cube_terms(gamma@);
        assert(is_square(c[i as int], N as nat));
        assert(c[i as int][j as int].len() == N);
    }
    gamma[i][j][k].clone()
}

/// The derivative of the entry `[i][j][l]` of the symbols by the variable `x[k]`.
fn symbol_partial<const N: usize>(
    gamma: &Christoffel,
    x: &Vec<Var>,
    i: usize,
    j: usize,
    l: usize,
    k: usize,
) -> (d: Result<Expression, DiffError>)
    requires
        is_cube(cube_terms(gamma@), N as nat),
        x@.len() == N,
        i < N,
        j < N,
        l < N,
        k < N,
    ensures
        d is Ok <==> symbol_has_derivative(
            cube_terms(gamma@),
            x@,
            i as int,
            j as int,
            l as int,
            k as int,
        ),
        d matches Ok(v) ==> v@ == derivative(
            cube_terms(gamma@)[i as int][j as int][l as int],
            x@[k as int],
        ),
{
    reveal(symbol_has_derivative);
    reveal(derivative);
    symbol::<N>(gamma, i, j, l).diff(x[k])
}

/// One entry of the Riemann tensor, or the failure of a derivative that it takes.
fn riemann_entry<const N: usize>(
    gamma: &Christoffel,
    x: &Vec<Var>,
    i: usize,
    j: usize,
    k: usize,
    l: usize,
) -> (e: Result<Expression, DiffError>)
    requires
        is_cube(cube_terms(gamma@), N as nat),
        x@.len() == N,
        i < N,
        j < N,
        k < N,
        l < N,
    ensures
        e is Ok <==> symbol_has_derivative(
            cube_terms(gamma@),
            x@,
            i as int,
            j as int,
            l as int,
            k as int,
        ) && symbol_has_derivative(cube_terms(gamma@), x@, i as int, j as int, k as int, l as int),
        e matches Ok(v) ==> v@ == riemann_sum(
            cube_terms(gamma@),
            x@,
            i as int,
            j as int,
            k as int,
            l as int,
            N as int,
        ),
{
    let ghost c = cube_terms(gamma@);
    let first = match symbol_partial::<N>(gamma, x, i, j, l, k) {
        Err(e) => {
            return Err(e);
        },
        Ok(d) => d,
    };
    let second = match symbol_partial::<N>(gamma, x, i, j, k, l) {
        Err(e) => {
            return Err(e);
        },
        Ok(d) => d,
    };
    let mut total = first.sub(second);
    let mut m: usize = 0;
    while m < N
        invariant
            m <= N,
            i < N,
            j < N,
            k < N,
            l < N,
            c == cube_terms(gamma@),
            is_cube(c, N as nat),
            total@ == riemann_sum(c, x@, i as int, j as int, k as int, l as int, m as int),
        decreases N - m,
    {
        let plus = symbol::<N>(gamma, i, m, k).mul(symbol::<N>(gamma, m, j, l));
        let minus = symbol::<N>(gamma, i, m, l).mul(symbol::<N>(gamma, m, j, k));
        total = total.add(plus).sub(minus);
        m += 1;
    }
    Ok(total)
}

/// The Riemann tensor of the Christoffel symbols `gamma` in the coordinates `x`, or the
/// failure of a derivative of a symbol.
pub fn riemann_tensor<const N: usize>(gamma: &Christoffel, x: &Vec<Var>) -> (riemann: Result<
    RiemannCurvature,
    DiffError,
>)
    requires
        is_cube(cube_terms(gamma@), N as nat),
        x@.len() == N,
    ensures
        riemann is Ok <==> cube_differentiable(cube_terms(gamma@), x@, N as nat),
        riemann matches Ok(t) ==> tesseract_terms(t@) == riemann_tesseract(
            cube_terms(gamma@),
            x@,
            N as nat,
        ),
{
    let ghost c = cube_terms(gamma@);
    let ghost want = riemann_tesseract(c, x@, N as nat);
    let mut all: RiemannCurvature = Vec::new();
    let mut i: usize = 0;
    proof {
        assert(tesseract_terms(all@) =~= want.take(0));
    }
    while i < N
        invariant
            i <= N,
            x@.len() == N,
            c == cube_terms(gamma@),
            is_cube(c, N as nat),
            want == riemann_tesseract(c, x@, N as nat),
            all@.len() == i,
            tesseract_terms(all@) == want.take(i as int),
            forall|a: int, b: int, d: int, e: int|
                0 <= a < i && 0 <= b < N && 0 <= d < N && 0 <= e < N
                    ==> #[trigger] symbol_has_derivative(c, x@, a, b, d, e),
        decreases N - i,
    {
        let mut cube: Vec<Vec<Vec<Expression>>> = Vec::new();
        let mut j: usize = 0;
        proof {
            assert(cube_terms(cube@) =~= want[i as int].take(0));
        }
        while j < N
            invariant
                j <= N,
                i < N,
                x@.len() == N,
                c == cube_terms(gamma@),
                is_cube(c, N as nat),
                want == riemann_tesseract(c, x@, N as nat),
                cube@.len() == j,
                cube_terms(cube@) == want[i as int].take(j as int),
                forall|b: int, d: int, e: int|
                    0 <= b < j && 0 <= d < N && 0 <= e < N ==> #[trigger] symbol_has_derivative(
                        c,
                        x@,
                        i as int,
                        b,
                        d,
                        e,
                    ),
            decreases N - j,
        {
            let mut plane: Vec<Vec<Expression>> = Vec::new();
            let mut k: usize = 0;
            proof {
                assert(grid_terms(plane@) =~= want[i as int][j as int].take(0));
            }
            while k < N
                invariant
                    k <= N,
                    i < N,
                    j < N,
                    x@.len() == N,
                    c == cube_terms(gamma@),
                    is_cube(c, N as nat),
                    want == riemann_tesseract(c, x@, N as nat),
                    plane@.len() == k,
                    grid_terms(plane@) == want[i as int][j as int].take(k as int),
                    forall|d: int, e: int|
                        0 <= d < N && 0 <= e < k ==> #[trigger] symbol_has_derivative(
                            c,
                            x@,
                            i as int,
                            j as int,
                            d,
                            e,
                        ),
                decreases N - k,
            {
                let mut row: Vec<Expression> = Vec::new();
                let mut l: usize = 0;
                proof {
                    assert(row_terms(row@) =~= want[i as int][j as int][k as int].take(0));
                }
                while l < N
                    invariant
                        l <= N,
                        i < N,
                        j < N,
                        k < N,
                        x@.len() == N,
                        c == cube_terms(gamma@),
                        is_cube(c, N as nat),
                        want == riemann_tesseract(c, x@, N as nat),
                        row@.len() == l,
                        row_terms(row@) == want[i as int][j as int][k as int].take(l as int),
                        forall|d: int|
                            0 <= d < l ==> #[trigger] symbol_has_derivative(
                                c,
                                x@,
                                i as int,
                                j as int,
                                d,
                                k as int,
                            ),
                    decreases N - l,
                {
                    match riemann_entry::<N>(gamma, x, i, j, k, l) {
                        Err(e) => {
                            return Err(e);
                        },
                        Ok(entry) => {
                            proof {
                                assert(row_terms(row@.push(entry))
                                    =~= want[i as int][j as int][k as int].take(l + 1));
                            }
                            row.push(entry);
                        },
                    }
                    l += 1;
                }
                proof {
                    assert(want[i as int][j as int][k as int].take(N as int)
                        =~= want[i as int][j as int][k as int]);
                    assert(grid_terms(plane@.push(row)) =~= want[i as int][j as int].take(k + 1));
                }
                plane.push(row);
                k += 1;
            }
            proof {
                assert(want[i as int][j as int].take(N as int) =~= want[i as int][j as int]);
                assert(cube_terms(cube@.push(plane)) =~= want[i as int].take(j + 1));
            }
            cube.push(plane);
            j += 1;
        }
        proof {
            assert(want[i as int].take(N as int) =~= want[i as int]);
            assert(tesseract_terms(all@.push(cube)) =~= want.take(i + 1));
        }
        all.push(cube);
        i += 1;
    }
    proof {
        assert(want.take(N as int) =~= want);
    }
    Ok(all)
}

/// The tesseract has `n` entries along each of its four sides.
pub open spec fn is_tesseract(t: Tesseract, n: nat) -> bool {
    &&& t.len() == n
    &&& forall|i: int| 0 <= i < n ==> is_cube(#[trigger] t[i], n)
}

/// The sum of the entries `t[k][i][k][j]` over the first `n` indices `k`, added to zero
/// from the left.
pub open spec fn contracted(t: Tesseract, i: int, j: int, n: int) -> Term
    decreases n,
{
    if n <= 0 {
        Term::integer(0)
    } else {
        sum(contracted(t, i, j, n - 1), t[n - 1][i][n - 1][j])
    }
}

/// The contraction of the first with the third index of a tensor of rank four.
pub open spec fn ricci_grid(t: Tesseract, n: nat) -> Grid {
    Seq::new(n, |i: int| Seq::new(n, |j: int| contracted(t, i, j, n as int)))
}

/// The Ricci tensor: the contraction of the Riemann tensor over its first and third
/// index, so that the entry `[i][j]` is the sum of the entries `[k][i][k][j]` over every
/// `k`, added to zero from the left.
pub fn ricci_tensor<const N: usize>(riemann_tensor: &RiemannCurvature) -> (ricci: RicciCurvature)
    requires
        is_tesseract(tesseract_terms(riemann_tensor@), N as nat),
    ensures
        grid_terms(ricci@) == ricci_grid(tesseract_terms(riemann_tensor@), N as nat),
{
    let ghost t = tesseract_terms(riemann_tensor@);
    let ghost want = ricci_grid(t, N as nat);
    let mut rows: RicciCurvature = Vec::new();
    let mut i: usize = 0;
    proof {
        assert(grid_terms(rows@) =~= want.take(0));
    }
    while i < N
        invariant
            i <= N,
            t == tesseract_terms(riemann_tensor@),
            is_tesseract(t, N as nat),
            want == ricci_grid(t, N as nat),
            rows@.len() == i,
            grid_terms(rows@) == want.take(i as int),
        decreases N - i,
    {
        let mut row: Vec<Expression> = Vec::new();
        let mut j: usize = 0;
        proof {
            assert(row_terms(row@) =~= want[i as int].take(0));
        }
        while j < N
            invariant
                j <= N,
                i < N,
                t == tesseract_terms(riemann_tensor@),
                is_tesseract(t, N as nat),
                want == ricci_grid(t, N as nat),
                row@.len() == j,
                row_terms(row@) == want[i as int].take(j as int),
            decreases N - j,
        {
            let mut entry = Expression::from(0i64);
            let mut k: usize = 0;
            while k < N
                invariant
                    k <= N,
                    i < N,
                    j < N,
                    t == tesseract_terms(riemann_tensor@),
                    is_tesseract(t, N as nat),
                    entry@ == contracted(t, i as int, j as int, k as int),
                decreases N - k,
            {
                proof {
                    assert(is_cube(t[k as int], N as nat));
                    assert(is_square(t[k as int][i as int], N as nat));
                    assert(t[k as int][i as int][k as int].len() == N);
                }
                entry = entry.add(riemann_tensor[k][i][k][j].clone());
                k += 1;
            }
            proof {
                assert(row_terms(row@.push(entry)) =~= want[i as int].take(j + 1));
            }
            row.push(entry);
            j += 1;
        }
        proof {
            assert(want[i as int].take(N as int) =~= want[i as int]);
            assert(grid_terms(rows@.push(row)) =~= want.take(i + 1));
        }
        rows.push(row);
        i += 1;
    }
    proof {
        assert(want.take(N as int) =~= want);
    }
    rows
}

/// The sum of `g_inv[a][b] · ricci[a][b]` over the rows before row `m` and the first `n`
/// entries of row `m`, added to zero from the left.
pub open spec fn contraction(g_inv: Grid, ricci: Grid, m: int, n: int, size: nat) -> Term
    decreases m, n,
{
    if n > 0 {
        sum(
            contraction(g_inv, ricci, m, n - 1, size),
            product(g_inv[m][n - 1], ricci[m][n - 1]),
        )
    } else if m > 0 {
        contraction(g_inv, ricci, m - 1, size as int, size)
    } else {
        Term::integer(0)
    }
}

/// The scalar curvature: the sum over all entries of the inverse metric times the Ricci
/// tensor.
pub fn scalar_curvature<const N: usize>(ricci_tensor: &RicciCurvature, g_inv: &SqMatrix<N>) -> (r:
    Expression)
    requires
        is_square(grid_terms(ricci_tensor@), N as nat),
    ensures
        r@ == contraction(g_inv@, grid_terms(ricci_tensor@), N as int, 0, N as nat),
{
    let size = g_inv.size();
    let ghost ricci = grid_terms(ricci_tensor@);
    let mut total = Expression::from(0i64);
    let mut m: usize = 0;
    while m < N
        invariant
            m <= N,
            ricci == grid_terms(ricci_tensor@),
            is_square(ricci, N as nat),
            is_square(g_inv@, N as nat),
            total@ == contraction(g_inv@, ricci, m as int, 0, N as nat),
        decreases N - m,
    {
        let mut n: usize = 0;
        while n < N
            invariant
                n <= N,
                m < N,
                ricci == grid_terms(ricci_tensor@),
                is_square(ricci, N as nat),
                is_square(g_inv@, N as nat),
                total@ == contraction(g_inv@, ricci, m as int, n as int, N as nat),
            decreases N - n,
        {
            proof {
                assert(ricci[m as int].len() == N);
            }
            let entry = ricci_tensor[m][n].clone();
            total = total.add(g_inv.get(m, n).mul(entry));
            n += 1;
        }
        m += 1;
    }
    total
}

} // verus!
