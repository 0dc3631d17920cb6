//! Square matrices of expressions.
//!
//! Every operation builds the entries of its result from the entries of its operands with
//! the arithmetic of expressions; nothing is simplified along the way.

use crate::expression::algebra::{difference, product, quotient, sum, Expression};
use crate::expression::diff::{diff, DiffError};
use crate::expression::simplify::{collect, lemma_collect_error, simplify, SimplifyError};
use crate::expression::Var;
use crate::term::Term;
use core::ops::{Add, Div, Mul, Sub};
use vstd::prelude::*;
use vstd::std_specs::ops::{AddSpecImpl, DivSpecImpl, MulSpecImpl, SubSpecImpl};

verus! {

/// The entries of a matrix, row by row.
pub type Grid = Seq<Seq<Term>>;

/// The terms of a row of expressions.
pub open spec fn row_terms(row: Seq<Expression>) -> Seq<Term> {
    Seq::new(row.len(), |j: int| row[j]@)
}

/// The terms of rows of expressions.
pub open spec fn grid_terms(rows: Seq<Vec<Expression>>) -> Grid {
    Seq::new(rows.len(), |i: int| row_terms(rows[i]@))
}

/// The grid has `n` rows of `n` entries.
pub open spec fn is_square(g: Grid, n: nat) -> bool {
    &&& g.len() == n
    &&& forall|i: int| 0 <= i < n ==> (#[trigger] g[i]).len() == n
}

/// The sign of the cofactor at an index: one for an even index, minus one for an odd one.
pub open spec fn sign_term(i: int) -> Term {
    if i % 2 == 0 {
        Term::integer(1)
    } else {
        Term::minus_one()
    }
}

/// The grid without row `p` and column `q` of its upper left `n` by `n` part, moved to the
/// upper left, with zeros elsewhere.
pub open spec fn minor(g: Grid, p: int, q: int, n: int) -> Grid {
    Seq::new(
        g.len(),
        |r: int|
            Seq::new(
                g.len(),
                |c: int|
                    if r < n - 1 && c < n - 1 {
                        g[if r < p {
                            r
                        } else {
                            r + 1
                        }][if c < q {
                            c
                        } else {
                            c + 1
                        }]
                    } else {
                        Term::integer(0)
                    },
            ),
    )
}

/// The determinant of the upper left `n` by `n` part, by cofactor expansion along the
/// first row: zero for no rows, the entry itself for one.
pub open spec fn determinant(g: Grid, n: nat) -> Term
    decreases n, n + 1,
{
    if n == 0 {
        Term::integer(0)
    } else if n == 1 {
        g[0][0]
    } else {
        expansion(g, n, n as int)
    }
}

/// The first `k` terms of the expansion of [`determinant`], added to zero from the left.
pub open spec fn expansion(g: Grid, n: nat, k: int) -> Term
    decreases n, k,
{
    if k <= 0 || n == 0 {
        Term::integer(0)
    } else {
        sum(
            expansion(g, n, k - 1),
            product(
                product(sign_term(k - 1), g[0][k - 1]),
                determinant(minor(g, 0, k - 1, n as int), (n - 1) as nat),
            ),
        )
    }
}

/// The sum of the first `k` entries of the diagonal, added to zero from the left.
pub open spec fn trace(g: Grid, k: int) -> Term
    decreases k,
{
    if k <= 0 {
        Term::integer(0)
    } else {
        sum(trace(g, k - 1), g[k - 1][k - 1])
    }
}

/// The sum over the first `k` indices `s` of `a[i][s] · b[s][j]`, added to zero from the
/// left.
pub open spec fn dot(a: Grid, b: Grid, i: int, j: int, k: int) -> Term
    decreases k,
{
    if k <= 0 {
        Term::integer(0)
    } else {
        sum(dot(a, b, i, j, k - 1), product(a[i][k - 1], b[k - 1][j]))
    }
}

/// How an entry of a result is made.
pub enum Cell {
    Identity,
    Copy,
    Transpose,
    Sum,
    Difference,
    Product,
    Scaled,
    Divided,
    Adjugate,
}

/// The entry at row `i` and column `j` that `cell` makes from two grids and a scalar.
pub open spec fn cell_term(cell: Cell, a: Grid, b: Grid, s: Term, i: int, j: int) -> Term {
    match cell {
        Cell::Identity => if i == j {
            Term::integer(1)
        } else {
            Term::integer(0)
        },
        Cell::Copy => a[i][j],
        Cell::Transpose => a[j][i],
        Cell::Sum => sum(a[i][j], b[i][j]),
        Cell::Difference => difference(a[i][j], b[i][j]),
        Cell::Product => dot(a, b, i, j, a.len() as int),
        Cell::Scaled => product(a[i][j], s),
        Cell::Divided => quotient(a[i][j], s),
        Cell::Adjugate => product(
            sign_term(i + j),
            determinant(minor(a, j, i, a.len() as int), (a.len() - 1) as nat),
        ),
    }
}

/// The grid whose entries are made by `cell`.
pub open spec fn cells(cell: Cell, a: Grid, b: Grid, s: Term, n: nat) -> Grid {
    Seq::new(n, |i: int| Seq::new(n, |j: int| cell_term(cell, a, b, s, i, j)))
}

/// The grid of zeros.
pub open spec fn zero_grid(n: nat) -> Grid {
    Seq::new(n, |i: int| Seq::new(n, |j: int| Term::integer(0)))
}

/// The grid with ones on the diagonal and zeros elsewhere.
pub open spec fn identity_grid(n: nat) -> Grid {
    Seq::new(
        n,
        |i: int|
            Seq::new(
                n,
                |j: int|
                    if i == j {
                        Term::integer(1)
                    } else {
                        Term::integer(0)
                    },
            ),
    )
}

/// The adjugate of a grid: the transposed grid of the cofactors, and the identity for
/// fewer than two rows.
pub open spec fn adjugate(g: Grid, n: nat) -> Grid {
    if n < 2 {
        identity_grid(n)
    } else {
        cells(Cell::Adjugate, g, g, Term::integer(0), n)
    }
}

/// The differentiation by `x`.
pub open spec fn diff_by(x: Var) -> spec_fn(Term) -> Result<Term, DiffError> {
    |t: Term| diff(t, x)
}

/// The simplification.
pub open spec fn simplified() -> spec_fn(Term) -> Result<Term, SimplifyError> {
    |t: Term| simplify(t)
}

/// The results of a transform on the entries of row `i`.
pub open spec fn row_results<E>(g: Grid, i: int, f: spec_fn(Term) -> Result<Term, E>) -> Seq<
    Result<Term, E>,
> {
    Seq::new(g[i].len(), |j: int| f(g[i][j]))
}

/// The transformed rows, each with the first error of its entries in place of the row.
pub open spec fn rows_results<E>(g: Grid, f: spec_fn(Term) -> Result<Term, E>) -> Seq<
    Result<Seq<Term>, E>,
> {
    Seq::new(g.len(), |i: int| collect(row_results(g, i, f)))
}

/// The grid with the transform applied to every entry, or the first error, reading row by
/// row.
pub open spec fn transformed<E>(g: Grid, f: spec_fn(Term) -> Result<Term, E>) -> Result<Grid, E> {
    collect(rows_results(g, f))
}

/// A square matrix of `N` by `N` expressions.
#[derive(Debug)]
pub struct SqMatrix<const N: usize> {
    rows: Vec<Vec<Expression>>,
}

impl<const N: usize> Clone for SqMatrix<N> {
    /// A copy of the matrix.
    fn clone(&self) -> (r: SqMatrix<N>)
        ensures
            r@ == self@,
    {
        let size = self.size();
        let r = Self::build(Cell::Copy, self, self, &Expression::from(0i64));
        proof {
            let got = cells(Cell::Copy, self@, self@, Term::integer(0), N as nat);
            assert forall|i: int| 0 <= i < N implies #[trigger] got[i] =~= self@[i] by {}
            assert(got =~= self@);
        }
        r
    }
}

impl<const N: usize> View for SqMatrix<N> {
    type V = Grid;

    closed spec fn view(&self) -> Grid {
        grid_terms(self.rows@)
    }
}

impl<const N: usize> SqMatrix<N> {
    #[verifier::type_invariant]
    spec fn shaped(self) -> bool {
        &&& self.rows@.len() == N
        &&& forall|i: int| 0 <= i < N ==> (#[trigger] self.rows@[i])@.len() == N
    }

    /// The matrix with the given rows, if there are `N` of them with `N` entries each.
    pub fn new(rows: Vec<Vec<Expression>>) -> (r: Option<Self>)
        ensures
            r.is_some() == is_square(grid_terms(rows@), N as nat),
            r matches Some(m) ==> m@ == grid_terms(rows@),
    {
        if rows.len() != N {
            return None;
        }
        let mut i: usize = 0;
        while i < N
            invariant
                i <= N,
                rows@.len() == N,
                forall|k: int| 0 <= k < i ==> (#[trigger] rows@[k])@.len() == N,
            decreases N - i,
        {
            if rows[i].len() != N {
                proof {
                    assert(grid_terms(rows@)[i as int].len() == rows@[i as int]@.len());
                }
                return None;
            }
            i += 1;
        }
        proof {
            assert forall|k: int| 0 <= k < N implies (#[trigger] grid_terms(rows@)[k]).len()
                == N by {
                assert(rows@[k]@.len() == N);
            }
        }
        Some(SqMatrix { rows })
    }

    /// The matrix is `N` by `N`.
    pub fn size(&self) -> (n: usize)
        ensures
            n == N,
            is_square(self@, N as nat),
    {
        proof {
            use_type_invariant(self);
            assert forall|i: int| 0 <= i < N implies (#[trigger] self@[i]).len() == N by {
                assert(self.rows@[i]@.len() == N);
            }
        }
        N
    }

    /// A copy of the entry at row `i` and column `j`.
    pub fn get(&self, i: usize, j: usize) -> (r: Expression)
        requires
            i < N,
            j < N,
        ensures
            r@ == self@[i as int][j as int],
    {
        proof {
            use_type_invariant(self);
            assert(self.rows@[i as int]@.len() == N);
        }
        self.rows[i][j].clone()
    }

    /// The entry made by `cell` at row `i` and column `j`.
    fn cell(cell: &Cell, a: &Self, b: &Self, s: &Expression, i: usize, j: usize) -> (r:
        Expression)
        requires
            i < N,
            j < N,
        ensures
            r@ == cell_term(*cell, a@, b@, s@, i as int, j as int),
    {
        let n = a.size();
        let m = b.size();
        match cell {
            Cell::Identity => if i == j {
                Expression::from(1i64)
            } else {
                Expression::from(0i64)
            },
            Cell::Copy => a.get(i, j),
            Cell::Transpose => a.get(j, i),
            Cell::Sum => a.get(i, j).add(b.get(i, j)),
            Cell::Difference => a.get(i, j).sub(b.get(i, j)),
            Cell::Product => {
                let mut total = Expression::from(0i64);
                let mut k: usize = 0;
                while k < N
                    invariant
                        k <= N,
                        i < N,
                        j < N,
                        is_square(a@, N as nat),
                        is_square(b@, N as nat),
                        total@ == dot(a@, b@, i as int, j as int, k as int),
                    decreases N - k,
                {
                    total = total.add(a.get(i, k).mul(b.get(k, j)));
                    k += 1;
                }
                total
            },
            Cell::Scaled => a.get(i, j).mul(s.clone()),
            Cell::Divided => a.get(i, j).div(s.clone()),
            Cell::Adjugate => {
                let sign = if i % 2 == j % 2 {
                    Expression::from(1i64)
                } else {
                    Expression::from(-1i64)
                };
                let part = a.minor(j, i, N);
                sign.mul(part.determinant(N - 1))
            },
        }
    }

    /// The matrix whose entries are made by `cell`.
    fn build(cell: Cell, a: &Self, b: &Self, s: &Expression) -> (r: Self)
        ensures
            r@ == cells(cell, a@, b@, s@, N as nat),
    {
        let mut rows: Vec<Vec<Expression>> = Vec::new();
        let ghost want = cells(cell, a@, b@, s@, N as nat);
        let mut i: usize = 0;
        while i < N
            invariant
                i <= N,
                want == cells(cell, a@, b@, s@, N as nat),
                rows@.len() == i,
                forall|k: int| 0 <= k < i ==> (#[trigger] rows@[k])@.len() == N,
                forall|k: int| 0 <= k < i ==> #[trigger] grid_terms(rows@)[k] == want[k],
            decreases N - i,
        {
            let mut row: Vec<Expression> = Vec::new();
            let mut j: usize = 0;
            while j < N
                invariant
                    j <= N,
                    i < N,
                    want == cells(cell, a@, b@, s@, N as nat),
                    row@.len() == j,
                    forall|k: int| 0 <= k < j ==> (#[trigger] row@[k])@ == want[i as int][k],
                decreases N - j,
            {
                let entry = Self::cell(&cell, a, b, s, i, j);
                row.push(entry);
                j += 1;
            }
            proof {
                assert(row_terms(row@) =~= want[i as int]);
                let grown = rows@.push(row);
                assert forall|k: int| 0 <= k <= i implies #[trigger] grid_terms(grown)[k]
                    == want[k] by {
                    if k < i {
                        assert(grid_terms(rows@)[k] == want[k]);
                        assert(grown[k] == rows@[k]);
                    }
                }
            }
            rows.push(row);
            i += 1;
        }
        proof {
            assert(grid_terms(rows@) =~= want);
        }
        SqMatrix { rows }
    }

    /// The matrix of zeros.
    pub fn zeroes() -> (r: Self)
        ensures
            r@ == zero_grid(N as nat),
    {
        let mut rows: Vec<Vec<Expression>> = Vec::new();
        let ghost want = zero_grid(N as nat);
        let mut i: usize = 0;
        while i < N
            invariant
                i <= N,
                want == zero_grid(N as nat),
                rows@.len() == i,
                forall|k: int| 0 <= k < i ==> (#[trigger] rows@[k])@.len() == N,
                forall|k: int| 0 <= k < i ==> #[trigger] grid_terms(rows@)[k] == want[k],
            decreases N - i,
        {
            let mut row: Vec<Expression> = Vec::new();
            let mut j: usize = 0;
            while j < N
                invariant
                    j <= N,
                    i < N,
                    row@.len() == j,
                    forall|k: int| 0 <= k < j ==> (#[trigger] row@[k])@ == Term::integer(0),
                decreases N - j,
            {
                row.push(Expression::from(0i64));
                j += 1;
            }
            proof {
                assert(row_terms(row@) =~= want[i as int]);
                let grown = rows@.push(row);
                assert forall|k: int| 0 <= k <= i implies #[trigger] grid_terms(grown)[k]
                    == want[k] by {
                    if k < i {
                        assert(grid_terms(rows@)[k] == want[k]);
                        assert(grown[k] == rows@[k]);
                    }
                }
            }
            rows.push(row);
            i += 1;
        }
        proof {
            assert(grid_terms(rows@) =~= want);
        }
        SqMatrix { rows }
    }

    /// The identity matrix.
    pub fn identity() -> (r: Self)
        ensures
            r@ == identity_grid(N as nat),
    {
        let z = Self::zeroes();
        let s = Expression::from(0i64);
        let r = Self::build(Cell::Identity, &z, &z, &s);
        proof {
            let got = cells(Cell::Identity, z@, z@, s@, N as nat);
            assert forall|i: int| 0 <= i < N implies #[trigger] got[i] =~= identity_grid(
                N as nat,
            )[i] by {}
            assert(got =~= identity_grid(N as nat));
        }
        r
    }

    /// The trace: the sum of the diagonal.
    pub fn tr(&self) -> (r: Expression)
        ensures
            r@ == trace(self@, N as int),
    {
        let mut total = Expression::from(0i64);
        let mut i: usize = 0;
        while i < N
            invariant
                i <= N,
                total@ == trace(self@, i as int),
            decreases N - i,
        {
            total = total.add(self.get(i, i));
            i += 1;
        }
        total
    }

    /// The transposed matrix.
    pub fn transpose(&self) -> (r: Self)
        ensures
            r@ == cells(Cell::Transpose, self@, self@, Term::integer(0), N as nat),
    {
        Self::build(Cell::Transpose, self, self, &Expression::from(0i64))
    }

    /// The matrix without row `p` and column `q` of its upper left `n` by `n` part.
    pub fn minor(&self, p: usize, q: usize, n: usize) -> (r: Self)
        requires
            n <= N,
        ensures
            r@ == minor(self@, p as int, q as int, n as int),
    {
        let size = self.size();
        let mut rows: Vec<Vec<Expression>> = Vec::new();
        let ghost want = minor(self@, p as int, q as int, n as int);
        let mut i: usize = 0;
        while i < N
            invariant
                i <= N,
                n <= N,
                is_square(self@, N as nat),
                want == minor(self@, p as int, q as int, n as int),
                rows@.len() == i,
                forall|k: int| 0 <= k < i ==> (#[trigger] rows@[k])@.len() == N,
                forall|k: int| 0 <= k < i ==> #[trigger] grid_terms(rows@)[k] == want[k],
            decreases N - i,
        {
            let mut row: Vec<Expression> = Vec::new();
            let mut j: usize = 0;
            while j < N
                invariant
                    j <= N,
                    i < N,
                    n <= N,
                    is_square(self@, N as nat),
                    want == minor(self@, p as int, q as int, n as int),
                    row@.len() == j,
                    forall|k: int| 0 <= k < j ==> (#[trigger] row@[k])@ == want[i as int][k],
                decreases N - j,
            {
                let entry = if n > 0 && i < n - 1 && j < n - 1 {
                    let from_row = if i < p {
                        i
                    } else {
                        i + 1
                    };
                    let from_column = if j < q {
                        j
                    } else {
                        j + 1
                    };
                    self.get(from_row, from_column)
                } else {
                    Expression::from(0i64)
                };
                row.push(entry);
                j += 1;
            }
            proof {
                assert(row_terms(row@) =~= want[i as int]);
                let grown = rows@.push(row);
                assert forall|k: int| 0 <= k <= i implies #[trigger] grid_terms(grown)[k]
                    == want[k] by {
                    if k < i {
                        assert(grid_terms(rows@)[k] == want[k]);
                        assert(grown[k] == rows@[k]);
                    }
                }
            }
            rows.push(row);
            i += 1;
        }
        proof {
            assert(grid_terms(rows@) =~= want);
        }
        SqMatrix { rows }
    }

    /// The determinant of the upper left `n` by `n` part.
    pub fn determinant(&self, n: usize) -> (r: Expression)
        requires
            n <= N,
        ensures
            r@ == determinant(self@, n as nat),
        decreases n,
    {
        let size = self.size();
        if n == 0 {
            return Expression::from(0i64);
        }
        if n == 1 {
            return self.get(0, 0);
        }
        let mut det = Expression::from(0i64);
        let mut i: usize = 0;
        while i < n
            invariant
                i <= n,
                2 <= n <= N,
                is_square(self@, N as nat),
                det@ == expansion(self@, n as nat, i as int),
            decreases n - i,
        {
            let part = self.minor(0, i, n);
            let sign = if i % 2 == 0 {
                Expression::from(1i64)
            } else {
                Expression::from(-1i64)
            };
            det = det.add(sign.mul(self.get(0, i)).mul(part.determinant(n - 1)));
            i += 1;
        }
        det
    }

    /// The determinant.
    pub fn det(&self) -> (r: Expression)
        ensures
            r@ == determinant(self@, N as nat),
    {
        self.determinant(N)
    }

    /// The adjugate: the transposed matrix of the cofactors. For fewer than two rows it is
    /// the identity.
    pub fn adj(&self) -> (r: Self)
        ensures
            r@ == adjugate(self@, N as nat),
    {
        if N < 2 {
            Self::identity()
        } else {
            Self::build(Cell::Adjugate, self, self, &Expression::from(0i64))
        }
    }

    /// The matrix of the cofactors: the transposed adjugate.
    pub fn cofactor(&self) -> (r: Self)
        ensures
            r@ == cells(
                Cell::Transpose,
                adjugate(self@, N as nat),
                adjugate(self@, N as nat),
                Term::integer(0),
                N as nat,
            ),
    {
        self.adj().transpose()
    }

    /// The inverse: the adjugate over the determinant.
    pub fn inv(&self) -> (r: Self)
        ensures
            r@ == cells(
                Cell::Divided,
                adjugate(self@, N as nat),
                adjugate(self@, N as nat),
                determinant(self@, N as nat),
                N as nat,
            ),
    {
        self.adj() / self.det()
    }

    /// The matrix raised to the power `n`, which is at least one: the matrix multiplied
    /// `n - 1` times by itself, from the left.
    pub fn pow(&self, n: usize) -> (r: Self)
        requires
            n >= 1,
        ensures
            r@ == matrix_power(self@, n as int, N as nat),
    {
        let mut acc = self.clone();
        let mut k: usize = 1;
        while k < n
            invariant
                1 <= k <= n,
                acc@ == matrix_power(self@, k as int, N as nat),
            decreases n - k,
        {
            acc = acc * self.clone();
            k += 1;
        }
        acc
    }

    /// The derivative of every entry by `x`, or the first failure, reading row by row.
    pub fn diff(&self, x: Var) -> (r: Result<Self, DiffError>)
        ensures
            match r {
                Ok(m) => transformed(self@, diff_by(x)) == Ok::<Grid, DiffError>(m@),
                Err(e) => transformed(self@, diff_by(x)) == Err::<Grid, DiffError>(e),
            },
    {
        let size = self.size();
        let ghost f = diff_by(x);
        let ghost all = rows_results(self@, f);
        let mut rows: Vec<Vec<Expression>> = Vec::new();
        let mut i: usize = 0;
        proof {
            assert(all.take(0) =~= Seq::empty());
            assert(grid_terms(rows@) =~= Seq::<Seq<Term>>::empty());
        }
        while i < N
            invariant
                i <= N,
                is_square(self@, N as nat),
                f == diff_by(x),
                all == rows_results(self@, f),
                rows@.len() == i,
                forall|k: int| 0 <= k < i ==> (#[trigger] rows@[k])@.len() == N,
                collect(all.take(i as int)) == Ok::<Grid, DiffError>(grid_terms(rows@)),
            decreases N - i,
        {
            let ghost line = row_results(self@, i as int, f);
            let mut row: Vec<Expression> = Vec::new();
            let mut j: usize = 0;
            proof {
                assert(line.take(0) =~= Seq::empty());
                assert(row_terms(row@) =~= Seq::<Term>::empty());
                assert(all.take(i + 1).drop_last() =~= all.take(i as int));
                assert(all.take(i + 1).last() == collect(line));
            }
            while j < N
                invariant
                    j <= N,
                    i < N,
                    is_square(self@, N as nat),
                    f == diff_by(x),
                    all == rows_results(self@, f),
                    line == row_results(self@, i as int, f),
                    row@.len() == j,
                    collect(all.take(i as int)) is Ok,
                    all.take(i + 1).drop_last() == all.take(i as int),
                    all.take(i + 1).last() == collect(line),
                    collect(line.take(j as int)) == Ok::<Seq<Term>, DiffError>(row_terms(row@)),
                decreases N - j,
            {
                proof {
                    assert(line.take(j + 1).drop_last() =~= line.take(j as int));
                    assert(line.take(j + 1).last() == diff(self@[i as int][j as int], x));
                }
                match self.get(i, j).diff(x) {
                    Err(e) => {
                        proof {
                            lemma_collect_error(line, j + 1);
                            lemma_collect_error(all, i + 1);
                        }
                        return Err(e);
                    },
                    Ok(d) => {
                        proof {
                            assert(row_terms(row@.push(d)) =~= row_terms(row@).push(d@));
                        }
                        row.push(d);
                    },
                }
                j += 1;
            }
            proof {
                assert(line.take(j as int) =~= line);
                assert(grid_terms(rows@.push(row)) =~= grid_terms(rows@).push(row_terms(row@)));
            }
            rows.push(row);
            i += 1;
        }
        proof {
            assert(all.take(i as int) =~= all);
        }
        Ok(SqMatrix { rows })
    }

    /// Every entry after one pass of simplification, or the first failure, reading row by
    /// row.
    pub fn simplify(&self) -> (r: Result<Self, SimplifyError>)
        ensures
            match r {
                Ok(m) => transformed(self@, simplified()) == Ok::<Grid, SimplifyError>(m@),
                Err(e) => transformed(self@, simplified()) == Err::<Grid, SimplifyError>(e),
            },
    {
        let size = self.size();
        let ghost f = simplified();
        let ghost all = rows_results(self@, f);
        let mut rows: Vec<Vec<Expression>> = Vec::new();
        let mut i: usize = 0;
        proof {
            assert(all.take(0) =~= Seq::empty());
            assert(grid_terms(rows@) =~= Seq::<Seq<Term>>::empty());
        }
        while i < N
            invariant
                i <= N,
                is_square(self@, N as nat),
                f == simplified(),
                all == rows_results(self@, f),
                rows@.len() == i,
                forall|k: int| 0 <= k < i ==> (#[trigger] rows@[k])@.len() == N,
                collect(all.take(i as int)) == Ok::<Grid, SimplifyError>(grid_terms(rows@)),
            decreases N - i,
        {
            let ghost line = row_results(self@, i as int, f);
            let mut row: Vec<Expression> = Vec::new();
            let mut j: usize = 0;
            proof {
                assert(line.take(0) =~= Seq::empty());
                assert(row_terms(row@) =~= Seq::<Term>::empty());
                assert(all.take(i + 1).drop_last() =~= all.take(i as int));
                assert(all.take(i + 1).last() == collect(line));
            }
            while j < N
                invariant
                    j <= N,
                    i < N,
                    is_square(self@, N as nat),
                    f == simplified(),
                    all == rows_results(self@, f),
                    line == row_results(self@, i as int, f),
                    row@.len() == j,
                    collect(all.take(i as int)) is Ok,
                    all.take(i + 1).drop_last() == all.take(i as int),
                    all.take(i + 1).last() == collect(line),
                    collect(line.take(j as int)) == Ok::<Seq<Term>, SimplifyError>(
                        row_terms(row@),
                    ),
                decreases N - j,
            {
                proof {
                    assert(line.take(j + 1).drop_last() =~= line.take(j as int));
                    assert(line.take(j + 1).last() == simplify(self@[i as int][j as int]));
                }
                match self.get(i, j).simplify() {
                    Err(e) => {
                        proof {
                            lemma_collect_error(line, j + 1);
                            lemma_collect_error(all, i + 1);
                        }
                        return Err(e);
                    },
                    Ok(d) => {
                        proof {
                            assert(row_terms(row@.push(d)) =~= row_terms(row@).push(d@));
                        }
                        row.push(d);
                    },
                }
                j += 1;
            }
            proof {
                assert(line.take(j as int) =~= line);
                assert(grid_terms(rows@.push(row)) =~= grid_terms(rows@).push(row_terms(row@)));
            }
            rows.push(row);
            i += 1;
        }
        proof {
            assert(all.take(i as int) =~= all);
        }
        Ok(SqMatrix { rows })
    }
}

/// The grid multiplied `n - 1` times by itself, from the left.
pub open spec fn matrix_power(g: Grid, n: int, size: nat) -> Grid
    decreases n,
{
    if n <= 1 {
        g
    } else {
        cells(Cell::Product, matrix_power(g, n - 1, size), g, Term::integer(0), size)
    }
}

impl<const N: usize> Add<SqMatrix<N>> for SqMatrix<N> {
    type Output = SqMatrix<N>;

    /// The sum of the matrices, entry by entry.
    fn add(self, rhs: SqMatrix<N>) -> (r: SqMatrix<N>)
        ensures
            r@ == cells(Cell::Sum, self@, rhs@, Term::integer(0), N as nat),
    {
        SqMatrix::build(Cell::Sum, &self, &rhs, &Expression::from(0i64))
    }
}

impl<const N: usize> AddSpecImpl<SqMatrix<N>> for SqMatrix<N> {
    open spec fn obeys_add_spec() -> bool {
        false
    }

    open spec fn add_req(self, rhs: SqMatrix<N>) -> bool {
        true
    }

    open spec fn add_spec(self, rhs: SqMatrix<N>) -> SqMatrix<N> {
        self
    }
}

impl<const N: usize> Sub<SqMatrix<N>> for SqMatrix<N> {
    type Output = SqMatrix<N>;

    /// The matrix less `rhs`, entry by entry.
    fn sub(self, rhs: SqMatrix<N>) -> (r: SqMatrix<N>)
        ensures
            r@ == cells(Cell::Difference, self@, rhs@, Term::integer(0), N as nat),
    {
        SqMatrix::build(Cell::Difference, &self, &rhs, &Expression::from(0i64))
    }
}

impl<const N: usize> SubSpecImpl<SqMatrix<N>> for SqMatrix<N> {
    open spec fn obeys_sub_spec() -> bool {
        false
    }

    open spec fn sub_req(self, rhs: SqMatrix<N>) -> bool {
        true
    }

    open spec fn sub_spec(self, rhs: SqMatrix<N>) -> SqMatrix<N> {
        self
    }
}

impl<const N: usize> Mul<SqMatrix<N>> for SqMatrix<N> {
    type Output = SqMatrix<N>;

    /// The matrix product.
    fn mul(self, rhs: SqMatrix<N>) -> (r: SqMatrix<N>)
        ensures
            r@ == cells(Cell::Product, self@, rhs@, Term::integer(0), N as nat),
    {
        SqMatrix::build(Cell::Product, &self, &rhs, &Expression::from(0i64))
    }
}

impl<const N: usize> MulSpecImpl<SqMatrix<N>> for SqMatrix<N> {
    open spec fn obeys_mul_spec() -> bool {
        false
    }

    open spec fn mul_req(self, rhs: SqMatrix<N>) -> bool {
        true
    }

    open spec fn mul_spec(self, rhs: SqMatrix<N>) -> SqMatrix<N> {
        self
    }
}

impl<const N: usize> Mul<Expression> for SqMatrix<N> {
    type Output = SqMatrix<N>;

    /// Every entry times `rhs`.
    fn mul(self, rhs: Expression) -> (r: SqMatrix<N>)
        ensures
            r@ == cells(Cell::Scaled, self@, self@, rhs@, N as nat),
    {
        SqMatrix::build(Cell::Scaled, &self, &self, &rhs)
    }
}

impl<const N: usize> MulSpecImpl<Expression> for SqMatrix<N> {
    open spec fn obeys_mul_spec() -> bool {
        false
    }

    open spec fn mul_req(self, rhs: Expression) -> bool {
        true
    }

    open spec fn mul_spec(self, rhs: Expression) -> SqMatrix<N> {
        self
    }
}

impl<const N: usize> Div<Expression> for SqMatrix<N> {
    type Output = SqMatrix<N>;

    /// Every entry over `rhs`.
    fn div(self, rhs: Expression) -> (r: SqMatrix<N>)
        ensures
            r@ == cells(Cell::Divided, self@, self@, rhs@, N as nat),
    {
        SqMatrix::build(Cell::Divided, &self, &self, &rhs)
    }
}

impl<const N: usize> DivSpecImpl<Expression> for SqMatrix<N> {
    open spec fn obeys_div_spec() -> bool {
        false
    }

    open spec fn div_req(self, rhs: Expression) -> bool {
        true
    }

    open spec fn div_spec(self, rhs: Expression) -> SqMatrix<N> {
        self
    }
}

} // verus!
