//! Symbolic differentiation.
//!
//! The derivative is defined on terms by [`diff`], one rule for each kind of node;
//! [`Expressand::diff`] carries it out on trees.

use crate::expression::simplify::{collapse, collect, lemma_collect_error, simplify};
use crate::expression::{
    lemma_views_ends, lemma_views_push, lemma_views_take, views, ExprKind, Expressand, Function,
    Var,
};
use crate::term::Term;
use crate::tree::{child_of, done_of, NodeId};
use vstd::prelude::*;

verus! {

/// Why an expression could not be differentiated.
#[derive(Clone, Copy, Debug, PartialEq, Eq, Structural)]
pub enum DiffError {
    /// A power has an exponent whose derivative does not simplify to the constant zero;
    /// differentiating it would take logarithmic differentiation, which is not done.
    NonConstantExponent,
}

/// The terms that are not the constant zero, in order.
pub open spec fn nonzero(ts: Seq<Term>) -> Seq<Term> {
    ts.filter(|t: Term| !t.is_zero())
}

/// The terms of the product rule for the first `n` factors: for each factor whose
/// derivative is not the constant zero, the product of that derivative with all the other
/// factors.
pub open spec fn product_terms(factors: Seq<Term>, ds: Seq<Term>, n: int) -> Seq<Term>
    decreases n,
{
    if n <= 0 {
        Seq::empty()
    } else {
        product_terms(factors, ds, n - 1) + (if ds[n - 1].is_zero() {
            Seq::empty()
        } else {
            seq![Term { kind: ExprKind::Mul, args: seq![ds[n - 1]] + factors.remove(n - 1) }]
        })
    }
}

/// The derivative of the function `f` at `args`, before the chain rule.
pub open spec fn outer_derivative(f: Function, args: Seq<Term>) -> Term {
    match f {
        Function::Sin => Term { kind: ExprKind::Func(Function::Cos), args },
        Function::Cos => Term {
            kind: ExprKind::Mul,
            args: seq![Term::minus_one(), Term { kind: ExprKind::Func(Function::Sin), args }],
        },
    }
}

/// The product of two terms.
pub open spec fn times(a: Term, b: Term) -> Term {
    Term { kind: ExprKind::Mul, args: seq![a, b] }
}

/// The power rule: `e · b^(e + -1) · db`.
pub open spec fn power_derivative(b: Term, e: Term, db: Term) -> Term {
    Term {
        kind: ExprKind::Mul,
        args: seq![
            e,
            Term {
                kind: ExprKind::Pow,
                args: seq![
                    b,
                    Term { kind: ExprKind::Add, args: seq![e, Term::minus_one()] },
                ],
            },
            db,
        ],
    }
}

/// The term is known to be constant: it simplifies to the constant zero.
pub open spec fn vanishes(d: Term) -> bool {
    simplify(d) matches Ok(z) && z.is_zero()
}

/// The derivatives of the operands of a term.
pub open spec fn diff_all(t: Term, x: Var) -> Seq<Result<Term, DiffError>>
    decreases t, 0int,
{
    Seq::new(
        t.args.len(),
        |i: int|
            if 0 <= i < t.args.len() {
                diff(t.args[i], x)
            } else {
                Ok(t)
            },
    )
}

/// The partial derivative of `t` by `x`.
///
/// A sum gives the sum of the derivatives of its operands, those that are the constant
/// zero left out; a product the sum over its factors of the derivative of one factor
/// times the others, again without the zeros; where nothing is left the derivative is the
/// constant zero, and a single term stands for itself. A power is differentiated by the
/// power rule where the derivative of its exponent vanishes, and not at all elsewhere. The
/// exponential, the logarithm and the functions follow the chain rule.
pub open spec fn diff(t: Term, x: Var) -> Result<Term, DiffError>
    decreases t, 1int,
{
    let ds = diff_all(t, x);
    match t.kind {
        ExprKind::Const(_) => Ok(Term::integer(0)),
        ExprKind::Var(v) => if v == x {
            Ok(Term::integer(1))
        } else {
            Ok(Term::integer(0))
        },
        ExprKind::Root | ExprKind::Add => match collect(ds) {
            Err(e) => Err(e),
            Ok(dl) => Ok(collapse(ExprKind::Add, nonzero(dl))),
        },
        ExprKind::Mul => match collect(ds) {
            Err(e) => Err(e),
            Ok(dl) => Ok(collapse(ExprKind::Add, product_terms(t.args, dl, dl.len() as int))),
        },
        ExprKind::Pow => match collect(ds) {
            Err(e) => Err(e),
            Ok(dl) => if dl.len() == 2 {
                if vanishes(dl[1]) {
                    Ok(power_derivative(t.args[0], t.args[1], dl[0]))
                } else {
                    Err(DiffError::NonConstantExponent)
                }
            } else {
                Ok(t)
            },
        },
        ExprKind::Exp => match collect(ds) {
            Err(e) => Err(e),
            Ok(dl) => if dl.len() == 1 {
                Ok(times(t, dl[0]))
            } else {
                Ok(t)
            },
        },
        ExprKind::Ln => match collect(ds) {
            Err(e) => Err(e),
            Ok(dl) => if dl.len() == 1 {
                Ok(
                    times(
                        dl[0],
                        Term { kind: ExprKind::Pow, args: seq![t.args[0], Term::minus_one()] },
                    ),
                )
            } else {
                Ok(t)
            },
        },
        ExprKind::Func(f) => match collect(ds) {
            Err(e) => Err(e),
            Ok(dl) => if dl.len() == 1 {
                Ok(times(outer_derivative(f, t.args), dl[0]))
            } else {
                Ok(t)
            },
        },
    }
}

/// The result of a differentiation, read as a term.
pub open spec fn result_term(r: Result<Expressand, DiffError>) -> Result<Term, DiffError> {
    match r {
        Ok(e) => Ok(e@),
        Err(x) => Err(x),
    }
}

/// What one more term adds to the terms that are not zero.
proof fn lemma_nonzero_push(ts: Seq<Term>, t: Term)
    ensures
        nonzero(ts.push(t)) == if t.is_zero() {
            nonzero(ts)
        } else {
            nonzero(ts).push(t)
        },
        nonzero(Seq::empty()) == Seq::<Term>::empty(),
{
    reveal(Seq::filter);
    assert(ts.push(t).drop_last() =~= ts);
}

/// The terms of the product rule look at the first `n` derivatives only.
proof fn lemma_product_terms_prefix(factors: Seq<Term>, ds: Seq<Term>, n: int, m: int)
    requires
        0 <= n <= m <= ds.len(),
    ensures
        product_terms(factors, ds.take(m), n) == product_terms(factors, ds, n),
    decreases n,
{
    if n > 0 {
        lemma_product_terms_prefix(factors, ds, n - 1, m);
    }
}

impl Function {
    /// The derivative of the function at `args`, before the chain rule: the cosine for
    /// the sine, minus the sine for the cosine.
    pub fn diff(&self, args: Vec<Expressand>) -> (r: Expressand)
        requires
            args@.len() == self.arity(),
        ensures
            r@ == outer_derivative(*self, views(args@)),
    {
        match self {
            Function::Sin => Expressand::compose(ExprKind::Func(Function::Cos), args),
            Function::Cos => {
                let sine = Expressand::compose(ExprKind::Func(Function::Sin), args);
                pair(ExprKind::Mul, Expressand::integer(-1), sine)
            },
        }
    }
}

/// The node of the given kind over two operands.
fn pair(kind: ExprKind, a: Expressand, b: Expressand) -> (r: Expressand)
    requires
        kind == ExprKind::Add || kind == ExprKind::Mul || kind == ExprKind::Pow,
    ensures
        r@ == (Term { kind, args: seq![a@, b@] }),
{
    let mut parts: Vec<Expressand> = Vec::new();
    parts.push(a);
    parts.push(b);
    proof {
        assert(views(parts@) =~= seq![a@, b@]);
    }
    Expressand::compose(kind, parts)
}

/// Copies of all operands of the node `id` but the one at `skip`.
fn other_operands(source: &Expressand, id: NodeId, skip: usize) -> (r: Vec<Expressand>)
    requires
        id.0 < source.spec_tree().spec_len(),
        source.spec_tree().term_at(id).well_formed(),
        skip < source.spec_tree().term_at(id).args.len(),
    ensures
        views(r@) == source.spec_tree().term_at(id).args.remove(skip as int),
{
    let tree = source.tree();
    let children = tree.node(id).children();
    let ghost args = tree.term_at(id).args;
    proof {
        tree.lemma_term_at(id);
    }
    let mut out: Vec<Expressand> = Vec::new();
    let mut j: usize = 0;
    proof {
        lemma_views_ends(out@);
    }
    while j < children.len()
        invariant
            j <= children@.len(),
            skip < children@.len(),
            id.0 < source.spec_tree().spec_len(),
            tree == source.spec_tree(),
            tree.wf(),
            tree.term_at(id).well_formed(),
            args == tree.term_at(id).args,
            children@ == tree.nodes()[id.0 as int].children,
            args == done_of(tree.nodes(), id.0 as int, children@.len() as int),
            forall|w: int|
                0 <= w < children@.len() ==> id.0 < (#[trigger] children@[w]).0 < tree.spec_len(),
            views(out@) == if j <= skip {
                args.take(j as int)
            } else {
                args.take(skip as int) + args.subrange(skip + 1, j as int)
            },
        decreases children@.len() - j,
    {
        if j != skip {
            proof {
                assert(child_of(tree.nodes(), id.0 as int, j as int) == children@[j as int].0);
                assert(args[j as int] == tree.term_at(children@[j as int]));
            }
            let copy = source.subterm(children[j]);
            proof {
                lemma_views_push(out@, copy);
                if j < skip {
                    assert(args.take(j as int).push(args[j as int]) =~= args.take(j + 1));
                } else {
                    assert((args.take(skip as int) + args.subrange(skip + 1, j as int)).push(
                        args[j as int],
                    ) =~= args.take(skip as int) + args.subrange(skip + 1, j + 1));
                }
            }
            out.push(copy);
        } else {
            proof {
                assert(args.take(skip as int) + args.subrange(skip + 1, skip + 1) =~= args.take(
                    j as int,
                ));
            }
        }
        j += 1;
    }
    proof {
        assert(args.take(skip as int) + args.subrange(skip + 1, args.len() as int)
            =~= args.remove(skip as int));
    }
    out
}

/// Differentiates the subexpression at the node `id`.
fn diff_rec(source: &Expressand, id: NodeId, x: Var) -> (r: Result<Expressand, DiffError>)
    requires
        id.0 < source.spec_tree().spec_len(),
        source.spec_tree().term_at(id).well_formed(),
    ensures
        result_term(r) == diff(source.spec_tree().term_at(id), x),
    decreases source.spec_tree().spec_len() - id.0,
{
    let tree = source.tree();
    let node = tree.node(id);
    let kind = node.kind();
    let children = node.children();
    let ghost term = tree.term_at(id);
    let ghost rs = diff_all(term, x);
    proof {
        tree.lemma_term_at(id);
    }
    match kind {
        ExprKind::Const(_) => {
            return Ok(Expressand::integer(0));
        },
        ExprKind::Var(v) => {
            return Ok(
                if v.id == x.id {
                    Expressand::integer(1)
                } else {
                    Expressand::integer(0)
                },
            );
        },
        _ => {},
    }
    let mut ds: Vec<Expressand> = Vec::new();
    let mut k: usize = 0;
    proof {
        assert(rs.take(0) =~= Seq::empty());
        lemma_views_ends(ds@);
    }
    while k < children.len()
        invariant
            k <= children@.len(),
            ds@.len() == k,
            id.0 < source.spec_tree().spec_len(),
            tree == source.spec_tree(),
            tree.wf(),
            term == tree.term_at(id),
            term.well_formed(),
            rs == diff_all(term, x),
            children@ == tree.nodes()[id.0 as int].children,
            term.args == done_of(tree.nodes(), id.0 as int, children@.len() as int),
            forall|w: int|
                0 <= w < children@.len() ==> id.0 < (#[trigger] children@[w]).0 < tree.spec_len(),
            collect(rs.take(k as int)) == Ok::<Seq<Term>, DiffError>(views(ds@)),
        decreases children@.len() - k,
    {
        proof {
            assert(child_of(tree.nodes(), id.0 as int, k as int) == children@[k as int].0);
            assert(term.args[k as int] == tree.term_at(children@[k as int]));
            assert(rs.take(k + 1).drop_last() =~= rs.take(k as int));
            assert(rs.take(k + 1).last() == diff(term.args[k as int], x));
        }
        match diff_rec(source, children[k], x) {
            Err(e) => {
                proof {
                    lemma_collect_error(rs, k + 1);
                }
                return Err(e);
            },
            Ok(d) => {
                proof {
                    lemma_views_push(ds@, d);
                }
                ds.push(d);
            },
        }
        k += 1;
    }
    proof {
        assert(rs.take(k as int) =~= rs);
    }
    let ghost dl = views(ds@);
    match kind {
        ExprKind::Mul => {
            let mut terms: Vec<Expressand> = Vec::new();
            proof {
                lemma_views_ends(terms@);
            }
            let ghost all = ds@;
            let count = ds.len();
            let mut i: usize = 0;
            for d in it: ds
                invariant
                    it.seq() == all,
                    i == it.index(),
                    all.len() == count,
                    dl == views(all),
                    all.len() == term.args.len(),
                    id.0 < source.spec_tree().spec_len(),
                    term == source.spec_tree().term_at(id),
                    term.well_formed(),
                    views(terms@) == product_terms(term.args, dl, it.index() as int),
            {
                proof {
                    assert(dl[it.index() as int] == d@);
                }
                if !d.is_zero() {
                    let mut factors: Vec<Expressand> = Vec::new();
                    factors.push(d);
                    let mut rest = other_operands(source, id, i);
                    proof {
                        crate::expression::lemma_views_add(factors@, rest@);
                        assert(views(factors@) =~= seq![d@]);
                    }
                    factors.append(&mut rest);
                    let product = Expressand::compose(ExprKind::Mul, factors);
                    proof {
                        lemma_views_push(terms@, product);
                        assert(views(terms@).push(product@) =~= views(terms@) + seq![product@]);
                    }
                    terms.push(product);
                } else {
                    proof {
                        assert(views(terms@) + Seq::<Term>::empty() =~= views(terms@));
                    }
                }
                i += 1;
            }
            Ok(sum_or_zero(terms))
        },
        ExprKind::Pow => {
            let de = ds.pop().unwrap();
            let db = ds.pop().unwrap();
            proof {
                assert(dl[1] == de@ && dl[0] == db@);
                assert(child_of(tree.nodes(), id.0 as int, 0) == children@[0].0);
                assert(child_of(tree.nodes(), id.0 as int, 1) == children@[1].0);
            }
            let constant = match de.simplify() {
                Ok(z) => z.is_zero(),
                Err(_) => false,
            };
            if !constant {
                return Err(DiffError::NonConstantExponent);
            }
            let b = source.subterm(children[0]);
            let e = source.subterm(children[1]);
            let lowered = pair(ExprKind::Add, e.clone(), Expressand::integer(-1));
            let power = pair(ExprKind::Pow, b, lowered);
            let mut factors: Vec<Expressand> = Vec::new();
            factors.push(e);
            factors.push(power);
            factors.push(db);
            proof {
                assert(views(factors@) =~= seq![e@, power@, db@]);
            }
            Ok(Expressand::compose(ExprKind::Mul, factors))
        },
        ExprKind::Exp => {
            let du = ds.pop().unwrap();
            proof {
                assert(dl[0] == du@);
            }
            Ok(pair(ExprKind::Mul, source.subterm(id), du))
        },
        ExprKind::Ln => {
            let du = ds.pop().unwrap();
            proof {
                assert(dl[0] == du@);
                assert(child_of(tree.nodes(), id.0 as int, 0) == children@[0].0);
            }
            let u = source.subterm(children[0]);
            let inverse = pair(ExprKind::Pow, u, Expressand::integer(-1));
            Ok(pair(ExprKind::Mul, du, inverse))
        },
        ExprKind::Func(f) => {
            let du = ds.pop().unwrap();
            proof {
                assert(dl[0] == du@);
            }
            let outer = f.diff(source.subterm(id).operands());
            Ok(pair(ExprKind::Mul, outer, du))
        },
        _ => {
            let mut kept: Vec<Expressand> = Vec::new();
            proof {
                lemma_views_ends(kept@);
                lemma_nonzero_push(Seq::empty(), Term::integer(0));
                lemma_views_ends(ds@);
            }
            let ghost all = ds@;
            for d in it: ds
                invariant
                    it.seq() == all,
                    views(kept@) == nonzero(views(all.take(it.index() as int))),
            {
                proof {
                    lemma_views_take(all, it.index() as int);
                    lemma_nonzero_push(views(all.take(it.index() as int)), d@);
                }
                if !d.is_zero() {
                    proof {
                        lemma_views_push(kept@, d);
                    }
                    kept.push(d);
                }
            }
            proof {
                lemma_views_ends(all);
            }
            Ok(sum_or_zero(kept))
        },
    }
}

/// The sum of the terms: the constant zero for none, the term itself for one.
fn sum_or_zero(terms: Vec<Expressand>) -> (r: Expressand)
    ensures
        r@ == collapse(ExprKind::Add, views(terms@)),
{
    let mut terms = terms;
    if terms.len() == 0 {
        Expressand::integer(0)
    } else if terms.len() == 1 {
        let ghost before = terms@;
        let only = terms.pop().unwrap();
        proof {
            assert(views(before)[0] == only@);
        }
        only
    } else {
        Expressand::compose(ExprKind::Add, terms)
    }
}

impl Expressand {
    /// The partial derivative by `x`: a new expression, or the reason why there is none.
    pub fn diff(&self, x: Var) -> (r: Result<Expressand, DiffError>)
        ensures
            result_term(r) == diff(self@, x),
    {
        let top = self.top();
        let tree = self.tree();
        diff_rec(self, top, x)
    }
}

} // verus!
