//! One bottom-up pass of algebraic simplification.
//!
//! The pass is defined on terms by [`simplify`]: the operands of a node are simplified
//! first, then the rule of the node's kind is applied once. [`Expressand::simplify`]
//! carries it out on trees.

use crate::expression::{
    lemma_views_add, lemma_views_ends, lemma_views_push, lemma_views_take, views, ExprKind, Expressand,
};
use crate::scalar::Scalar;
use crate::term::Term;
use crate::tree::{child_of, done_of, NodeId};
use vstd::prelude::*;

verus! {

/// Why an expression could not be simplified.
#[derive(Clone, Copy, Debug, PartialEq, Eq, Structural)]
pub enum SimplifyError {
    /// Zero was raised to a constant power whose real part is not positive.
    Indeterminate,
    /// A folded constant cannot be held exactly.
    Overflow,
}

/// The values of a sequence of results, or the first error among them.
pub open spec fn collect<T, E>(rs: Seq<Result<T, E>>) -> Result<Seq<T>, E>
    decreases rs.len(),
{
    if rs.len() == 0 {
        Ok(Seq::empty())
    } else {
        match collect(rs.drop_last()) {
            Err(e) => Err(e),
            Ok(ts) => match rs.last() {
                Err(e) => Err(e),
                Ok(t) => Ok(ts.push(t)),
            },
        }
    }
}

/// The factors of a product, read from the left: the first error ends the reading, and so
/// does the first factor that is the constant zero, which leaves no factors at all.
pub open spec fn collect_factors(rs: Seq<Result<Term, SimplifyError>>) -> Result<
    Option<Seq<Term>>,
    SimplifyError,
>
    decreases rs.len(),
{
    if rs.len() == 0 {
        Ok(Some(Seq::empty()))
    } else {
        match collect_factors(rs.drop_last()) {
            Err(e) => Err(e),
            Ok(None) => Ok(None),
            Ok(Some(ts)) => match rs.last() {
                Err(e) => Err(e),
                Ok(t) => if t.is_zero() {
                    Ok(None)
                } else {
                    Ok(Some(ts.push(t)))
                },
            },
        }
    }
}

/// The operands with each operand of kind `kind` replaced by its own operands.
pub open spec fn flatten(ts: Seq<Term>, kind: ExprKind) -> Seq<Term>
    decreases ts.len(),
{
    if ts.len() == 0 {
        Seq::empty()
    } else {
        flatten(ts.drop_last(), kind) + (if ts.last().kind == kind {
            ts.last().args
        } else {
            seq![ts.last()]
        })
    }
}

/// The term is a constant.
pub open spec fn is_constant(t: Term) -> bool {
    t.kind is Const
}

/// The terms that are not constants, in order.
pub open spec fn without_constants(ts: Seq<Term>) -> Seq<Term> {
    ts.filter(|t: Term| !is_constant(t))
}

/// The neutral element of the operation of `kind`: zero for a sum, one for a product.
pub open spec fn unit(kind: ExprKind) -> Scalar {
    if kind == ExprKind::Add {
        Scalar { re: 0, im: 0, den: 1 }
    } else {
        Scalar { re: 1, im: 0, den: 1 }
    }
}

/// The constants among the terms, folded from the left with the operation of `kind`
/// (the sum for `Add`, the product otherwise), starting from its neutral element. There
/// is none if a partial result cannot be held.
pub open spec fn folded(ts: Seq<Term>, kind: ExprKind) -> Option<Scalar>
    decreases ts.len(),
{
    if ts.len() == 0 {
        Some(unit(kind))
    } else {
        match folded(ts.drop_last(), kind) {
            None => None,
            Some(acc) => match ts.last().kind {
                ExprKind::Const(c) => if kind == ExprKind::Add {
                    acc.sum(c)
                } else {
                    acc.product(c)
                },
                _ => Some(acc),
            },
        }
    }
}

/// What stands for a list of operands: the neutral constant for none, the operand itself
/// for one, else the node of `kind` over them.
pub open spec fn collapse(kind: ExprKind, list: Seq<Term>) -> Term {
    if list.len() == 0 {
        Term::constant(unit(kind))
    } else if list.len() == 1 {
        list[0]
    } else {
        Term { kind, args: list }
    }
}

/// The rule of a sum over simplified operands: nested sums are flattened, the constants
/// are folded into one that goes last, and a zero constant is dropped.
pub open spec fn combine_add(ss: Seq<Term>) -> Result<Term, SimplifyError> {
    let flat = flatten(ss, ExprKind::Add);
    match folded(flat, ExprKind::Add) {
        None => Err(SimplifyError::Overflow),
        Some(c) => Ok(
            collapse(
                ExprKind::Add,
                without_constants(flat) + (if c.zero_valued() {
                    Seq::empty()
                } else {
                    seq![Term::constant(c)]
                }),
            ),
        ),
    }
}

/// The choices of one term from each factor, each behind `prefix`, in lexicographic
/// order with the first factor varying slowest.
pub open spec fn combos(prefix: Seq<Term>, fs: Seq<Seq<Term>>) -> Seq<Seq<Term>>
    decreases fs.len(), (if fs.len() == 0 {
        0
    } else {
        fs[0].len() + 1
    }),
{
    if fs.len() == 0 {
        seq![prefix]
    } else {
        combos_upto(prefix, fs, fs[0].len() as int)
    }
}

/// The choices that take one of the first `j` terms of the first factor.
pub open spec fn combos_upto(prefix: Seq<Term>, fs: Seq<Seq<Term>>, j: int) -> Seq<Seq<Term>>
    decreases fs.len(), j,
{
    if fs.len() == 0 || j <= 0 || j > fs[0].len() {
        Seq::empty()
    } else {
        combos_upto(prefix, fs, j - 1) + combos(prefix.push(fs[0][j - 1]), fs.drop_first())
    }
}

/// The product of each choice with the factors `others`.
pub open spec fn products(choices: Seq<Seq<Term>>, others: Seq<Term>) -> Seq<Term> {
    Seq::new(choices.len(), |i: int| Term { kind: ExprKind::Mul, args: choices[i] + others })
}

/// The term is a sum node.
pub open spec fn is_sum(t: Term) -> bool {
    t.kind == ExprKind::Add
}

/// The terms that are sums, in order.
pub open spec fn sums_of(ts: Seq<Term>) -> Seq<Term> {
    ts.filter(|t: Term| is_sum(t))
}

/// The terms that are not sums, in order.
pub open spec fn others_of(ts: Seq<Term>) -> Seq<Term> {
    ts.filter(|t: Term| !is_sum(t))
}

/// The operands of each term.
pub open spec fn operand_lists(ts: Seq<Term>) -> Seq<Seq<Term>> {
    Seq::new(ts.len(), |i: int| ts[i].args)
}

/// A product over its factors, expanded over the sums among them: the sum of the
/// products of each choice of one term from every sum with the remaining factors.
/// Without a sum among the factors it is the plain product.
pub open spec fn distribute(list: Seq<Term>) -> Term {
    let sums = sums_of(list);
    let others = others_of(list);
    if sums.len() == 0 {
        Term { kind: ExprKind::Mul, args: others }
    } else {
        Term {
            kind: ExprKind::Add,
            args: products(combos(Seq::empty(), operand_lists(sums)), others),
        }
    }
}

/// The rule of a product over simplified operands: nested products are flattened, the
/// constants are folded into one that goes last, a constant one is dropped and a constant
/// zero makes the product zero, and what remains is expanded over its sums.
pub open spec fn combine_mul(ss: Seq<Term>) -> Result<Term, SimplifyError> {
    let flat = flatten(ss, ExprKind::Mul);
    match folded(flat, ExprKind::Mul) {
        None => Err(SimplifyError::Overflow),
        Some(c) => if c.zero_valued() {
            Ok(Term::integer(0))
        } else {
            let list = without_constants(flat) + (if c.one_valued() {
                Seq::empty()
            } else {
                seq![Term::constant(c)]
            });
            if list.len() < 2 {
                Ok(collapse(ExprKind::Mul, list))
            } else {
                Ok(distribute(list))
            }
        },
    }
}

/// The rules of a power whose base is not itself a power.
///
/// A base of zero under a constant exponent is zero where the real part of the exponent
/// is positive and indeterminate elsewhere; under any other exponent it is zero. A base of
/// one is one. An exponent of zero gives one, an exponent of one the base. A constant
/// under an integral constant is folded. Every other power stays as it is.
pub open spec fn power_rules(b: Term, e: Term) -> Result<Term, SimplifyError> {
    if b.is_zero() {
        match e.kind {
            ExprKind::Const(c) => if c.positive_real_part() {
                Ok(b)
            } else {
                Err(SimplifyError::Indeterminate)
            },
            _ => Ok(b),
        }
    } else if b.is_one() {
        Ok(b)
    } else if e.is_zero() {
        Ok(Term::integer(1))
    } else if e.is_one() {
        Ok(b)
    } else {
        match (b.kind, e.kind) {
            (ExprKind::Const(cb), ExprKind::Const(ce)) => if ce.integral() {
                match cb.integer_power(ce.integer_value()) {
                    None => Err(SimplifyError::Overflow),
                    Some(v) => Ok(Term::constant(v)),
                }
            } else {
                Ok(Term { kind: ExprKind::Pow, args: seq![b, e] })
            },
            _ => Ok(Term { kind: ExprKind::Pow, args: seq![b, e] }),
        }
    }
}

/// The rule of a power over a simplified base and exponent: a power of a power becomes
/// one power under the product of the exponents, then the rules of [`power_rules`] apply.
pub open spec fn combine_pow(b: Term, e: Term) -> Result<Term, SimplifyError> {
    if b.kind == ExprKind::Pow && b.args.len() == 2 {
        match combine_mul(seq![b.args[1], e]) {
            Err(x) => Err(x),
            Ok(product) => power_rules(b.args[0], product),
        }
    } else {
        power_rules(b, e)
    }
}

/// The rule of the exponential over a simplified argument: of zero it is one, of a
/// logarithm it is the argument of the logarithm.
pub open spec fn combine_exp(s: Term) -> Term {
    if s.is_zero() {
        Term::integer(1)
    } else if s.kind == ExprKind::Ln && s.args.len() == 1 {
        s.args[0]
    } else {
        Term { kind: ExprKind::Exp, args: seq![s] }
    }
}

/// The simplified operands of a term.
pub open spec fn simplify_all(t: Term) -> Seq<Result<Term, SimplifyError>>
    decreases t, 0int,
{
    Seq::new(
        t.args.len(),
        |i: int|
            if 0 <= i < t.args.len() {
                simplify(t.args[i])
            } else {
                Ok(t)
            },
    )
}

/// The term after one bottom-up pass of simplification, or the first failure of the pass.
pub open spec fn simplify(t: Term) -> Result<Term, SimplifyError>
    decreases t, 1int,
{
    let rs = simplify_all(t);
    match t.kind {
        ExprKind::Root | ExprKind::Var(_) | ExprKind::Const(_) => Ok(t),
        ExprKind::Add => match collect(rs) {
            Err(e) => Err(e),
            Ok(ss) => combine_add(ss),
        },
        ExprKind::Mul => match collect_factors(rs) {
            Err(e) => Err(e),
            Ok(None) => Ok(Term::integer(0)),
            Ok(Some(ss)) => combine_mul(ss),
        },
        ExprKind::Pow => match collect(rs) {
            Err(e) => Err(e),
            Ok(ss) => if ss.len() == 2 {
                combine_pow(ss[0], ss[1])
            } else {
                Ok(Term { kind: t.kind, args: ss })
            },
        },
        ExprKind::Exp => match collect(rs) {
            Err(e) => Err(e),
            Ok(ss) => if ss.len() == 1 {
                Ok(combine_exp(ss[0]))
            } else {
                Ok(Term { kind: t.kind, args: ss })
            },
        },
        ExprKind::Ln | ExprKind::Func(_) => match collect(rs) {
            Err(e) => Err(e),
            Ok(ss) => Ok(Term { kind: t.kind, args: ss }),
        },
    }
}

/// The result of a pass, read as a term.
pub open spec fn result_term(r: Result<Expressand, SimplifyError>) -> Result<
    Term,
    SimplifyError,
> {
    match r {
        Ok(e) => Ok(e@),
        Err(x) => Err(x),
    }
}

/// An error among the first results is the error of them all.
pub proof fn lemma_collect_error<T, E>(rs: Seq<Result<T, E>>, k: int)
    requires
        0 <= k <= rs.len(),
        collect(rs.take(k)) is Err,
    ensures
        collect(rs) == collect(rs.take(k)),
    decreases rs.len() - k,
{
    if k == rs.len() {
        assert(rs.take(k) =~= rs);
    } else {
        assert(rs.take(k + 1).drop_last() =~= rs.take(k));
        lemma_collect_error(rs, k + 1);
    }
}

/// An error or a zero among the first factors decides for them all.
proof fn lemma_collect_factors_decided(rs: Seq<Result<Term, SimplifyError>>, k: int)
    requires
        0 <= k <= rs.len(),
        !(collect_factors(rs.take(k)) matches Ok(Some(_))),
    ensures
        collect_factors(rs) == collect_factors(rs.take(k)),
    decreases rs.len() - k,
{
    if k == rs.len() {
        assert(rs.take(k) =~= rs);
    } else {
        assert(rs.take(k + 1).drop_last() =~= rs.take(k));
        lemma_collect_factors_decided(rs, k + 1);
    }
}

/// A fold that has failed on the first terms fails on them all.
proof fn lemma_folded_none(ts: Seq<Term>, kind: ExprKind, k: int)
    requires
        0 <= k <= ts.len(),
        folded(ts.take(k), kind) is None,
    ensures
        folded(ts, kind) is None,
    decreases ts.len() - k,
{
    if k == ts.len() {
        assert(ts.take(k) =~= ts);
    } else {
        assert(ts.take(k + 1).drop_last() =~= ts.take(k));
        lemma_folded_none(ts, kind, k + 1);
    }
}

/// What one more term adds to the terms that are not constants.
proof fn lemma_without_constants_push(ts: Seq<Term>, t: Term)
    ensures
        without_constants(ts.push(t)) == if is_constant(t) {
            without_constants(ts)
        } else {
            without_constants(ts).push(t)
        },
        without_constants(Seq::empty()) == Seq::<Term>::empty(),
{
    reveal(Seq::filter);
    assert(ts.push(t).drop_last() =~= ts);
}

/// The operands with each operand of kind `kind` replaced by copies of its operands.
fn flattened(ss: Vec<Expressand>, kind: ExprKind) -> (r: Vec<Expressand>)
    ensures
        views(r@) == flatten(views(ss@), kind),
{
    let mut parts: Vec<Expressand> = Vec::new();
    let ghost all = ss@;
    proof {
        lemma_views_ends(all);
        assert(views(parts@) =~= Seq::<Term>::empty());
    }
    for s in it: ss
        invariant
            it.seq() == all,
            views(parts@) == flatten(views(all.take(it.index() as int)), kind),
    {
        proof {
            lemma_views_take(all, it.index() as int);
        }
        if s.kind() == kind {
            let mut operands = s.operands();
            proof {
                lemma_views_add(parts@, operands@);
            }
            parts.append(&mut operands);
        } else {
            proof {
                lemma_views_push(parts@, s);
                assert(views(parts@).push(s@) =~= views(parts@) + seq![s@]);
            }
            parts.push(s);
        }
    }
    proof {
        lemma_views_ends(all);
    }
    parts
}

/// Parts the operands into those that are not constants and the fold of those that are.
fn fold_constants(parts: Vec<Expressand>, kind: ExprKind) -> (r: Option<
    (Vec<Expressand>, Scalar),
>)
    ensures
        r is None ==> folded(views(parts@), kind) is None,
        r matches Some((rest, c)) ==> {
            &&& folded(views(parts@), kind) == Some(c)
            &&& views(rest@) == without_constants(views(parts@))
            &&& c.well_formed()
        },
{
    let mut rest: Vec<Expressand> = Vec::new();
    let mut acc = if kind == ExprKind::Add {
        Scalar::integer(0)
    } else {
        Scalar::integer(1)
    };
    let ghost all = parts@;
    proof {
        lemma_views_ends(all);
        lemma_without_constants_push(Seq::empty(), Term::integer(0));
        assert(views(rest@) =~= Seq::<Term>::empty());
    }
    for part in it: parts
        invariant
            it.seq() == all,
            acc.well_formed(),
            folded(views(all.take(it.index() as int)), kind) == Some(acc),
            views(rest@) == without_constants(views(all.take(it.index() as int))),
    {
        proof {
            lemma_views_take(all, it.index() as int);
            lemma_without_constants_push(views(all.take(it.index() as int)), part@);
        }
        match part.kind() {
            ExprKind::Const(c) => {
                let next = if kind == ExprKind::Add {
                    acc.checked_add(&c)
                } else {
                    acc.checked_mul(&c)
                };
                match next {
                    None => {
                        proof {
                            lemma_views_ends(all);
                            assert(views(all).take(it.index() + 1) =~= views(
                                all.take(it.index() + 1),
                            ));
                            lemma_folded_none(views(all), kind, it.index() + 1);
                        }
                        return None;
                    },
                    Some(next) => {
                        acc = next;
                    },
                }
            },
            _ => {
                proof {
                    lemma_views_push(rest@, part);
                }
                rest.push(part);
            },
        }
    }
    proof {
        lemma_views_ends(all);
    }
    Some((rest, acc))
}

/// What stands for a list of operands of a sum or a product.
fn collapsed(kind: ExprKind, list: Vec<Expressand>) -> (r: Expressand)
    requires
        kind == ExprKind::Add || kind == ExprKind::Mul,
    ensures
        r@ == collapse(kind, views(list@)),
{
    let mut list = list;
    if list.len() == 0 {
        if kind == ExprKind::Add {
            Expressand::integer(0)
        } else {
            Expressand::integer(1)
        }
    } else if list.len() == 1 {
        let ghost before = list@;
        let only = list.pop().unwrap();
        proof {
            assert(views(before)[0] == only@);
        }
        only
    } else {
        Expressand::compose(kind, list)
    }
}

/// Applies the rule of a sum to simplified operands.
pub fn sum_rule(ss: Vec<Expressand>) -> (r: Result<Expressand, SimplifyError>)
    ensures
        result_term(r) == combine_add(views(ss@)),
{
    let flat = flattened(ss, ExprKind::Add);
    match fold_constants(flat, ExprKind::Add) {
        None => Err(SimplifyError::Overflow),
        Some((rest, c)) => {
            let mut rest = rest;
            if !c.is_zero() {
                let last = Expressand::constant(c);
                proof {
                    lemma_views_push(rest@, last);
                    assert(views(rest@).push(last@) =~= views(rest@) + seq![Term::constant(c)]);
                }
                rest.push(last);
            } else {
                proof {
                    assert(views(rest@) + Seq::<Term>::empty() =~= views(rest@));
                }
            }
            Ok(collapsed(ExprKind::Add, rest))
        },
    }
}

/// The terms of each list of expressions.
pub open spec fn operand_views(lists: Seq<Vec<Expressand>>) -> Seq<Seq<Term>> {
    Seq::new(lists.len(), |i: int| views(lists[i]@))
}

/// What one more term adds to the sums and to the other terms.
proof fn lemma_partition_push(ts: Seq<Term>, t: Term)
    ensures
        sums_of(ts.push(t)) == if is_sum(t) {
            sums_of(ts).push(t)
        } else {
            sums_of(ts)
        },
        others_of(ts.push(t)) == if is_sum(t) {
            others_of(ts)
        } else {
            others_of(ts).push(t)
        },
        sums_of(Seq::empty()) == Seq::<Term>::empty(),
        others_of(Seq::empty()) == Seq::<Term>::empty(),
{
    reveal(Seq::filter);
    assert(ts.push(t).drop_last() =~= ts);
}

/// The products of two runs of choices, one after the other.
proof fn lemma_products_add(a: Seq<Seq<Term>>, b: Seq<Seq<Term>>, others: Seq<Term>)
    ensures
        products(a + b, others) == products(a, others) + products(b, others),
{
    assert(products(a + b, others) =~= products(a, others) + products(b, others));
}

/// Copies of the expressions of a list.
fn copies(list: &Vec<Expressand>) -> (r: Vec<Expressand>)
    ensures
        views(r@) == views(list@),
{
    let mut out: Vec<Expressand> = Vec::new();
    let mut k: usize = 0;
    proof {
        lemma_views_ends(list@);
        assert(views(out@) =~= Seq::<Term>::empty());
    }
    while k < list.len()
        invariant
            k <= list@.len(),
            views(out@) == views(list@.take(k as int)),
        decreases list@.len() - k,
    {
        let copy = list[k].clone();
        proof {
            lemma_views_push(out@, copy);
            lemma_views_take(list@, k as int);
        }
        out.push(copy);
        k += 1;
    }
    proof {
        lemma_views_ends(list@);
    }
    out
}

/// Parts the factors into the operand lists of the sums among them and the other factors.
fn partition(list: Vec<Expressand>) -> (r: (Vec<Vec<Expressand>>, Vec<Expressand>))
    ensures
        operand_views(r.0@) == operand_lists(sums_of(views(list@))),
        views(r.1@) == others_of(views(list@)),
{
    let mut sums: Vec<Vec<Expressand>> = Vec::new();
    let mut others: Vec<Expressand> = Vec::new();
    let ghost all = list@;
    proof {
        lemma_views_ends(all);
        lemma_partition_push(Seq::empty(), Term::integer(0));
        assert(views(others@) =~= Seq::<Term>::empty());
        assert(operand_views(sums@) =~= operand_lists(Seq::<Term>::empty()));
    }
    for part in it: list
        invariant
            it.seq() == all,
            operand_views(sums@) == operand_lists(sums_of(views(all.take(it.index() as int)))),
            views(others@) == others_of(views(all.take(it.index() as int))),
    {
        proof {
            lemma_views_take(all, it.index() as int);
            lemma_partition_push(views(all.take(it.index() as int)), part@);
        }
        if part.kind() == ExprKind::Add {
            let operands = part.operands();
            proof {
                let before = sums_of(views(all.take(it.index() as int)));
                assert(operand_views(sums@.push(operands)) =~= operand_views(sums@).push(
                    views(operands@),
                ));
                assert(operand_lists(before.push(part@)) =~= operand_lists(before).push(
                    part@.args,
                ));
            }
            sums.push(operands);
        } else {
            proof {
                lemma_views_push(others@, part);
            }
            others.push(part);
        }
    }
    proof {
        lemma_views_ends(all);
    }
    (sums, others)
}

/// Appends to `out` the product of every choice of one term from each of the lists
/// `sums[idx..]`, behind the terms of `prefix` and before `others`.
fn expand(
    sums: &Vec<Vec<Expressand>>,
    idx: usize,
    prefix: &mut Vec<Expressand>,
    others: &Vec<Expressand>,
    out: &mut Vec<Expressand>,
)
    requires
        idx <= sums@.len(),
    ensures
        views(final(prefix)@) == views(old(prefix)@),
        views(final(out)@) == views(old(out)@) + products(
            combos(views(old(prefix)@), operand_views(sums@).skip(idx as int)),
            views(others@),
        ),
    decreases sums@.len() - idx,
{
    let ghost fs = operand_views(sums@).skip(idx as int);
    let ghost before = views(prefix@);
    let ghost start = views(out@);
    if idx >= sums.len() {
        let mut factors = copies(prefix);
        let mut tail = copies(others);
        proof {
            lemma_views_add(factors@, tail@);
        }
        factors.append(&mut tail);
        let product = Expressand::compose(ExprKind::Mul, factors);
        proof {
            lemma_views_push(out@, product);
            assert(products(combos(before, fs), views(others@)) =~= seq![product@]);
            assert(start.push(product@) =~= start + seq![product@]);
        }
        out.push(product);
    } else {
        let terms = &sums[idx];
        let mut j: usize = 0;
        proof {
            assert(fs[0] == views(terms@));
            assert(products(combos_upto(before, fs, 0), views(others@)) =~= Seq::<Term>::empty());
            assert(start + Seq::<Term>::empty() =~= start);
        }
        while j < terms.len()
            invariant
                j <= terms@.len(),
                idx < sums@.len(),
                idx < usize::MAX,
                terms == sums@[idx as int],
                fs == operand_views(sums@).skip(idx as int),
                fs.len() > 0,
                fs[0] == views(terms@),
                views(prefix@) == before,
                views(out@) == start + products(combos_upto(before, fs, j as int), views(others@)),
            decreases terms@.len() - j,
        {
            let choice = terms[j].clone();
            proof {
                lemma_views_push(prefix@, choice);
                assert(fs.drop_first() =~= operand_views(sums@).skip(idx + 1));
                assert(fs[0][j as int] == choice@);
            }
            let ghost grown = views(out@);
            let ghost longer = prefix@.push(choice);
            prefix.push(choice);
            expand(sums, idx + 1, prefix, others, out);
            let ghost full = prefix@;
            prefix.pop();
            proof {
                assert(views(prefix@) =~= views(full).drop_last());
                assert(views(full).drop_last() =~= before);
                lemma_products_add(
                    combos_upto(before, fs, j as int),
                    combos(before.push(fs[0][j as int]), fs.drop_first()),
                    views(others@),
                );
                assert(views(out@) =~= start + products(
                    combos_upto(before, fs, j + 1),
                    views(others@),
                ));
            }
            j += 1;
        }
    }
}

/// The product of the factors, expanded over the sums among them.
fn distributed(list: Vec<Expressand>) -> (r: Expressand)
    ensures
        r@ == distribute(views(list@)),
{
    let (sums, others) = partition(list);
    if sums.len() == 0 {
        Expressand::compose(ExprKind::Mul, others)
    } else {
        let mut out: Vec<Expressand> = Vec::new();
        let mut prefix: Vec<Expressand> = Vec::new();
        proof {
            lemma_views_ends(out@);
            assert(views(out@) =~= Seq::<Term>::empty());
            assert(views(prefix@) =~= Seq::<Term>::empty());
            assert(operand_views(sums@).skip(0) =~= operand_views(sums@));
        }
        expand(&sums, 0, &mut prefix, &others, &mut out);
        proof {
            let all = products(
                combos(Seq::empty(), operand_views(sums@)),
                views(others@),
            );
            assert(Seq::<Term>::empty() + all =~= all);
        }
        Expressand::compose(ExprKind::Add, out)
    }
}

/// Applies the rule of a product to simplified operands.
pub fn product_rule(ss: Vec<Expressand>) -> (r: Result<Expressand, SimplifyError>)
    ensures
        result_term(r) == combine_mul(views(ss@)),
{
    let flat = flattened(ss, ExprKind::Mul);
    match fold_constants(flat, ExprKind::Mul) {
        None => Err(SimplifyError::Overflow),
        Some((rest, c)) => {
            if c.is_zero() {
                return Ok(Expressand::integer(0));
            }
            let mut rest = rest;
            if !c.is_one() {
                let last = Expressand::constant(c);
                proof {
                    lemma_views_push(rest@, last);
                    assert(views(rest@).push(last@) =~= views(rest@) + seq![Term::constant(c)]);
                }
                rest.push(last);
            } else {
                proof {
                    assert(views(rest@) + Seq::<Term>::empty() =~= views(rest@));
                }
            }
            if rest.len() < 2 {
                Ok(collapsed(ExprKind::Mul, rest))
            } else {
                Ok(distributed(rest))
            }
        },
    }
}

/// Applies the rules of a power whose base is not itself a power.
fn plain_power_rule(b: Expressand, e: Expressand) -> (r: Result<Expressand, SimplifyError>)
    ensures
        result_term(r) == power_rules(b@, e@),
{
    if b.is_zero() {
        match e.kind() {
            ExprKind::Const(c) => if c.re > 0 {
                Ok(b)
            } else {
                Err(SimplifyError::Indeterminate)
            },
            _ => Ok(b),
        }
    } else if b.is_one() {
        Ok(b)
    } else if e.is_zero() {
        Ok(Expressand::integer(1))
    } else if e.is_one() {
        Ok(b)
    } else {
        match (b.kind(), e.kind()) {
            (ExprKind::Const(cb), ExprKind::Const(ce)) => match ce.as_integer() {
                Some(n) => match cb.checked_powi(n) {
                    None => Err(SimplifyError::Overflow),
                    Some(v) => Ok(Expressand::constant(v)),
                },
                None => Ok(power_node(b, e)),
            },
            _ => Ok(power_node(b, e)),
        }
    }
}

/// The power node over a base and an exponent.
fn power_node(b: Expressand, e: Expressand) -> (r: Expressand)
    ensures
        r@ == (Term { kind: ExprKind::Pow, args: seq![b@, e@] }),
{
    let mut parts: Vec<Expressand> = Vec::new();
    parts.push(b);
    parts.push(e);
    proof {
        assert(views(parts@) =~= seq![b@, e@]);
    }
    Expressand::compose(ExprKind::Pow, parts)
}

/// Applies the rule of a power to a simplified base and exponent.
pub fn power_rule(b: Expressand, e: Expressand) -> (r: Result<Expressand, SimplifyError>)
    ensures
        result_term(r) == combine_pow(b@, e@),
{
    if b.kind() == ExprKind::Pow {
        let mut operands = b.operands();
        let inner = operands.pop().unwrap();
        let base = operands.pop().unwrap();
        proof {
            assert(b@.args[1] == inner@);
            assert(b@.args[0] == base@);
        }
        let mut exponents: Vec<Expressand> = Vec::new();
        exponents.push(inner);
        exponents.push(e);
        proof {
            assert(views(exponents@) =~= seq![b@.args[1], e@]);
        }
        match product_rule(exponents) {
            Err(x) => Err(x),
            Ok(product) => plain_power_rule(base, product),
        }
    } else {
        plain_power_rule(b, e)
    }
}

/// Applies the rule of the exponential to a simplified argument.
pub fn exponential_rule(s: Expressand) -> (r: Expressand)
    ensures
        r@ == combine_exp(s@),
{
    if s.is_zero() {
        Expressand::integer(1)
    } else if s.kind() == ExprKind::Ln {
        let mut operands = s.operands();
        let argument = operands.pop().unwrap();
        proof {
            assert(s@.args[0] == argument@);
        }
        argument
    } else {
        let mut parts: Vec<Expressand> = Vec::new();
        parts.push(s);
        proof {
            assert(views(parts@) =~= seq![s@]);
        }
        Expressand::compose(ExprKind::Exp, parts)
    }
}

/// Simplifies the subexpression at the node `id`.
fn simplify_rec(source: &Expressand, id: NodeId) -> (r: Result<Expressand, SimplifyError>)
    requires
        id.0 < source.spec_tree().spec_len(),
        source.spec_tree().term_at(id).well_formed(),
    ensures
        result_term(r) == simplify(source.spec_tree().term_at(id)),
    decreases source.spec_tree().spec_len() - id.0,
{
    let tree = source.tree();
    let node = tree.node(id);
    let kind = node.kind();
    let children = node.children();
    let ghost term = tree.term_at(id);
    let ghost rs = simplify_all(term);
    proof {
        tree.lemma_term_at(id);
    }
    match kind {
        ExprKind::Root | ExprKind::Var(_) | ExprKind::Const(_) => {
            return Ok(source.subterm(id));
        },
        _ => {},
    }
    let mut ss: Vec<Expressand> = Vec::new();
    let mut k: usize = 0;
    proof {
        assert(rs.take(0) =~= Seq::empty());
        lemma_views_ends(ss@);
    }
    while k < children.len()
        invariant
            k <= children@.len(),
            ss@.len() == k,
            id.0 < source.spec_tree().spec_len(),
            tree == source.spec_tree(),
            tree.wf(),
            term == tree.term_at(id),
            term.well_formed(),
            term.kind == kind,
            rs == simplify_all(term),
            children@ == tree.nodes()[id.0 as int].children,
            term.args == done_of(tree.nodes(), id.0 as int, children@.len() as int),
            forall|w: int|
                0 <= w < children@.len() ==> id.0 < (#[trigger] children@[w]).0 < tree.spec_len(),
            kind == ExprKind::Mul ==> collect_factors(rs.take(k as int)) == Ok::<
                Option<Seq<Term>>,
                SimplifyError,
            >(Some(views(ss@))),
            kind != ExprKind::Mul ==> collect(rs.take(k as int)) == Ok::<
                Seq<Term>,
                SimplifyError,
            >(views(ss@)),
        decreases children@.len() - k,
    {
        proof {
            assert(child_of(tree.nodes(), id.0 as int, k as int) == children@[k as int].0);
            assert(term.args[k as int] == tree.term_at(children@[k as int]));
            assert(rs.take(k + 1).drop_last() =~= rs.take(k as int));
            assert(rs.take(k + 1).last() == simplify(term.args[k as int]));
        }
        match simplify_rec(source, children[k]) {
            Err(x) => {
                proof {
                    if kind == ExprKind::Mul {
                        lemma_collect_factors_decided(rs, k + 1);
                    } else {
                        lemma_collect_error(rs, k + 1);
                    }
                }
                return Err(x);
            },
            Ok(s) => {
                if kind == ExprKind::Mul && s.is_zero() {
                    proof {
                        lemma_collect_factors_decided(rs, k + 1);
                    }
                    return Ok(Expressand::integer(0));
                }
                proof {
                    lemma_views_push(ss@, s);
                }
                ss.push(s);
            },
        }
        k += 1;
    }
    proof {
        assert(rs.take(k as int) =~= rs);
    }
    match kind {
        ExprKind::Add => sum_rule(ss),
        ExprKind::Mul => product_rule(ss),
        ExprKind::Pow => {
            let ghost all = views(ss@);
            let e = ss.pop().unwrap();
            let b = ss.pop().unwrap();
            proof {
                assert(all[0] == b@ && all[1] == e@);
            }
            power_rule(b, e)
        },
        ExprKind::Exp => {
            let ghost all = views(ss@);
            let s = ss.pop().unwrap();
            proof {
                assert(all[0] == s@);
            }
            Ok(exponential_rule(s))
        },
        _ => Ok(Expressand::compose(kind, ss)),
    }
}

impl Expressand {
    /// One bottom-up pass of simplification: a new expression, or the first failure of
    /// the pass.
    pub fn simplify(&self) -> (r: Result<Expressand, SimplifyError>)
        ensures
            result_term(r) == simplify(self@),
    {
        let top = self.top();
        let tree = self.tree();
        simplify_rec(self, top)
    }
}

} // verus!
