//! What the derivative means: the rules of differentiation, held against the values of
//! expressions in every model that is a commutative semiring.

use crate::expression::algebra::{product, sum};
use crate::expression::diff::{
    diff, diff_all, nonzero, outer_derivative, power_derivative, product_terms, times,
    DiffError,
};
use crate::expression::simplify::{collapse, collect};
use crate::expression::{ExprKind, Var};
use crate::semantics::{
    lemma_plus_zero, lemma_times_comm, lemma_times_units, lemma_total_of_zeros,
    lemma_total_push, lemma_total_small, lemma_values, lemma_values_of_add,
    lemma_whole_with_zero, lemma_number_units, value, values, values_of, Model,
};
use crate::term::Term;
use vstd::prelude::*;

verus! {

/// The variable `x` occurs in the term.
pub open spec fn occurs(t: Term, x: Var) -> bool
    decreases t,
{
    t.kind == ExprKind::Var(x) || exists|i: int|
        0 <= i < t.args.len() && occurs(#[trigger] t.args[i], x)
}

/// Results that were collected without an error are the terms collected, one by one.
pub proof fn lemma_collect_ok<T, E>(rs: Seq<Result<T, E>>)
    requires
        collect(rs) is Ok,
    ensures
        collect(rs)->Ok_0.len() == rs.len(),
        forall|i: int| 0 <= i < rs.len() ==> #[trigger] rs[i] == Ok::<T, E>(
            collect(rs)->Ok_0[i],
        ),
    decreases rs.len(),
{
    if rs.len() > 0 {
        lemma_collect_ok(rs.drop_last());
        let ts = collect(rs)->Ok_0;
        assert forall|i: int| 0 <= i < rs.len() implies #[trigger] rs[i] == Ok::<T, E>(
            ts[i],
        ) by {
            if i < rs.len() - 1 {
                assert(rs.drop_last()[i] == rs[i]);
            }
        }
    }
}

/// What stands for a list of terms of a sum has the sum of their values.
pub proof fn lemma_collapsed_sum<V>(m: Model<V>, list: Seq<Term>, env: Seq<V>)
    requires
        m.is_semiring(),
    ensures
        value(m, collapse(ExprKind::Add, list), env) == m.total(values_of(m, list, env)),
{
    let vs = values_of(m, list, env);
    if list.len() == 0 {
        assert(vs =~= Seq::<V>::empty());
    } else if list.len() == 1 {
        assert(vs =~= seq![value(m, list[0], env)]);
        lemma_total_small(m, value(m, list[0], env), m.zero());
    } else {
        lemma_values(m, Term { kind: ExprKind::Add, args: list }, env);
    }
}

/// The terms that are not the constant zero have the sum of all the terms.
pub proof fn lemma_nonzero_total<V>(m: Model<V>, ts: Seq<Term>, env: Seq<V>)
    requires
        m.is_semiring(),
        m.respects_constants(),
    ensures
        m.total(values_of(m, nonzero(ts), env)) == m.total(values_of(m, ts, env)),
    decreases ts.len(),
{
    reveal(Seq::filter);
    if ts.len() == 0 {
        assert(nonzero(ts) =~= ts);
    } else {
        let front = ts.drop_last();
        let last = ts.last();
        lemma_nonzero_total(m, front, env);
        lemma_values_of_add(m, front, ts, env);
        lemma_total_push(m, values_of(m, front, env), value(m, last, env));
        if last.is_zero() {
            assert(nonzero(ts) == nonzero(front));
            lemma_number_units(m, last.kind->Const_0);
            lemma_plus_zero(m, m.total(values_of(m, front, env)));
        } else {
            assert(nonzero(ts) == nonzero(front).push(last));
            lemma_values_of_add(m, nonzero(front), nonzero(ts), env);
            assert(nonzero(ts).drop_last() =~= nonzero(front));
            lemma_total_push(m, values_of(m, nonzero(front), env), value(m, last, env));
        }
    }
}

/// The derivative of a variable by itself is the constant one, and by any other
/// variable the constant zero; in every model they have the values one and zero.
pub proof fn lemma_diff_of_variable<V>(m: Model<V>, x: Var, y: Var, env: Seq<V>)
    ensures
        diff(Term::leaf(ExprKind::Var(x)), x) == Ok::<Term, DiffError>(Term::integer(1)),
        y != x ==> diff(Term::leaf(ExprKind::Var(y)), x) == Ok::<Term, DiffError>(
            Term::integer(0),
        ),
        value(m, Term::integer(1), env) == m.one(),
        value(m, Term::integer(0), env) == m.zero(),
{
}

/// The derivative of a sum has the value of the sum of the derivatives.
pub proof fn lemma_diff_is_linear<V>(m: Model<V>, f: Term, g: Term, x: Var, env: Seq<V>)
    requires
        m.is_semiring(),
        m.respects_constants(),
        diff(f, x) is Ok,
        diff(g, x) is Ok,
    ensures
        diff(sum(f, g), x) is Ok,
        value(m, diff(sum(f, g), x)->Ok_0, env) == value(
            m,
            sum(diff(f, x)->Ok_0, diff(g, x)->Ok_0),
            env,
        ),
{
    let t = sum(f, g);
    let df = diff(f, x)->Ok_0;
    let dg = diff(g, x)->Ok_0;
    let ds = diff_all(t, x);
    let dl = seq![df, dg];
    assert(ds =~= seq![diff(f, x), diff(g, x)]);
    reveal_with_fuel(collect, 3);
    assert(ds.drop_last() =~= seq![diff(f, x)]);
    assert(ds.drop_last().drop_last() =~= Seq::<Result<Term, DiffError>>::empty());
    assert(collect(ds) == Ok::<Seq<Term>, DiffError>(Seq::<Term>::empty().push(df).push(dg)));
    assert(Seq::<Term>::empty().push(df).push(dg) =~= dl);
    lemma_collapsed_sum(m, nonzero(dl), env);
    lemma_nonzero_total(m, dl, env);
    lemma_values(m, sum(df, dg), env);
}

/// A product with the value zero for its first or its last factor has the value zero.
proof fn lemma_product_term_zero<V>(m: Model<V>, factors: Seq<Term>, env: Seq<V>, k: int)
    requires
        m.is_semiring(),
        0 <= k < factors.len(),
        value(m, factors[k], env) == m.zero(),
    ensures
        value(m, Term { kind: ExprKind::Mul, args: factors }, env) == m.zero(),
{
    let t = Term { kind: ExprKind::Mul, args: factors };
    lemma_values(m, t, env);
    lemma_whole_with_zero(m, values_of(m, factors, env), k);
}

/// The derivative of a product of two factors has the value that the product rule gives.
pub proof fn lemma_diff_of_product<V>(m: Model<V>, f: Term, g: Term, x: Var, env: Seq<V>)
    requires
        m.is_semiring(),
        m.respects_constants(),
        diff(f, x) is Ok,
        diff(g, x) is Ok,
    ensures
        diff(product(f, g), x) is Ok,
        value(m, diff(product(f, g), x)->Ok_0, env) == value(
            m,
            sum(product(diff(f, x)->Ok_0, g), product(f, diff(g, x)->Ok_0)),
            env,
        ),
{
    let t = product(f, g);
    let df = diff(f, x)->Ok_0;
    let dg = diff(g, x)->Ok_0;
    let ds = diff_all(t, x);
    let dl = seq![df, dg];
    assert(ds =~= seq![diff(f, x), diff(g, x)]);
    reveal_with_fuel(collect, 3);
    assert(ds.drop_last() =~= seq![diff(f, x)]);
    assert(ds.drop_last().drop_last() =~= Seq::<Result<Term, DiffError>>::empty());
    assert(collect(ds) == Ok::<Seq<Term>, DiffError>(Seq::<Term>::empty().push(df).push(dg)));
    assert(Seq::<Term>::empty().push(df).push(dg) =~= dl);
    reveal_with_fuel(product_terms, 3);
    let first = Term { kind: ExprKind::Mul, args: seq![df] + t.args.remove(0) };
    let second = Term { kind: ExprKind::Mul, args: seq![dg] + t.args.remove(1) };
    assert(seq![df] + t.args.remove(0) =~= seq![df, g]);
    assert(seq![dg] + t.args.remove(1) =~= seq![dg, f]);
    let vf = value(m, f, env);
    let vg = value(m, g, env);
    let vdf = value(m, df, env);
    let vdg = value(m, dg, env);
    // the two terms of the rule, as they are written and as the contract states them
    lemma_values(m, first, env);
    lemma_values(m, second, env);
    lemma_values(m, product(df, g), env);
    lemma_values(m, product(f, dg), env);
    assert(values_of(m, seq![df, g], env) =~= seq![vdf, vg]);
    assert(values_of(m, seq![dg, f], env) =~= seq![vdg, vf]);
    assert(values_of(m, seq![f, dg], env) =~= seq![vf, vdg]);
    lemma_total_small(m, vdf, vg);
    lemma_total_small(m, vdg, vf);
    lemma_total_small(m, vf, vdg);
    lemma_times_comm(m, vdg, vf);
    let a = m.times(vdf, vg);
    let b = m.times(vf, vdg);
    assert(value(m, first, env) == a);
    assert(value(m, second, env) == b);
    let want = sum(product(df, g), product(f, dg));
    lemma_values(m, want, env);
    assert(values_of(m, want.args, env) =~= seq![a, b]);
    lemma_total_small(m, a, b);
    // the terms that are left out have the value zero
    if df.is_zero() {
        lemma_number_units(m, df.kind->Const_0);
        lemma_times_units(m, vg);
    }
    if dg.is_zero() {
        lemma_number_units(m, dg.kind->Const_0);
        lemma_times_units(m, vf);
    }
    let kept = product_terms(t.args, dl, 2);
    lemma_collapsed_sum(m, kept, env);
    lemma_plus_zero(m, a);
    lemma_plus_zero(m, b);
    lemma_plus_zero(m, m.zero());
    if df.is_zero() {
        if dg.is_zero() {
            assert(kept =~= Seq::<Term>::empty());
            assert(values_of(m, kept, env) =~= Seq::<V>::empty());
        } else {
            assert(kept =~= seq![second]);
            assert(values_of(m, kept, env) =~= seq![b]);
        }
    } else {
        if dg.is_zero() {
            assert(kept =~= seq![first]);
            assert(values_of(m, kept, env) =~= seq![a]);
        } else {
            assert(kept =~= seq![first, second]);
            assert(values_of(m, kept, env) =~= seq![a, b]);
        }
    }
}

/// The derivative of a term in which `x` does not occur has the value zero.
pub proof fn lemma_diff_without_variable<V>(m: Model<V>, t: Term, x: Var, env: Seq<V>)
    requires
        m.is_semiring(),
        m.respects_constants(),
        t.well_formed(),
        !occurs(t, x),
        diff(t, x) is Ok,
    ensures
        value(m, diff(t, x)->Ok_0, env) == m.zero(),
    decreases t,
{
    let ds = diff_all(t, x);
    let d = diff(t, x)->Ok_0;
    match t.kind {
        ExprKind::Const(_) | ExprKind::Var(_) => {},
        _ => {
            lemma_collect_ok(ds);
            let dl = collect(ds)->Ok_0;
            assert forall|i: int| 0 <= i < dl.len() implies value(m, #[trigger] dl[i], env)
                == m.zero() by {
                assert(ds[i] == Ok::<Term, DiffError>(dl[i]));
                assert(!occurs(t.args[i], x));
                lemma_diff_without_variable(m, t.args[i], x, env);
            }
            match t.kind {
                ExprKind::Root | ExprKind::Add => {
                    lemma_collapsed_sum(m, nonzero(dl), env);
                    lemma_nonzero_total(m, dl, env);
                    let vs = values_of(m, dl, env);
                    assert forall|i: int| 0 <= i < vs.len() implies vs[i] == m.zero() by {
                        assert(vs[i] == value(m, dl[i], env));
                    }
                    lemma_total_of_zeros(m, vs);
                },
                ExprKind::Mul => {
                    let terms = product_terms(t.args, dl, dl.len() as int);
                    lemma_collapsed_sum(m, terms, env);
                    assert(dl.len() == t.args.len());
                    lemma_product_terms_vanish(m, t.args, dl, dl.len() as int, env);
                    let vs = values_of(m, terms, env);
                    assert forall|i: int| 0 <= i < vs.len() implies vs[i] == m.zero() by {
                        assert(vs[i] == value(m, terms[i], env));
                    }
                    lemma_total_of_zeros(m, vs);
                },
                ExprKind::Pow => {
                    let factors = power_derivative(t.args[0], t.args[1], dl[0]).args;
                    assert(factors[2] == dl[0]);
                    lemma_product_term_zero(m, factors, env, 2);
                },
                ExprKind::Exp => {
                    let factors = times(t, dl[0]).args;
                    assert(factors[1] == dl[0]);
                    lemma_product_term_zero(m, factors, env, 1);
                },
                ExprKind::Ln => {
                    let factors = times(
                        dl[0],
                        Term { kind: ExprKind::Pow, args: seq![t.args[0], Term::minus_one()] },
                    ).args;
                    assert(factors[0] == dl[0]);
                    lemma_product_term_zero(m, factors, env, 0);
                },
                ExprKind::Func(f) => {
                    let factors = times(outer_derivative(f, t.args), dl[0]).args;
                    assert(factors[1] == dl[0]);
                    lemma_product_term_zero(m, factors, env, 1);
                },
                _ => {},
            }
        },
    }
}

/// Every term of the product rule has the value zero where every derivative has.
proof fn lemma_product_terms_vanish<V>(
    m: Model<V>,
    factors: Seq<Term>,
    ds: Seq<Term>,
    n: int,
    env: Seq<V>,
)
    requires
        m.is_semiring(),
        0 <= n <= ds.len(),
        ds.len() == factors.len(),
        forall|i: int| 0 <= i < ds.len() ==> value(m, #[trigger] ds[i], env) == m.zero(),
    ensures
        forall|i: int|
            0 <= i < product_terms(factors, ds, n).len() ==> value(
                m,
                #[trigger] product_terms(factors, ds, n)[i],
                env,
            ) == m.zero(),
    decreases n,
{
    if n > 0 {
        lemma_product_terms_vanish(m, factors, ds, n - 1, env);
        let before = product_terms(factors, ds, n - 1);
        let all = product_terms(factors, ds, n);
        if !ds[n - 1].is_zero() {
            let args = seq![ds[n - 1]] + factors.remove(n - 1);
            assert(args[0] == ds[n - 1]);
            lemma_product_term_zero(m, args, env, 0);
            assert(all == before + seq![Term { kind: ExprKind::Mul, args }]);
        } else {
            assert(all =~= before);
        }
        assert forall|i: int| 0 <= i < all.len() implies value(m, #[trigger] all[i], env)
            == m.zero() by {
            if i < before.len() {
                assert(all[i] == before[i]);
            }
        }
    }
}

} // verus!
