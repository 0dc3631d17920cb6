//! What simplification means: one pass of simplification keeps the value of a term in
//! every model that is a commutative semiring and respects the constants and the rules
//! of exponents, as long as the pass applies neither of the two rules that hold of
//! numbers only in part: a power of a power as one power where an exponent is no
//! integral constant, and zero under an exponent that is no constant as zero.

use crate::calculus::lemma_collect_ok;
use crate::expression::simplify::{
    collapse, collect, collect_factors, combine_add, combine_exp, combine_mul, combine_pow,
    combos, combos_upto, distribute, flatten, folded, is_sum, operand_lists, others_of,
    power_rules, products, simplify, simplify_all, sums_of, unit, without_constants,
    SimplifyError,
};
use crate::expression::algebra::{difference, product, sum};
use crate::expression::{ExprKind, Var};
use crate::scalar::{
    gcd, lemma_arithmetic_well_formed, lemma_integer_power_well_formed, Scalar,
};
use crate::semantics::{
    lemma_distributes, lemma_exp_of_ln, lemma_number_arithmetic, lemma_number_units,
    lemma_plus_assoc, lemma_plus_comm, lemma_plus_zero, lemma_power_of_numbers,
    lemma_power_of_power, lemma_power_units,
    lemma_times_assoc, lemma_times_comm, lemma_times_units,
    lemma_total_add, lemma_total_push, lemma_total_small, lemma_values, lemma_values_of_add,
    lemma_whole_with_zero, value, values, values_of, Model,
};
use crate::term::Term;
use vstd::prelude::*;

verus! {

/// The term is built from constants, variables, sums and products alone.
pub open spec fn polynomial(t: Term) -> bool
    decreases t,
{
    &&& t.kind is Const || t.kind is Var || t.kind == ExprKind::Add || t.kind == ExprKind::Mul
    &&& forall|i: int| 0 <= i < t.args.len() ==> polynomial(#[trigger] t.args[i])
}

/// The term is a constant whose value is an integer.
pub open spec fn integral_constant(t: Term) -> bool {
    t.kind matches ExprKind::Const(c) && c.integral()
}

/// At no node of the term does the pass apply one of the rules that hold only in part:
/// where the base of a power simplifies to a power, the exponents of both are integral
/// constants; and where it simplifies to the constant zero, the exponent simplifies to a
/// constant.
pub open spec fn exact_rules(t: Term) -> bool
    decreases t,
{
    &&& forall|i: int| 0 <= i < t.args.len() ==> exact_rules(#[trigger] t.args[i])
    &&& t.kind == ExprKind::Pow && t.args.len() == 2 ==> (simplify(t.args[0]) matches Ok(b)
        ==> (simplify(t.args[1]) matches Ok(e) ==> {
        &&& b.kind == ExprKind::Pow && b.args.len() == 2 ==> integral_constant(b.args[1])
            && integral_constant(e)
        &&& b.is_zero() ==> e.kind is Const
    }))
}

/// A term built from constants, variables, sums and products alone meets no rule that
/// holds only in part.
pub proof fn lemma_polynomial_is_exact(t: Term)
    requires
        polynomial(t),
    ensures
        exact_rules(t),
    decreases t,
{
    assert forall|i: int| 0 <= i < t.args.len() implies exact_rules(#[trigger] t.args[i]) by {
        assert(polynomial(t.args[i]));
        lemma_polynomial_is_exact(t.args[i]);
    }
}

/// Every term of the sequence is well-formed.
pub open spec fn all_well_formed(ts: Seq<Term>) -> bool {
    forall|i: int| 0 <= i < ts.len() ==> (#[trigger] ts[i]).well_formed()
}

/// The combined value of the values under the operation of `kind`: their sum for `Add`,
/// their product otherwise.
pub open spec fn combined<V>(m: Model<V>, kind: ExprKind, vs: Seq<V>) -> V {
    if kind == ExprKind::Add {
        m.total(vs)
    } else {
        m.whole(vs)
    }
}

/// The operation of `kind` on two values.
pub open spec fn operate<V>(m: Model<V>, kind: ExprKind, a: V, b: V) -> V {
    if kind == ExprKind::Add {
        m.plus(a, b)
    } else {
        m.times(a, b)
    }
}

/// The operation of a kind is associative and commutative, and the value of its neutral
/// constant is neutral.
proof fn lemma_operate<V>(m: Model<V>, kind: ExprKind, a: V, b: V, c: V)
    requires
        m.is_semiring(),
    ensures
        operate(m, kind, operate(m, kind, a, b), c) == operate(m, kind, a, operate(m, kind, b, c)),
        operate(m, kind, a, b) == operate(m, kind, b, a),
        operate(m, kind, a, m.number(unit(kind))) == a,
        operate(m, kind, m.number(unit(kind)), a) == a,
{
    lemma_plus_assoc(m, a, b, c);
    lemma_times_assoc(m, a, b, c);
    lemma_plus_comm(m, a, b);
    lemma_times_comm(m, a, b);
    lemma_plus_zero(m, a);
    lemma_times_units(m, a);
}

/// The combined value of two runs of values, and of a run with one more value.
proof fn lemma_combined<V>(m: Model<V>, kind: ExprKind, a: Seq<V>, b: Seq<V>, x: V)
    requires
        m.is_semiring(),
    ensures
        combined(m, kind, a + b) == operate(m, kind, combined(m, kind, a), combined(m, kind, b)),
        combined(m, kind, a.push(x)) == operate(m, kind, combined(m, kind, a), x),
        combined(m, kind, Seq::<V>::empty()) == m.number(unit(kind)),
        combined(m, kind, seq![x]) == x,
{
    lemma_total_add(m, a, b);
    lemma_total_push(m, a, x);
    lemma_total_small(m, x, x);
}

/// Flattening the operands of a sum or a product keeps their combined value.
proof fn lemma_flatten_value<V>(m: Model<V>, kind: ExprKind, ss: Seq<Term>, env: Seq<V>)
    requires
        m.is_semiring(),
        kind == ExprKind::Add || kind == ExprKind::Mul,
    ensures
        combined(m, kind, values_of(m, flatten(ss, kind), env)) == combined(
            m,
            kind,
            values_of(m, ss, env),
        ),
    decreases ss.len(),
{
    if ss.len() == 0 {
        assert(flatten(ss, kind) =~= ss);
    } else {
        let front = ss.drop_last();
        let last = ss.last();
        lemma_flatten_value(m, kind, front, env);
        let piece = if last.kind == kind {
            last.args
        } else {
            seq![last]
        };
        lemma_values_of_add(m, flatten(front, kind), piece, env);
        lemma_values_of_add(m, front, ss, env);
        assert(flatten(ss, kind) == flatten(front, kind) + piece);
        lemma_combined(
            m,
            kind,
            values_of(m, flatten(front, kind), env),
            values_of(m, piece, env),
            value(m, last, env),
        );
        lemma_combined(m, kind, values_of(m, front, env), Seq::empty(), value(m, last, env));
        if last.kind == kind {
            lemma_values(m, last, env);
        } else {
            assert(values_of(m, piece, env) =~= seq![value(m, last, env)]);
        }
    }
}

/// Flattening well-formed operands gives well-formed operands.
proof fn lemma_flatten_well_formed(kind: ExprKind, ss: Seq<Term>)
    requires
        all_well_formed(ss),
    ensures
        all_well_formed(flatten(ss, kind)),
    decreases ss.len(),
{
    if ss.len() > 0 {
        let front = ss.drop_last();
        let last = ss.last();
        assert forall|i: int| 0 <= i < front.len() implies (#[trigger] front[i]).well_formed() by {
            assert(front[i] == ss[i]);
        }
        lemma_flatten_well_formed(kind, front);
        let piece = if last.kind == kind {
            last.args
        } else {
            seq![last]
        };
        let flat = flatten(ss, kind);
        assert(flat == flatten(front, kind) + piece);
        assert(last.well_formed());
        assert forall|i: int| 0 <= i < flat.len() implies (#[trigger] flat[i]).well_formed() by {
            let n = flatten(front, kind).len();
            if i < n {
                assert(flat[i] == flatten(front, kind)[i]);
            } else {
                assert(flat[i] == piece[i - n]);
            }
        }
    }
}

/// Folding the constants of a list keeps its combined value: it is that of the terms
/// that are not constants, combined with the value of the folded constant.
proof fn lemma_fold_value<V>(m: Model<V>, kind: ExprKind, flat: Seq<Term>, env: Seq<V>)
    requires
        m.is_semiring(),
        m.respects_constants(),
        kind == ExprKind::Add || kind == ExprKind::Mul,
        all_well_formed(flat),
        folded(flat, kind) is Some,
    ensures
        folded(flat, kind)->0.well_formed(),
        all_well_formed(without_constants(flat)),
        combined(m, kind, values_of(m, flat, env)) == operate(
            m,
            kind,
            combined(m, kind, values_of(m, without_constants(flat), env)),
            m.number(folded(flat, kind)->0),
        ),
    decreases flat.len(),
{
    reveal(Seq::filter);
    if flat.len() == 0 {
        assert(without_constants(flat) =~= flat);
        lemma_combined(m, kind, values_of(m, flat, env), Seq::empty(), m.zero());
        assert(values_of(m, flat, env) =~= Seq::<V>::empty());
        lemma_operate(m, kind, m.number(unit(kind)), m.zero(), m.zero());
    } else {
        let front = flat.drop_last();
        let last = flat.last();
        assert forall|i: int| 0 <= i < front.len() implies (#[trigger] front[i]).well_formed() by {
            assert(front[i] == flat[i]);
        }
        lemma_fold_value(m, kind, front, env);
        let acc = folded(front, kind)->0;
        let rest = without_constants(front);
        let t = combined(m, kind, values_of(m, rest, env));
        let v = value(m, last, env);
        lemma_values_of_add(m, front, flat, env);
        lemma_combined(m, kind, values_of(m, front, env), Seq::empty(), v);
        assert(last.well_formed());
        match last.kind {
            ExprKind::Const(k) => {
                assert(without_constants(flat) == rest);
                lemma_number_arithmetic(m, acc, k);
                lemma_arithmetic_well_formed(acc, k);
                lemma_operate(m, kind, t, m.number(acc), v);
            },
            _ => {
                assert(without_constants(flat) == rest.push(last));
                lemma_values_of_add(m, rest, rest.push(last), env);
                assert(rest.push(last).drop_last() =~= rest);
                lemma_combined(m, kind, values_of(m, rest, env), Seq::empty(), v);
                lemma_operate(m, kind, t, m.number(acc), v);
                lemma_operate(m, kind, m.number(acc), v, v);
                lemma_operate(m, kind, t, v, m.number(acc));
                let kept = without_constants(flat);
                assert forall|i: int| 0 <= i < kept.len() implies (
                #[trigger] kept[i]).well_formed() by {
                    if i < rest.len() {
                        assert(kept[i] == rest[i]);
                    }
                }
            },
        }
    }
}

/// What stands for a list of operands has their combined value, and is well-formed where
/// they are.
proof fn lemma_collapse_value<V>(m: Model<V>, kind: ExprKind, list: Seq<Term>, env: Seq<V>)
    requires
        m.is_semiring(),
        kind == ExprKind::Add || kind == ExprKind::Mul,
    ensures
        value(m, collapse(kind, list), env) == combined(m, kind, values_of(m, list, env)),
        all_well_formed(list) ==> collapse(kind, list).well_formed(),
{
    let vs = values_of(m, list, env);
    if list.len() == 0 {
        assert(vs =~= Seq::<V>::empty());
        lemma_combined(m, kind, vs, vs, m.zero());
    } else if list.len() == 1 {
        assert(vs =~= seq![value(m, list[0], env)]);
        lemma_combined(m, kind, vs, vs, value(m, list[0], env));
        if all_well_formed(list) {
            assert(list[0].well_formed());
        }
    } else {
        lemma_values(m, Term { kind, args: list }, env);
    }
}

/// The folded constant goes last, unless it is neutral; the list keeps its combined value.
proof fn lemma_tail_value<V>(
    m: Model<V>,
    kind: ExprKind,
    rest: Seq<Term>,
    c: Scalar,
    env: Seq<V>,
)
    requires
        m.is_semiring(),
        m.respects_constants(),
        kind == ExprKind::Add || kind == ExprKind::Mul,
        c.well_formed(),
        all_well_formed(rest),
    ensures
        ({
            let neutral = if kind == ExprKind::Add {
                c.zero_valued()
            } else {
                c.one_valued()
            };
            let list = rest + (if neutral {
                Seq::empty()
            } else {
                seq![Term::constant(c)]
            });
            &&& all_well_formed(list)
            &&& combined(m, kind, values_of(m, list, env)) == operate(
                m,
                kind,
                combined(m, kind, values_of(m, rest, env)),
                m.number(c),
            )
        }),
{
    let neutral = if kind == ExprKind::Add {
        c.zero_valued()
    } else {
        c.one_valued()
    };
    let t = combined(m, kind, values_of(m, rest, env));
    lemma_number_units(m, c);
    lemma_operate(m, kind, t, t, t);
    if neutral {
        assert(rest + Seq::<Term>::empty() =~= rest);
    } else {
        let list = rest + seq![Term::constant(c)];
        assert(list =~= rest.push(Term::constant(c)));
        lemma_values_of_add(m, rest, list, env);
        assert(list.drop_last() =~= rest);
        lemma_combined(m, kind, values_of(m, rest, env), Seq::empty(), m.number(c));
        assert forall|i: int| 0 <= i < list.len() implies (#[trigger] list[i]).well_formed() by {
            if i < rest.len() {
                assert(list[i] == rest[i]);
            }
        }
    }
}

/// The rule of a sum keeps the sum of the values of its operands.
pub proof fn lemma_sum_rule<V>(m: Model<V>, ss: Seq<Term>, env: Seq<V>)
    requires
        m.is_semiring(),
        m.respects_constants(),
        all_well_formed(ss),
        combine_add(ss) is Ok,
    ensures
        combine_add(ss)->Ok_0.well_formed(),
        value(m, combine_add(ss)->Ok_0, env) == m.total(values_of(m, ss, env)),
{
    let kind = ExprKind::Add;
    let flat = flatten(ss, kind);
    lemma_flatten_value(m, kind, ss, env);
    lemma_flatten_well_formed(kind, ss);
    lemma_fold_value(m, kind, flat, env);
    let c = folded(flat, kind)->0;
    let rest = without_constants(flat);
    lemma_tail_value(m, kind, rest, c, env);
    let list = rest + (if c.zero_valued() {
        Seq::empty()
    } else {
        seq![Term::constant(c)]
    });
    lemma_collapse_value(m, kind, list, env);
}

/// The factors of a product, parted into its sums and the other factors, keep their
/// product.
proof fn lemma_partition_value<V>(m: Model<V>, list: Seq<Term>, env: Seq<V>)
    requires
        m.is_semiring(),
        all_well_formed(list),
    ensures
        all_well_formed(sums_of(list)),
        all_well_formed(others_of(list)),
        forall|i: int| 0 <= i < sums_of(list).len() ==> is_sum(#[trigger] sums_of(list)[i]),
        m.whole(values_of(m, list, env)) == m.times(
            m.whole(values_of(m, sums_of(list), env)),
            m.whole(values_of(m, others_of(list), env)),
        ),
    decreases list.len(),
{
    reveal(Seq::filter);
    if list.len() == 0 {
        assert(sums_of(list) =~= list);
        assert(others_of(list) =~= list);
        assert(values_of(m, list, env) =~= Seq::<V>::empty());
        lemma_total_small(m, m.one(), m.one());
        lemma_times_units(m, m.one());
    } else {
        let front = list.drop_last();
        let last = list.last();
        assert forall|i: int| 0 <= i < front.len() implies (#[trigger] front[i]).well_formed() by {
            assert(front[i] == list[i]);
        }
        lemma_partition_value(m, front, env);
        let s = m.whole(values_of(m, sums_of(front), env));
        let o = m.whole(values_of(m, others_of(front), env));
        let v = value(m, last, env);
        lemma_values_of_add(m, front, list, env);
        lemma_total_push(m, values_of(m, front, env), v);
        assert(last.well_formed());
        if is_sum(last) {
            let grown = sums_of(front).push(last);
            assert(sums_of(list) == grown);
            assert(others_of(list) == others_of(front));
            lemma_values_of_add(m, sums_of(front), grown, env);
            assert(grown.drop_last() =~= sums_of(front));
            lemma_total_push(m, values_of(m, sums_of(front), env), v);
            lemma_times_assoc(m, s, o, v);
            lemma_times_comm(m, o, v);
            lemma_times_assoc(m, s, v, o);
            assert forall|i: int| 0 <= i < grown.len() implies (#[trigger] grown[i]).well_formed()
                && is_sum(grown[i]) by {
                if i < sums_of(front).len() {
                    assert(grown[i] == sums_of(front)[i]);
                }
            }
        } else {
            let grown = others_of(front).push(last);
            assert(others_of(list) == grown);
            assert(sums_of(list) == sums_of(front));
            lemma_values_of_add(m, others_of(front), grown, env);
            assert(grown.drop_last() =~= others_of(front));
            lemma_total_push(m, values_of(m, others_of(front), env), v);
            lemma_times_assoc(m, s, o, v);
            assert forall|i: int| 0 <= i < grown.len() implies (
            #[trigger] grown[i]).well_formed() by {
                if i < others_of(front).len() {
                    assert(grown[i] == others_of(front)[i]);
                }
            }
        }
    }
}

/// The sum of the values of each list of terms.
pub open spec fn sums_values<V>(m: Model<V>, fs: Seq<Seq<Term>>, env: Seq<V>) -> Seq<V> {
    Seq::new(fs.len(), |i: int| m.total(values_of(m, fs[i], env)))
}

/// The product of the values of each choice of terms.
pub open spec fn choice_values<V>(m: Model<V>, choices: Seq<Seq<Term>>, env: Seq<V>) -> Seq<V> {
    Seq::new(choices.len(), |i: int| m.whole(values_of(m, choices[i], env)))
}

/// Every term of every list is well-formed.
pub open spec fn lists_well_formed(fs: Seq<Seq<Term>>) -> bool {
    forall|i: int| 0 <= i < fs.len() ==> all_well_formed(#[trigger] fs[i])
}

/// The sum over all choices of the product of a choice is the product of the sums of the
/// factors, times the product of the prefix.
proof fn lemma_combos_value<V>(m: Model<V>, prefix: Seq<Term>, fs: Seq<Seq<Term>>, env: Seq<V>)
    requires
        m.is_semiring(),
    ensures
        m.total(choice_values(m, combos(prefix, fs), env)) == m.times(
            m.whole(values_of(m, prefix, env)),
            m.whole(sums_values(m, fs, env)),
        ),
    decreases fs.len(), (if fs.len() == 0 {
        0
    } else {
        fs[0].len() + 1
    }),
{
    let w = m.whole(values_of(m, prefix, env));
    if fs.len() == 0 {
        assert(choice_values(m, combos(prefix, fs), env) =~= seq![w]);
        assert(sums_values(m, fs, env) =~= Seq::<V>::empty());
        lemma_total_small(m, w, w);
        lemma_times_units(m, w);
    } else {
        let n = fs[0].len() as int;
        lemma_combos_upto_value(m, prefix, fs, n, env);
        let rest = fs.drop_first();
        let t0 = m.total(values_of(m, fs[0], env));
        let p = m.whole(sums_values(m, rest, env));
        assert(sums_values(m, fs, env) =~= seq![t0] + sums_values(m, rest, env));
        lemma_total_add(m, seq![t0], sums_values(m, rest, env));
        lemma_total_small(m, t0, t0);
        lemma_times_assoc(m, w, t0, p);
    }
}

/// The part of [`lemma_combos_value`] for the choices that take one of the first `j`
/// terms of the first factor.
proof fn lemma_combos_upto_value<V>(
    m: Model<V>,
    prefix: Seq<Term>,
    fs: Seq<Seq<Term>>,
    j: int,
    env: Seq<V>,
)
    requires
        m.is_semiring(),
        fs.len() > 0,
        0 <= j <= fs[0].len(),
    ensures
        m.total(choice_values(m, combos_upto(prefix, fs, j), env)) == m.times(
            m.times(m.whole(values_of(m, prefix, env)), m.sum(values_of(m, fs[0], env), j)),
            m.whole(sums_values(m, fs.drop_first(), env)),
        ),
    decreases fs.len(), j,
{
    let w = m.whole(values_of(m, prefix, env));
    let rest = fs.drop_first();
    let p = m.whole(sums_values(m, rest, env));
    if j == 0 {
        assert(choice_values(m, combos_upto(prefix, fs, j), env) =~= Seq::<V>::empty());
        lemma_total_small(m, w, w);
        lemma_times_units(m, w);
        lemma_times_units(m, p);
    } else {
        let a = fs[0][j - 1];
        let v = value(m, a, env);
        let before = combos_upto(prefix, fs, j - 1);
        let added = combos(prefix.push(a), rest);
        lemma_combos_upto_value(m, prefix, fs, j - 1, env);
        lemma_combos_value(m, prefix.push(a), rest, env);
        assert(choice_values(m, before + added, env) =~= choice_values(m, before, env)
            + choice_values(m, added, env));
        lemma_total_add(m, choice_values(m, before, env), choice_values(m, added, env));
        lemma_values_of_add(m, prefix, prefix.push(a), env);
        assert(prefix.push(a).drop_last() =~= prefix);
        lemma_total_push(m, values_of(m, prefix, env), v);
        let s = m.sum(values_of(m, fs[0], env), j - 1);
        assert(m.sum(values_of(m, fs[0], env), j) == m.plus(s, v));
        lemma_distributes(m, w, s, v);
        lemma_distributes(m, p, m.times(w, s), m.times(w, v));
    }
}

/// Every choice is made of well-formed terms where the prefix and the factors are.
proof fn lemma_combos_well_formed(prefix: Seq<Term>, fs: Seq<Seq<Term>>)
    requires
        all_well_formed(prefix),
        lists_well_formed(fs),
    ensures
        lists_well_formed(combos(prefix, fs)),
    decreases fs.len(), (if fs.len() == 0 {
        0
    } else {
        fs[0].len() + 1
    }),
{
    if fs.len() > 0 {
        lemma_combos_upto_well_formed(prefix, fs, fs[0].len() as int);
    } else {
        assert(combos(prefix, fs)[0] == prefix);
    }
}

/// The part of [`lemma_combos_well_formed`] for the first `j` terms of the first factor.
proof fn lemma_combos_upto_well_formed(prefix: Seq<Term>, fs: Seq<Seq<Term>>, j: int)
    requires
        all_well_formed(prefix),
        lists_well_formed(fs),
        fs.len() > 0,
        0 <= j <= fs[0].len(),
    ensures
        lists_well_formed(combos_upto(prefix, fs, j)),
    decreases fs.len(), j,
{
    if j > 0 {
        let a = fs[0][j - 1];
        let rest = fs.drop_first();
        let longer = prefix.push(a);
        assert(all_well_formed(fs[0]));
        assert(a.well_formed());
        assert forall|i: int| 0 <= i < longer.len() implies (
        #[trigger] longer[i]).well_formed() by {
            if i < prefix.len() {
                assert(longer[i] == prefix[i]);
            }
        }
        assert forall|i: int| 0 <= i < rest.len() implies all_well_formed(#[trigger] rest[i]) by {
            assert(rest[i] == fs[i + 1]);
        }
        lemma_combos_upto_well_formed(prefix, fs, j - 1);
        lemma_combos_well_formed(longer, rest);
        let before = combos_upto(prefix, fs, j - 1);
        let added = combos(longer, rest);
        let all = combos_upto(prefix, fs, j);
        assert(all == before + added);
        assert forall|i: int| 0 <= i < all.len() implies all_well_formed(#[trigger] all[i]) by {
            if i < before.len() {
                assert(all[i] == before[i]);
            } else {
                assert(all[i] == added[i - before.len()]);
            }
        }
    }
}

/// The sum of the products of each choice with the other factors is the sum of the
/// products of the choices, times the product of the other factors.
proof fn lemma_products_value<V>(
    m: Model<V>,
    choices: Seq<Seq<Term>>,
    others: Seq<Term>,
    env: Seq<V>,
)
    requires
        m.is_semiring(),
    ensures
        m.total(values_of(m, products(choices, others), env)) == m.times(
            m.total(choice_values(m, choices, env)),
            m.whole(values_of(m, others, env)),
        ),
    decreases choices.len(),
{
    let o = m.whole(values_of(m, others, env));
    if choices.len() == 0 {
        assert(values_of(m, products(choices, others), env) =~= Seq::<V>::empty());
        assert(choice_values(m, choices, env) =~= Seq::<V>::empty());
        lemma_total_small(m, o, o);
        lemma_times_units(m, o);
    } else {
        let front = choices.drop_last();
        let last = choices.last();
        lemma_products_value(m, front, others, env);
        let term = Term { kind: ExprKind::Mul, args: last + others };
        let w = m.whole(values_of(m, last, env));
        lemma_values(m, term, env);
        lemma_values_of_add(m, last, others, env);
        lemma_total_add(m, values_of(m, last, env), values_of(m, others, env));
        assert(value(m, term, env) == m.times(w, o));
        assert(values_of(m, products(choices, others), env) =~= values_of(
            m,
            products(front, others),
            env,
        ).push(value(m, term, env)));
        lemma_total_push(m, values_of(m, products(front, others), env), value(m, term, env));
        assert(choice_values(m, choices, env) =~= choice_values(m, front, env).push(w));
        lemma_total_push(m, choice_values(m, front, env), w);
        lemma_distributes(m, o, m.total(choice_values(m, front, env)), w);
    }
}

/// A product expanded over the sums among its factors keeps the product of the values of
/// the factors.
pub proof fn lemma_distribute_value<V>(m: Model<V>, list: Seq<Term>, env: Seq<V>)
    requires
        m.is_semiring(),
        all_well_formed(list),
    ensures
        distribute(list).well_formed(),
        value(m, distribute(list), env) == m.whole(values_of(m, list, env)),
{
    let sums = sums_of(list);
    let others = others_of(list);
    lemma_partition_value(m, list, env);
    let o = m.whole(values_of(m, others, env));
    if sums.len() == 0 {
        let t = Term { kind: ExprKind::Mul, args: others };
        lemma_values(m, t, env);
        assert(values_of(m, sums, env) =~= Seq::<V>::empty());
        lemma_total_small(m, o, o);
        lemma_times_units(m, o);
    } else {
        let fs = operand_lists(sums);
        let choices = combos(Seq::empty(), fs);
        let t = Term { kind: ExprKind::Add, args: products(choices, others) };
        lemma_values(m, t, env);
        lemma_products_value(m, choices, others, env);
        lemma_combos_value(m, Seq::empty(), fs, env);
        assert(values_of(m, Seq::<Term>::empty(), env) =~= Seq::<V>::empty());
        lemma_total_small(m, o, o);
        lemma_times_units(m, m.whole(sums_values(m, fs, env)));
        assert forall|i: int| 0 <= i < sums.len() implies sums_values(m, fs, env)[i]
            == #[trigger] values_of(m, sums, env)[i] by {
            assert(is_sum(sums[i]));
            lemma_values(m, sums[i], env);
        }
        assert(sums_values(m, fs, env) =~= values_of(m, sums, env));
        assert forall|i: int| 0 <= i < fs.len() implies all_well_formed(#[trigger] fs[i]) by {
            assert(sums[i].well_formed());
        }
        lemma_combos_well_formed(Seq::empty(), fs);
        assert forall|i: int| 0 <= i < t.args.len() implies (#[trigger] t.args[i]).well_formed() by {
            let factors = choices[i] + others;
            assert(all_well_formed(choices[i]));
            assert forall|k: int| 0 <= k < factors.len() implies (
            #[trigger] factors[k]).well_formed() by {
                if k < choices[i].len() {
                    assert(factors[k] == choices[i][k]);
                } else {
                    assert(factors[k] == others[k - choices[i].len()]);
                }
            }
        }
    }
}

/// The rule of a product keeps the product of the values of its operands.
pub proof fn lemma_product_rule<V>(m: Model<V>, ss: Seq<Term>, env: Seq<V>)
    requires
        m.is_semiring(),
        m.respects_constants(),
        all_well_formed(ss),
        combine_mul(ss) is Ok,
    ensures
        combine_mul(ss)->Ok_0.well_formed(),
        value(m, combine_mul(ss)->Ok_0, env) == m.whole(values_of(m, ss, env)),
{
    let kind = ExprKind::Mul;
    let flat = flatten(ss, kind);
    lemma_flatten_value(m, kind, ss, env);
    lemma_flatten_well_formed(kind, ss);
    lemma_fold_value(m, kind, flat, env);
    let c = folded(flat, kind)->0;
    let rest = without_constants(flat);
    if c.zero_valued() {
        lemma_number_units(m, c);
        lemma_times_units(m, m.whole(values_of(m, rest, env)));
    } else {
        lemma_tail_value(m, kind, rest, c, env);
        let list = rest + (if c.one_valued() {
            Seq::empty()
        } else {
            seq![Term::constant(c)]
        });
        if list.len() < 2 {
            lemma_collapse_value(m, kind, list, env);
        } else {
            lemma_distribute_value(m, list, env);
        }
    }
}

/// What the factors read from the left amount to: either all results are terms, none of
/// them the constant zero, or one of the results is the constant zero.
proof fn lemma_collect_factors(rs: Seq<Result<Term, SimplifyError>>)
    ensures
        collect_factors(rs) matches Ok(Some(ss)) ==> {
            &&& ss.len() == rs.len()
            &&& forall|i: int| 0 <= i < rs.len() ==> #[trigger] rs[i] == Ok::<
                Term,
                SimplifyError,
            >(ss[i])
        },
        collect_factors(rs) matches Ok(None) ==> exists|k: int|
            0 <= k < rs.len() && (#[trigger] rs[k]) is Ok && rs[k]->Ok_0.is_zero(),
    decreases rs.len(),
{
    if rs.len() > 0 {
        let front = rs.drop_last();
        lemma_collect_factors(front);
        match collect_factors(front) {
            Ok(Some(ts)) => {
                match collect_factors(rs) {
                    Ok(Some(ss)) => {
                        assert forall|i: int| 0 <= i < rs.len() implies #[trigger] rs[i] == Ok::<
                            Term,
                            SimplifyError,
                        >(ss[i]) by {
                            if i < rs.len() - 1 {
                                assert(front[i] == rs[i]);
                            }
                        }
                    },
                    Ok(None) => {
                        let k = rs.len() - 1;
                        assert(rs[k] is Ok && rs[k]->Ok_0.is_zero());
                    },
                    _ => {},
                }
            },
            Ok(None) => {
                let k = choose|k: int|
                    0 <= k < front.len() && (#[trigger] front[k]) is Ok && front[k]->Ok_0.is_zero();
                assert(rs[k] == front[k]);
            },
            _ => {},
        }
    }
}

/// The rules of a power keep the value of the power, but for zero under an exponent
/// that is no constant.
proof fn lemma_power_rules<V>(m: Model<V>, b: Term, e: Term, env: Seq<V>)
    requires
        m.is_semiring(),
        m.respects_constants(),
        m.respects_powers(),
        b.well_formed(),
        e.well_formed(),
        b.is_zero() ==> e.kind is Const,
        power_rules(b, e) is Ok,
    ensures
        power_rules(b, e)->Ok_0.well_formed(),
        value(m, power_rules(b, e)->Ok_0, env) == m.power(value(m, b, env), value(m, e, env)),
{
    let vb = value(m, b, env);
    let ve = value(m, e, env);
    lemma_power_units(m, vb);
    lemma_power_units(m, ve);
    if b.is_zero() {
        let cb = b.kind->Const_0;
        let ce = e.kind->Const_0;
        lemma_number_units(m, cb);
        lemma_power_of_numbers(m, cb, ce);
    } else if b.is_one() {
        lemma_number_units(m, b.kind->Const_0);
    } else if e.is_zero() {
        lemma_number_units(m, e.kind->Const_0);
    } else if e.is_one() {
        lemma_number_units(m, e.kind->Const_0);
    } else {
        match (b.kind, e.kind) {
            (ExprKind::Const(cb), ExprKind::Const(ce)) => {
                if ce.integral() {
                    lemma_power_of_numbers(m, cb, ce);
                    lemma_integer_power_well_formed(cb, ce.integer_value());
                } else {
                    lemma_pair(m, ExprKind::Pow, b, e, env);
                }
            },
            _ => {
                lemma_pair(m, ExprKind::Pow, b, e, env);
            },
        }
    }
}

/// The rule of a product over two constants gives a constant.
proof fn lemma_product_of_constants(a: Term, b: Term)
    requires
        a.kind is Const,
        b.kind is Const,
        combine_mul(seq![a, b]) is Ok,
    ensures
        combine_mul(seq![a, b])->Ok_0.kind is Const,
{
    let pair = seq![a, b];
    let kind = ExprKind::Mul;
    reveal_with_fuel(flatten, 3);
    assert(pair.drop_last() =~= seq![a]);
    assert(seq![a].drop_last() =~= Seq::<Term>::empty());
    assert(flatten(seq![a], kind) =~= seq![a]);
    assert(flatten(pair, kind) =~= pair);
    reveal_with_fuel(Seq::filter, 3);
    assert(without_constants(seq![a]) =~= Seq::<Term>::empty());
    assert(without_constants(pair) =~= Seq::<Term>::empty());
}

/// The rule of a power of a power keeps the value where both exponents are integral
/// constants.
proof fn lemma_nested_power<V>(m: Model<V>, b: Term, e: Term, env: Seq<V>)
    requires
        m.is_semiring(),
        m.respects_constants(),
        m.respects_powers(),
        b.well_formed(),
        e.well_formed(),
        b.kind == ExprKind::Pow,
        integral_constant(b.args[1]),
        integral_constant(e),
        combine_pow(b, e) is Ok,
    ensures
        combine_pow(b, e)->Ok_0.well_formed(),
        value(m, combine_pow(b, e)->Ok_0, env) == m.power(value(m, b, env), value(m, e, env)),
{
    let base = b.args[0];
    let inner = b.args[1];
    let pair = seq![inner, e];
    assert(base.well_formed() && inner.well_formed());
    assert(all_well_formed(pair)) by {
        assert forall|i: int| 0 <= i < pair.len() implies (#[trigger] pair[i]).well_formed() by {
            if i == 0 {
            } else {
            }
        }
    }
    lemma_product_rule(m, pair, env);
    lemma_product_of_constants(inner, e);
    let product = combine_mul(pair)->Ok_0;
    let c = inner.kind->Const_0;
    let d = e.kind->Const_0;
    assert(values_of(m, pair, env) =~= seq![m.number(c), m.number(d)]);
    lemma_total_small(m, m.number(c), m.number(d));
    lemma_power_rules(m, base, product, env);
    lemma_values(m, b, env);
    assert(values_of(m, b.args, env)[0] == value(m, base, env));
    assert(values_of(m, b.args, env)[1] == m.number(c));
    lemma_power_of_power(m, value(m, base, env), c, d);
}

/// A node over two well-formed operands: its operands have their values, and it is
/// well-formed where its kind takes two operands.
proof fn lemma_pair<V>(m: Model<V>, kind: ExprKind, a: Term, b: Term, env: Seq<V>)
    requires
        a.well_formed(),
        b.well_formed(),
    ensures
        values(m, Term { kind, args: seq![a, b] }, env) == seq![
            value(m, a, env),
            value(m, b, env),
        ],
        kind == ExprKind::Pow ==> (Term { kind, args: seq![a, b] }).well_formed(),
{
    let t = Term { kind, args: seq![a, b] };
    assert(values(m, t, env) =~= seq![value(m, a, env), value(m, b, env)]);
    assert forall|i: int| 0 <= i < t.args.len() implies (#[trigger] t.args[i]).well_formed() by {
        if i == 0 {
        } else {
        }
    }
}

/// One pass of simplification keeps the value of a term in every model that is a
/// commutative semiring and respects the constants and the rules of exponents, as long
/// as the pass applies none of the rules that hold only in part: it rewrites no power of
/// a power but under two integral constants, and no power of zero but under a constant.
/// What the pass hands out is well-formed.
pub proof fn lemma_simplify_keeps_value<V>(m: Model<V>, t: Term, env: Seq<V>)
    requires
        m.is_semiring(),
        m.respects_constants(),
        m.respects_powers(),
        t.well_formed(),
        exact_rules(t),
        simplify(t) is Ok,
    ensures
        simplify(t)->Ok_0.well_formed(),
        value(m, simplify(t)->Ok_0, env) == value(m, t, env),
{
    lemma_simplify_exact(m, t, env);
}

/// One pass of simplification keeps the value of a term built from constants, variables,
/// sums and products alone in every model that is a commutative semiring and respects
/// the constants; and what the pass hands out is well-formed.
pub proof fn lemma_simplify_keeps_polynomial<V>(m: Model<V>, t: Term, env: Seq<V>)
    requires
        m.is_semiring(),
        m.respects_constants(),
        t.well_formed(),
        polynomial(t),
        simplify(t) is Ok,
    ensures
        simplify(t)->Ok_0.well_formed(),
        value(m, simplify(t)->Ok_0, env) == value(m, t, env),
{
    lemma_polynomial_is_exact(t);
    lemma_simplify_exact(m, t, env);
}

/// The two laws of simplification in one: the rules of exponents are needed only where
/// a term holds more than constants, variables, sums and products.
proof fn lemma_simplify_exact<V>(m: Model<V>, t: Term, env: Seq<V>)
    requires
        m.is_semiring(),
        m.respects_constants(),
        m.respects_powers() || polynomial(t),
        t.well_formed(),
        exact_rules(t),
        simplify(t) is Ok,
    ensures
        simplify(t)->Ok_0.well_formed(),
        value(m, simplify(t)->Ok_0, env) == value(m, t, env),
    decreases t,
{
    let rs = simplify_all(t);
    lemma_values(m, t, env);
    assert forall|i: int| 0 <= i < t.args.len() implies m.respects_powers() || polynomial(
        #[trigger] t.args[i],
    ) by {}
    match t.kind {
        ExprKind::Pow | ExprKind::Exp | ExprKind::Ln | ExprKind::Func(_) => {
            lemma_collect_ok(rs);
            let ss = collect(rs)->Ok_0;
            assert forall|i: int| 0 <= i < ss.len() implies (#[trigger] ss[i]).well_formed()
                && value(m, ss[i], env) == value(m, t.args[i], env) by {
                assert(rs[i] == Ok::<Term, SimplifyError>(ss[i]));
                assert(exact_rules(t.args[i]));
                lemma_simplify_exact(m, t.args[i], env);
            }
            assert(values_of(m, ss, env) =~= values_of(m, t.args, env));
            let same = Term { kind: t.kind, args: ss };
            lemma_values(m, same, env);
            match t.kind {
                ExprKind::Pow => {
                    assert(rs[0] == Ok::<Term, SimplifyError>(ss[0]));
                    assert(rs[1] == Ok::<Term, SimplifyError>(ss[1]));
                    assert(ss[0].well_formed() && ss[1].well_formed());
                    if ss[0].kind == ExprKind::Pow {
                        lemma_nested_power(m, ss[0], ss[1], env);
                    } else {
                        lemma_power_rules(m, ss[0], ss[1], env);
                    }
                    assert(values_of(m, ss, env)[0] == value(m, ss[0], env));
                    assert(values_of(m, ss, env)[1] == value(m, ss[1], env));
                },
                ExprKind::Exp => {
                    let s = ss[0];
                    assert(rs[0] == Ok::<Term, SimplifyError>(s));
                    assert(s.well_formed());
                    assert(values_of(m, ss, env)[0] == value(m, s, env));
                    lemma_power_units(m, value(m, s, env));
                    if s.is_zero() {
                        lemma_number_units(m, s.kind->Const_0);
                    } else if s.kind == ExprKind::Ln {
                        lemma_values(m, s, env);
                        assert(values_of(m, s.args, env)[0] == value(m, s.args[0], env));
                        lemma_exp_of_ln(m, value(m, s.args[0], env));
                    } else {
                        let kept = Term { kind: ExprKind::Exp, args: seq![s] };
                        assert(kept.args =~= ss);
                    }
                },
                _ => {},
            }
        },
        ExprKind::Add => {
            lemma_collect_ok(rs);
            let ss = collect(rs)->Ok_0;
            assert forall|i: int| 0 <= i < ss.len() implies (#[trigger] ss[i]).well_formed()
                && value(m, ss[i], env) == value(m, t.args[i], env) by {
                assert(rs[i] == Ok::<Term, SimplifyError>(ss[i]));
                assert(exact_rules(t.args[i]));
                lemma_simplify_exact(m, t.args[i], env);
            }
            assert(values_of(m, ss, env) =~= values_of(m, t.args, env));
            lemma_sum_rule(m, ss, env);
        },
        ExprKind::Mul => {
            lemma_collect_factors(rs);
            match collect_factors(rs) {
                Ok(Some(ss)) => {
                    assert forall|i: int| 0 <= i < ss.len() implies (
                    #[trigger] ss[i]).well_formed() && value(m, ss[i], env) == value(
                        m,
                        t.args[i],
                        env,
                    ) by {
                        assert(rs[i] == Ok::<Term, SimplifyError>(ss[i]));
                        assert(exact_rules(t.args[i]));
                        lemma_simplify_exact(m, t.args[i], env);
                    }
                    assert(values_of(m, ss, env) =~= values_of(m, t.args, env));
                    lemma_product_rule(m, ss, env);
                },
                Ok(None) => {
                    let k = choose|k: int|
                        0 <= k < rs.len() && (#[trigger] rs[k]) is Ok && rs[k]->Ok_0.is_zero();
                    let z = rs[k]->Ok_0;
                    assert(exact_rules(t.args[k]));
                    lemma_simplify_exact(m, t.args[k], env);
                    lemma_number_units(m, z.kind->Const_0);
                    assert(values_of(m, t.args, env)[k] == m.zero());
                    lemma_whole_with_zero(m, values_of(m, t.args, env), k);
                },
                _ => {},
            }
        },
        _ => {},
    }
}

/// The values of a sum, a product and a difference of two terms.
proof fn lemma_binary_values<V>(m: Model<V>, a: Term, b: Term, env: Seq<V>)
    requires
        m.is_semiring(),
    ensures
        value(m, sum(a, b), env) == m.plus(value(m, a, env), value(m, b, env)),
        value(m, product(a, b), env) == m.times(value(m, a, env), value(m, b, env)),
        value(m, difference(a, b), env) == m.plus(
            value(m, a, env),
            m.times(value(m, Term::minus_one(), env), value(m, b, env)),
        ),
{
    let va = value(m, a, env);
    let vb = value(m, b, env);
    let n = value(m, Term::minus_one(), env);
    lemma_values(m, sum(a, b), env);
    lemma_values(m, product(a, b), env);
    assert(values_of(m, seq![a, b], env) =~= seq![va, vb]);
    lemma_total_small(m, va, vb);
    let negated = product(Term::minus_one(), b);
    lemma_values(m, negated, env);
    assert(values_of(m, seq![Term::minus_one(), b], env) =~= seq![n, vb]);
    lemma_total_small(m, n, vb);
    lemma_values(m, sum(a, negated), env);
    assert(values_of(m, seq![a, negated], env) =~= seq![va, m.times(n, vb)]);
    lemma_total_small(m, va, m.times(n, vb));
}

/// A value and minus one times it add up to zero.
proof fn lemma_cancel<V>(m: Model<V>, a: V)
    requires
        m.is_semiring(),
        m.respects_constants(),
    ensures
        m.plus(m.times(m.number(Scalar { re: (-1) as i64, im: 0, den: 1 }), a), a) == m.zero(),
{
    let minus = Scalar { re: (-1) as i64, im: 0, den: 1 };
    let plus = Scalar { re: 1, im: 0, den: 1 };
    reveal_with_fuel(gcd, 3);
    assert(gcd(0, 0) == 0);
    assert(gcd(0, 1) == 1);
    assert(crate::scalar::common_divisor(0, 0, 1) == 1);
    assert(crate::scalar::from_parts(0, 0, 1) == Some(Scalar { re: 0, im: 0, den: 1 }));
    assert(minus.re * plus.den + plus.re * minus.den == 0 && minus.im * plus.den + plus.im
        * minus.den == 0 && minus.den * plus.den == 1) by (nonlinear_arith)
        requires
            minus.re == -1,
            minus.im == 0,
            minus.den == 1,
            plus.re == 1,
            plus.im == 0,
            plus.den == 1,
    ;
    assert(minus.sum(plus) == Some(Scalar { re: 0, im: 0, den: 1 }));
    lemma_number_arithmetic(m, minus, plus);
    let n = m.number(minus);
    lemma_times_units(m, a);
    lemma_distributes(m, a, n, m.one());
    lemma_times_comm(m, a, n);
    lemma_times_comm(m, a, m.one());
}

/// The simplified product of `x + y` and `x - y` has the value of `x·x - y·y`.
pub proof fn lemma_difference_of_squares<V>(m: Model<V>, x: Var, y: Var, env: Seq<V>)
    requires
        m.is_semiring(),
        m.respects_constants(),
        simplify(
            product(
                sum(Term::leaf(ExprKind::Var(x)), Term::leaf(ExprKind::Var(y))),
                difference(Term::leaf(ExprKind::Var(x)), Term::leaf(ExprKind::Var(y))),
            ),
        ) is Ok,
    ensures
        value(
            m,
            simplify(
                product(
                    sum(Term::leaf(ExprKind::Var(x)), Term::leaf(ExprKind::Var(y))),
                    difference(Term::leaf(ExprKind::Var(x)), Term::leaf(ExprKind::Var(y))),
                ),
            )->Ok_0,
            env,
        ) == value(
            m,
            difference(
                product(Term::leaf(ExprKind::Var(x)), Term::leaf(ExprKind::Var(x))),
                product(Term::leaf(ExprKind::Var(y)), Term::leaf(ExprKind::Var(y))),
            ),
            env,
        ),
{
    let tx = Term::leaf(ExprKind::Var(x));
    let ty = Term::leaf(ExprKind::Var(y));
    let e = product(sum(tx, ty), difference(tx, ty));
    let minus = Term::minus_one();
    assert(tx.well_formed() && ty.well_formed() && minus.well_formed());
    assert(polynomial(tx) && polynomial(ty) && polynomial(minus));
    let negated = product(minus, ty);
    assert(negated.well_formed() && polynomial(negated)) by {
        assert forall|i: int| 0 <= i < negated.args.len() implies (
        #[trigger] negated.args[i]).well_formed() && polynomial(negated.args[i]) by {
            if i == 0 {
            } else {
            }
        }
    }
    let left = sum(tx, ty);
    let right = difference(tx, ty);
    assert(left.well_formed() && polynomial(left)) by {
        assert forall|i: int| 0 <= i < left.args.len() implies (
        #[trigger] left.args[i]).well_formed() && polynomial(left.args[i]) by {
            if i == 0 {
            } else {
            }
        }
    }
    assert(right.well_formed() && polynomial(right)) by {
        assert forall|i: int| 0 <= i < right.args.len() implies (
        #[trigger] right.args[i]).well_formed() && polynomial(right.args[i]) by {
            if i == 0 {
            } else {
            }
        }
    }
    assert(e.well_formed() && polynomial(e)) by {
        assert forall|i: int| 0 <= i < e.args.len() implies (#[trigger] e.args[i]).well_formed()
            && polynomial(e.args[i]) by {
            if i == 0 {
            } else {
            }
        }
    }
    lemma_simplify_keeps_polynomial(m, e, env);
    let vx = value(m, tx, env);
    let vy = value(m, ty, env);
    let n = value(m, minus, env);
    lemma_binary_values(m, tx, ty, env);
    lemma_binary_values(m, left, right, env);
    lemma_binary_values(m, tx, tx, env);
    lemma_binary_values(m, ty, ty, env);
    lemma_binary_values(m, product(tx, tx), product(ty, ty), env);
    let ny = m.times(n, vy);
    // (x + y) · (x + n·y) = (x·x + x·(n·y)) + (y·x + y·(n·y))
    lemma_distributes(m, m.plus(vx, ny), vx, vy);
    lemma_distributes(m, vx, vx, ny);
    lemma_distributes(m, vy, vx, ny);
    let xx = m.times(vx, vx);
    let xy = m.times(vx, vy);
    let yy = m.times(vy, vy);
    // x·(n·y) = n·(x·y) and y·(n·y) = n·(y·y)
    lemma_times_assoc(m, vx, n, vy);
    lemma_times_comm(m, vx, n);
    lemma_times_assoc(m, n, vx, vy);
    lemma_times_assoc(m, vy, n, vy);
    lemma_times_comm(m, vy, n);
    lemma_times_assoc(m, n, vy, vy);
    lemma_times_comm(m, vy, vx);
    let nxy = m.times(n, xy);
    let nyy = m.times(n, yy);
    assert(m.times(m.plus(vx, vy), m.plus(vx, ny)) == m.plus(
        m.plus(xx, nxy),
        m.plus(xy, nyy),
    ));
    // the mixed terms cancel
    lemma_cancel(m, xy);
    lemma_plus_assoc(m, xx, nxy, m.plus(xy, nyy));
    lemma_plus_assoc(m, nxy, xy, nyy);
    lemma_plus_zero(m, nyy);
}

} // verus!
