//! The stack machine that carries out an evaluation plan, and the proof that the plan of
//! a term leaves the value of the term on the stack.

use crate::expression::eval::{countable, operand_steps, program, step_of, Step};
use crate::expression::ExprKind;
use crate::semantics::{lemma_values, value, values_of, Model};
use crate::term::Term;
use vstd::prelude::*;

verus! {

/// The stack after one step.
pub open spec fn after<V>(m: Model<V>, step: Step, env: Seq<V>, stack: Seq<V>) -> Seq<V> {
    let n = stack.len() as int;
    match step {
        Step::Const(c) => stack.push(m.number(c)),
        Step::Var(i) => stack.push(env[i as int]),
        Step::Sum(k) => stack.take(n - k).push(m.total(stack.skip(n - k))),
        Step::Product(k) => stack.take(n - k).push(m.whole(stack.skip(n - k))),
        Step::Power => stack.take(n - 2).push((m.pow)(stack[n - 2], stack[n - 1])),
        Step::Exp => stack.take(n - 1).push((m.exp)(stack[n - 1])),
        Step::Ln => stack.take(n - 1).push((m.ln)(stack[n - 1])),
        Step::Apply(f) => stack.take(n - 1).push(m.apply(f, stack[n - 1])),
    }
}

/// The stack after the steps, carried out in order.
pub open spec fn run<V>(m: Model<V>, steps: Seq<Step>, env: Seq<V>, stack: Seq<V>) -> Seq<V>
    decreases steps.len(),
{
    if steps.len() == 0 {
        stack
    } else {
        after(m, steps.last(), env, run(m, steps.drop_last(), env, stack))
    }
}

/// Two runs of steps, one after the other.
pub proof fn lemma_run_add<V>(
    m: Model<V>,
    a: Seq<Step>,
    b: Seq<Step>,
    env: Seq<V>,
    stack: Seq<V>,
)
    ensures
        run(m, a + b, env, stack) == run(m, b, env, run(m, a, env, stack)),
    decreases b.len(),
{
    if b.len() == 0 {
        assert(a + b =~= a);
    } else {
        assert((a + b).drop_last() =~= a + b.drop_last());
        lemma_run_add(m, a, b.drop_last(), env, stack);
    }
}

/// The steps of the first `k` operands leave their values on the stack, in order.
proof fn lemma_operands_run<V>(m: Model<V>, t: Term, k: int, env: Seq<V>, stack: Seq<V>)
    requires
        t.well_formed(),
        countable(t),
        0 <= k <= t.args.len(),
    ensures
        run(m, operand_steps(t, k), env, stack) == stack + values_of(m, t.args.take(k), env),
    decreases t, k,
{
    if k == 0 {
        assert(stack + values_of(m, t.args.take(0), env) =~= stack);
    } else {
        lemma_operands_run(m, t, k - 1, env, stack);
        let before = run(m, operand_steps(t, k - 1), env, stack);
        lemma_run_add(m, operand_steps(t, k - 1), program(t.args[k - 1]), env, stack);
        lemma_program_runs(m, t.args[k - 1], env, before);
        assert(before.push(value(m, t.args[k - 1], env)) =~= stack + values_of(
            m,
            t.args.take(k),
            env,
        ));
    }
}

/// The plan of a well-formed term leaves the value of the term on top of the stack, and
/// the stack below as it was.
pub proof fn lemma_program_runs<V>(m: Model<V>, t: Term, env: Seq<V>, stack: Seq<V>)
    requires
        t.well_formed(),
        countable(t),
    ensures
        run(m, program(t), env, stack) == stack.push(value(m, t, env)),
    decreases t, t.args.len() + 1,
{
    let n = t.args.len() as int;
    let steps = operand_steps(t, n);
    lemma_operands_run(m, t, n, env, stack);
    let vs = values_of(m, t.args, env);
    assert(t.args.take(n) =~= t.args);
    let loaded = stack + vs;
    assert(run(m, steps, env, stack) == loaded);
    assert(program(t).drop_last() =~= steps);
    assert(program(t).last() == step_of(t.kind, t.args.len()));
    lemma_values(m, t, env);
    let depth = loaded.len() as int;
    assert(loaded.take(depth - n) =~= stack);
    assert(loaded.skip(depth - n) =~= vs);
    match t.kind {
        ExprKind::Pow => {
            assert(loaded[depth - 2] == vs[0]);
            assert(loaded[depth - 1] == vs[1]);
        },
        ExprKind::Exp | ExprKind::Ln | ExprKind::Func(_) => {
            assert(loaded[depth - 1] == vs[0]);
        },
        _ => {},
    }
}

} // verus!
