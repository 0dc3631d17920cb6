//! Evaluation plans.
//!
//! An expression is evaluated by a stack machine: the operands of a node are computed
//! first, from left to right, then the node's own step combines them. The library lays
//! out the steps; the arithmetic on the numbers is the caller's.

use crate::expression::{ExprKind, Expressand, Function};
use crate::scalar::Scalar;
use crate::term::Term;
use crate::tree::{child_of, done_of, NodeId};
use vstd::prelude::*;

verus! {

/// Why an expression has no evaluation plan.
#[derive(Clone, Copy, Debug, PartialEq, Eq, Structural)]
pub enum EvalError {
    /// The bindings are fewer than the registered variables, or a variable of the
    /// expression lies beyond them.
    MissingBinding,
}

/// One step of an evaluation.
#[derive(Clone, Copy, Debug, PartialEq, Eq, Structural)]
pub enum Step {
    /// Push the constant.
    Const(Scalar),
    /// Push the binding of the variable with this id.
    Var(usize),
    /// Replace the topmost `n` values by their sum, zero for none.
    Sum(usize),
    /// Replace the topmost `n` values by their product, one for none.
    Product(usize),
    /// Replace the base and the exponent above it by the power.
    Power,
    /// Replace the topmost value by its exponential.
    Exp,
    /// Replace the topmost value by its natural logarithm.
    Ln,
    /// Replace the topmost values by the function applied to them.
    Apply(Function),
}

/// The step that combines the operands of a node of `kind` with `n` operands.
pub open spec fn step_of(kind: ExprKind, n: nat) -> Step {
    match kind {
        ExprKind::Const(c) => Step::Const(c),
        ExprKind::Var(v) => Step::Var(v.id),
        ExprKind::Root | ExprKind::Add => Step::Sum(n as usize),
        ExprKind::Mul => Step::Product(n as usize),
        ExprKind::Pow => Step::Power,
        ExprKind::Exp => Step::Exp,
        ExprKind::Ln => Step::Ln,
        ExprKind::Func(f) => Step::Apply(f),
    }
}

/// The steps that evaluate the first `n` operands of `t`, in order.
pub open spec fn operand_steps(t: Term, n: int) -> Seq<Step>
    decreases t, n,
{
    if n <= 0 || n > t.args.len() {
        Seq::empty()
    } else {
        operand_steps(t, n - 1) + program(t.args[n - 1])
    }
}

/// The steps that evaluate `t`: those of its operands, then its own.
pub open spec fn program(t: Term) -> Seq<Step>
    decreases t, t.args.len() + 1,
{
    operand_steps(t, t.args.len() as int).push(step_of(t.kind, t.args.len()))
}

/// No node of the term has more operands than a machine word counts, so that every
/// step of its plan names the number of its operands.
pub open spec fn countable(t: Term) -> bool
    decreases t,
{
    &&& t.args.len() <= usize::MAX
    &&& forall|i: int| 0 <= i < t.args.len() ==> countable(#[trigger] t.args[i])
}

/// Every variable of the term has an id below `n`.
pub open spec fn bound_by(t: Term, n: nat) -> bool
    decreases t,
{
    &&& t.kind matches ExprKind::Var(v) ==> v.id < n
    &&& forall|i: int| 0 <= i < t.args.len() ==> bound_by(#[trigger] t.args[i], n)
}

/// Appends the steps of the subexpression at `id` to `out`.
fn lay_out(source: &Expressand, id: NodeId, out: &mut Vec<Step>)
    requires
        id.0 < source.spec_tree().spec_len(),
    ensures
        final(out)@ == old(out)@ + program(source.spec_tree().term_at(id)),
        countable(source.spec_tree().term_at(id)),
    decreases source.spec_tree().spec_len() - id.0,
{
    let tree = source.tree();
    let node = tree.node(id);
    let kind = node.kind();
    let children = node.children();
    let ghost term = tree.term_at(id);
    let ghost start = out@;
    proof {
        tree.lemma_term_at(id);
        assert(start + operand_steps(term, 0) =~= start);
    }
    let mut k: usize = 0;
    while k < children.len()
        invariant
            k <= children@.len(),
            id.0 < source.spec_tree().spec_len(),
            tree == source.spec_tree(),
            tree.wf(),
            term == tree.term_at(id),
            children@ == tree.nodes()[id.0 as int].children,
            term.args == done_of(tree.nodes(), id.0 as int, children@.len() as int),
            forall|w: int|
                0 <= w < children@.len() ==> id.0 < (#[trigger] children@[w]).0 < tree.spec_len(),
            out@ == start + operand_steps(term, k as int),
            forall|w: int| 0 <= w < k ==> countable(#[trigger] term.args[w]),
        decreases children@.len() - k,
    {
        proof {
            assert(child_of(tree.nodes(), id.0 as int, k as int) == children@[k as int].0);
            assert(term.args[k as int] == tree.term_at(children@[k as int]));
        }
        lay_out(source, children[k], out);
        proof {
            assert(out@ =~= start + operand_steps(term, k + 1));
        }
        k += 1;
    }
    let step = match kind {
        ExprKind::Const(c) => Step::Const(c),
        ExprKind::Var(v) => Step::Var(v.id),
        ExprKind::Root | ExprKind::Add => Step::Sum(children.len()),
        ExprKind::Mul => Step::Product(children.len()),
        ExprKind::Pow => Step::Power,
        ExprKind::Exp => Step::Exp,
        ExprKind::Ln => Step::Ln,
        ExprKind::Func(f) => Step::Apply(f),
    };
    out.push(step);
    proof {
        assert(out@ =~= start + program(term));
    }
}

/// Whether every variable of the subexpression at `id` has an id below `n`.
fn bound_at(source: &Expressand, id: NodeId, n: usize) -> (r: bool)
    requires
        id.0 < source.spec_tree().spec_len(),
    ensures
        r == bound_by(source.spec_tree().term_at(id), n as nat),
    decreases source.spec_tree().spec_len() - id.0,
{
    let tree = source.tree();
    let node = tree.node(id);
    let kind = node.kind();
    let children = node.children();
    let ghost term = tree.term_at(id);
    proof {
        tree.lemma_term_at(id);
    }
    match kind {
        ExprKind::Var(v) => {
            if v.id >= n {
                return false;
            }
        },
        _ => {},
    }
    let mut k: usize = 0;
    while k < children.len()
        invariant
            k <= children@.len(),
            id.0 < source.spec_tree().spec_len(),
            tree == source.spec_tree(),
            tree.wf(),
            term == tree.term_at(id),
            children@ == tree.nodes()[id.0 as int].children,
            term.args == done_of(tree.nodes(), id.0 as int, children@.len() as int),
            forall|w: int|
                0 <= w < children@.len() ==> id.0 < (#[trigger] children@[w]).0 < tree.spec_len(),
            forall|w: int| 0 <= w < k ==> bound_by(#[trigger] term.args[w], n as nat),
        decreases children@.len() - k,
    {
        proof {
            assert(child_of(tree.nodes(), id.0 as int, k as int) == children@[k as int].0);
            assert(term.args[k as int] == tree.term_at(children@[k as int]));
        }
        if !bound_at(source, children[k], n) {
            return false;
        }
        k += 1;
    }
    true
}

impl Expressand {
    /// The steps that evaluate the expression.
    pub fn program(&self) -> (r: Vec<Step>)
        ensures
            r@ == program(self@),
            countable(self@),
    {
        let mut out: Vec<Step> = Vec::new();
        let top = self.top();
        lay_out(self, top, &mut out);
        proof {
            assert(Seq::<Step>::empty() + program(self@) =~= program(self@));
        }
        out
    }

    /// Whether `n` bindings suffice: every variable of the expression has an id below `n`.
    pub fn bound_by(&self, n: usize) -> (r: bool)
        ensures
            r == bound_by(self@, n as nat),
    {
        let top = self.top();
        bound_at(self, top, n)
    }
}

} // verus!
