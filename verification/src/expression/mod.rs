pub mod algebra;
pub mod diff;
pub mod eval;
pub mod function;
pub mod simplify;
pub mod trig_func;
pub mod var;

use crate::scalar::Scalar;
use crate::term::Term;
use crate::tree::{child_of, done_of, Frame, NodeId, Tree};
use vstd::prelude::*;

pub use function::Function;
pub use var::Var;

verus! {

/// What a node of an expression tree is.
///
/// `Var` and `Const` are leaves. `Add` and `Mul` take any number of operands, `Pow` a base
/// and an exponent, `Exp` and `Ln` one argument, `Func` the arguments of its function.
/// `Root` marks the synthetic first node of a tree; as an expression it takes no operand
/// and stands for zero.
#[derive(Clone, Copy, Debug, PartialEq, Eq, Structural)]
pub enum ExprKind {
    Root,
    Var(Var),
    Const(Scalar),
    Add,
    Mul,
    Pow,
    Exp,
    Ln,
    Func(Function),
}

/// Copies the subtree at `id` into a tree of its own. For the root, the copy holds all
/// top-level terms of `tree`.
pub fn treeify_node(tree: &Tree, id: NodeId) -> (r: Tree)
    requires
        tree.wf(),
        id.0 < tree.spec_len(),
    ensures
        r.wf(),
        r.finished(),
        id.0 != 0 ==> r.terms() == seq![tree.term_at(id)],
        id.0 == 0 ==> r.terms() == tree.term_at(id).args,
    decreases tree.spec_len() - id.0,
{
    let node = tree.node(id);
    let kind = node.kind();
    let children = node.children();
    let mut new_tree = Tree::new();
    if id.0 != 0 {
        new_tree.start_node(kind);
    }
    proof {
        tree.lemma_term_at(id);
    }
    let ghost base = new_tree.frames();
    proof {
        assert(done_of(tree.nodes(), id.0 as int, 0) =~= Seq::<Term>::empty());
        assert(new_tree.frames() =~= base.update(
            base.len() - 1,
            Frame { kind: base.last().kind, done: done_of(tree.nodes(), id.0 as int, 0) },
        ));
    }
    let mut k: usize = 0;
    while k < children.len()
        invariant
            k <= children@.len(),
            tree.wf(),
            id.0 < tree.spec_len(),
            children@ == tree.nodes()[id.0 as int].children,
            forall|w: int|
                0 <= w < children@.len() ==> id.0 < (#[trigger] children@[w]).0 < tree.spec_len(),
            new_tree.wf(),
            base.len() == (if id.0 != 0 {
                2int
            } else {
                1int
            }),
            base.last().done.len() == 0,
            new_tree.frames() == base.update(
                base.len() - 1,
                Frame {
                    kind: base.last().kind,
                    done: done_of(tree.nodes(), id.0 as int, k as int),
                },
            ),
        decreases children@.len() - k,
    {
        let child = treeify_node(tree, children[k]);
        new_tree.push_tree(child);
        proof {
            assert(child_of(tree.nodes(), id.0 as int, k as int) == children@[k as int].0);
            assert(done_of(tree.nodes(), id.0 as int, k as int) + seq![
                tree.term_at(children@[k as int]),
            ] =~= done_of(tree.nodes(), id.0 as int, k + 1));
        }
        k += 1;
    }
    if id.0 != 0 {
        new_tree.finish_node();
        proof {
            assert(new_tree.frames() =~= seq![
                Frame { kind: ExprKind::Root, done: seq![tree.term_at(id)] },
            ]);
        }
    }
    new_tree
}

/// One expression: a finished tree with a single top-level term, which is well-formed,
/// or a finished tree of the root alone, which stands for zero.
///
/// The value is never changed once it is made; every operation hands out a new one.
#[derive(Debug)]
pub struct Expressand {
    tree: Tree,
}

/// The terms of a sequence of expressions.
pub open spec fn views(parts: Seq<Expressand>) -> Seq<Term> {
    Seq::new(parts.len(), |i: int| parts[i]@)
}

/// The terms of two sequences of expressions, one after the other.
pub proof fn lemma_views_add(a: Seq<Expressand>, b: Seq<Expressand>)
    ensures
        views(a + b) == views(a) + views(b),
{
    assert(views(a + b) =~= views(a) + views(b));
}

/// The terms of the first `k + 1` expressions are those of the first `k` with the term
/// of the next.
pub proof fn lemma_views_take(all: Seq<Expressand>, k: int)
    requires
        0 <= k < all.len(),
    ensures
        views(all.take(k + 1)) == views(all.take(k)).push(all[k]@),
        views(all.take(k + 1)).drop_last() == views(all.take(k)),
        views(all.take(k + 1)).last() == all[k]@,
{
    assert(views(all.take(k + 1)) =~= views(all.take(k)).push(all[k]@));
    assert(views(all.take(k + 1)).drop_last() =~= views(all.take(k)));
}

/// The terms of none and of all of the expressions of a sequence.
pub proof fn lemma_views_ends(all: Seq<Expressand>)
    ensures
        views(all.take(0)) == Seq::<Term>::empty(),
        views(all.take(all.len() as int)) == views(all),
        views(Seq::<Expressand>::empty()) == Seq::<Term>::empty(),
{
    assert(views(all.take(0)) =~= Seq::<Term>::empty());
    assert(all.take(all.len() as int) =~= all);
    assert(views(Seq::<Expressand>::empty()) =~= Seq::<Term>::empty());
}

/// The terms of a sequence with one more expression are the terms of the sequence with
/// the term of that expression.
pub proof fn lemma_views_push(parts: Seq<Expressand>, part: Expressand)
    ensures
        views(parts.push(part)) == views(parts).push(part@),
{
    assert(views(parts.push(part)) =~= views(parts).push(part@));
}

impl Clone for Expressand {
    /// A copy of the expression.
    fn clone(&self) -> (r: Expressand)
        ensures
            r@ == self@,
    {
        let top = self.top();
        proof {
            use_type_invariant(self);
        }
        self.subterm(top)
    }
}

/// The term that a tree with the given top-level terms holds: the first of them, or a
/// root without arguments where there is none.
pub open spec fn held(terms: Seq<Term>) -> Term {
    if terms.len() == 0 {
        Term::leaf(ExprKind::Root)
    } else {
        terms[0]
    }
}

impl View for Expressand {
    type V = Term;

    closed spec fn view(&self) -> Term {
        held(self.tree.terms())
    }
}

impl Expressand {
    #[verifier::type_invariant]
    spec fn inv(self) -> bool {
        &&& self.tree.wf()
        &&& self.tree.finished()
        &&& self.tree.terms().len() <= 1
        &&& held(self.tree.terms()).well_formed()
    }

    /// The tree of the expression.
    pub closed spec fn spec_tree(&self) -> Tree {
        self.tree
    }

    /// The expression that a finished tree holds, if it holds at most one top-level term
    /// and that term is well-formed. A tree without a top-level term holds the expression
    /// that is a root without arguments.
    pub fn new(tree: Tree) -> (r: Option<Expressand>)
        requires
            tree.wf(),
        ensures
            r.is_some() == (tree.finished() && tree.terms().len() <= 1 && held(
                tree.terms(),
            ).well_formed()),
            r matches Some(e) ==> e.spec_tree() == tree && e@ == held(tree.terms()),
    {
        if !tree.is_finished() {
            return None;
        }
        let root = tree.root();
        proof {
            tree.lemma_term_at(NodeId(0));
        }
        if root.children().len() == 0 {
            assert(tree.terms() =~= Seq::<Term>::empty());
            return Some(Expressand { tree });
        }
        if root.children().len() != 1 {
            return None;
        }
        let top = root.children()[0];
        proof {
            assert(tree.terms() =~= seq![tree.term_at(top)]);
        }
        if !well_formed_at(&tree, top) {
            return None;
        }
        Some(Expressand { tree })
    }

    /// The tree of the expression: it is finished and holds the term of the expression,
    /// which is well-formed, and nothing else.
    pub fn tree(&self) -> (r: &Tree)
        ensures
            r == self.spec_tree(),
            r.wf(),
            r.finished(),
            r.terms().len() <= 1,
            self@ == held(r.terms()),
            self@.well_formed(),
    {
        proof {
            use_type_invariant(self);
        }
        &self.tree
    }

    /// The id of the node of the expression's term: the one top-level node, or the root
    /// where the tree holds nothing else.
    pub fn top(&self) -> (id: NodeId)
        ensures
            id.0 < self.spec_tree().spec_len(),
            self.spec_tree().term_at(id) == self@,
            self@.well_formed(),
    {
        proof {
            use_type_invariant(self);
        }
        let root = self.tree.root();
        proof {
            self.tree.lemma_term_at(NodeId(0));
        }
        if root.children().len() == 0 {
            proof {
                assert(self.tree.terms() =~= Seq::<Term>::empty());
                assert(self.tree.term_at(NodeId(0)).args =~= Seq::<Term>::empty());
            }
            return NodeId(0);
        }
        let top = root.children()[0];
        proof {
            assert(self.tree.terms()[0] == self.tree.term_at(top));
        }
        top
    }

    /// The kind of the top-level node.
    pub fn kind(&self) -> (r: ExprKind)
        ensures
            r == self@.kind,
            self@.well_formed(),
    {
        let top = self.top();
        proof {
            use_type_invariant(self);
            self.tree.lemma_term_at(top);
        }
        self.tree.node(top).kind()
    }

    /// The expression that is one variable or one constant.
    pub fn leaf(kind: ExprKind) -> (r: Expressand)
        requires
            Term::leaf(kind).well_formed(),
        ensures
            r@ == Term::leaf(kind),
    {
        let mut tree = Tree::new();
        tree.push(kind);
        proof {
            assert(tree.frames()[0].done =~= seq![Term::leaf(kind)]);
        }
        Expressand { tree }
    }

    /// The constant `c`.
    pub fn constant(c: Scalar) -> (r: Expressand)
        requires
            c.well_formed(),
        ensures
            r@ == Term::constant(c),
    {
        Expressand::leaf(ExprKind::Const(c))
    }

    /// The integer constant `n`.
    pub fn integer(n: i64) -> (r: Expressand)
        ensures
            r@ == Term::integer(n),
    {
        Expressand::leaf(ExprKind::Const(Scalar::integer(n)))
    }

    /// The variable `v`.
    pub fn variable(v: Var) -> (r: Expressand)
        ensures
            r@ == Term::leaf(ExprKind::Var(v)),
    {
        Expressand::leaf(ExprKind::Var(v))
    }

    /// The expression of one node of the given kind over the given operands.
    pub fn compose(kind: ExprKind, parts: Vec<Expressand>) -> (r: Expressand)
        requires
            crate::term::arity_admits(kind, parts@.len()),
            kind matches ExprKind::Const(c) ==> c.well_formed(),
        ensures
            r@ == (Term { kind, args: views(parts@) }),
    {
        let mut tree = Tree::new();
        tree.start_node(kind);
        let ghost all = parts@;
        proof {
            assert(views(all.take(0)) =~= Seq::<Term>::empty());
            assert(tree.frames() =~= seq![
                Frame { kind: ExprKind::Root, done: Seq::empty() },
                Frame { kind, done: views(all.take(0)) },
            ]);
        }
        for part in it: parts
            invariant
                it.seq() == all,
                tree.wf(),
                tree.frames() == seq![
                    Frame { kind: ExprKind::Root, done: Seq::empty() },
                    Frame { kind, done: views(all.take(it.index() as int)) },
                ],
                forall|i: int| 0 <= i < it.index() ==> (#[trigger] views(all)[i]).well_formed(),
        {
            proof {
                use_type_invariant(&part);
                assert(part == all[it.index() as int]);
                assert(views(all.take(it.index() as int)) + seq![part@] =~= views(
                    all.take(it.index() + 1),
                ));
                assert(views(all)[it.index() as int] == part@);
            }
            let bare = part.tree.root().children().len() == 0;
            proof {
                part.tree.lemma_term_at(NodeId(0));
            }
            if bare {
                tree.push(ExprKind::Root);
                proof {
                    assert(part.tree.terms() =~= Seq::<Term>::empty());
                    assert(views(all.take(it.index() as int)).push(Term::leaf(ExprKind::Root))
                        =~= views(all.take(it.index() as int)) + seq![part@]);
                }
            } else {
                proof {
                    assert(part.tree.terms() =~= seq![part@]);
                }
                tree.push_tree(part.tree);
            }
        }
        proof {
            assert(all.take(all.len() as int) =~= all);
        }
        tree.finish_node();
        proof {
            assert(tree.frames()[0].done =~= seq![Term { kind, args: views(all) }]);
            assert((Term { kind, args: views(all) }).well_formed());
        }
        Expressand { tree }
    }

    /// Copies of the operands of the top-level node, in order.
    pub fn operands(&self) -> (r: Vec<Expressand>)
        ensures
            views(r@) == self@.args,
    {
        let top = self.top();
        proof {
            use_type_invariant(self);
            self.tree.lemma_term_at(top);
        }
        let children = self.tree.node(top).children();
        let mut parts: Vec<Expressand> = Vec::new();
        let mut k: usize = 0;
        while k < children.len()
            invariant
                k <= children@.len(),
                top.0 < self.spec_tree().spec_len(),
                self.spec_tree().term_at(top) == self@,
                self@.well_formed(),
                children@ == self.spec_tree().nodes()[top.0 as int].children,
                self@.args == done_of(
                    self.spec_tree().nodes(),
                    top.0 as int,
                    children@.len() as int,
                ),
                forall|w: int|
                    0 <= w < children@.len() ==> top.0 < (#[trigger] children@[w]).0
                        < self.spec_tree().spec_len(),
                views(parts@) == self@.args.take(k as int),
            decreases children@.len() - k,
        {
            proof {
                assert(child_of(self.tree.nodes(), top.0 as int, k as int) == children@[k as int].0);
                assert(self@.args[k as int] == self.tree.term_at(children@[k as int]));
            }
            let part = self.subterm(children[k]);
            proof {
                lemma_views_push(parts@, part);
                assert(self@.args.take(k as int).push(self@.args[k as int]) =~= self@.args.take(
                    k + 1,
                ));
            }
            parts.push(part);
            k += 1;
        }
        proof {
            assert(self@.args.take(k as int) =~= self@.args);
        }
        parts
    }

    /// Whether the expression is a constant of value zero.
    pub fn is_zero(&self) -> (r: bool)
        ensures
            r == self@.is_zero(),
    {
        match self.kind() {
            ExprKind::Const(c) => c.is_zero(),
            _ => false,
        }
    }

    /// Whether the expression is a constant of value one.
    pub fn is_one(&self) -> (r: bool)
        ensures
            r == self@.is_one(),
    {
        match self.kind() {
            ExprKind::Const(c) => c.is_one(),
            _ => false,
        }
    }

    /// A copy of the subexpression at the node `id`.
    pub fn subterm(&self, id: NodeId) -> (r: Expressand)
        requires
            id.0 < self.spec_tree().spec_len(),
            self.spec_tree().term_at(id).well_formed(),
        ensures
            r@ == self.spec_tree().term_at(id),
    {
        proof {
            use_type_invariant(self);
            self.tree.lemma_term_at(id);
            self.tree.lemma_wf();
        }
        let tree = treeify_node(&self.tree, id);
        proof {
            if id.0 == 0 {
                assert(self.tree.term_at(id).args =~= Seq::<Term>::empty());
                assert(tree.terms() =~= Seq::<Term>::empty());
            }
        }
        Expressand { tree }
    }
}

/// Whether the term at the node `id` is well-formed.
pub fn well_formed_at(tree: &Tree, id: NodeId) -> (r: bool)
    requires
        tree.wf(),
        id.0 < tree.spec_len(),
    ensures
        r == tree.term_at(id).well_formed(),
    decreases tree.spec_len() - id.0,
{
    let node = tree.node(id);
    let kind = node.kind();
    let children = node.children();
    proof {
        tree.lemma_term_at(id);
    }
    let count = children.len();
    let fits = match kind {
        ExprKind::Root | ExprKind::Var(_) => count == 0,
        ExprKind::Const(c) => count == 0 && c.den > 0,
        ExprKind::Add | ExprKind::Mul => true,
        ExprKind::Pow => count == 2,
        ExprKind::Exp | ExprKind::Ln => count == 1,
        ExprKind::Func(_) => count == 1,
    };
    if !fits {
        return false;
    }
    let mut k: usize = 0;
    while k < count
        invariant
            k <= count,
            count == children@.len(),
            tree.wf(),
            id.0 < tree.spec_len(),
            children@ == tree.nodes()[id.0 as int].children,
            forall|w: int|
                0 <= w < children@.len() ==> id.0 < (#[trigger] children@[w]).0 < tree.spec_len(),
            tree.term_at(id).args == done_of(tree.nodes(), id.0 as int, count as int),
            forall|w: int| 0 <= w < k ==> (#[trigger] tree.term_at(id).args[w]).well_formed(),
        decreases count - k,
    {
        let ok = well_formed_at(tree, children[k]);
        proof {
            assert(child_of(tree.nodes(), id.0 as int, k as int) == children@[k as int].0);
            assert(tree.term_at(id).args[k as int] == tree.term_at(children@[k as int]));
        }
        if !ok {
            return false;
        }
        k += 1;
    }
    true
}

} // verus!
