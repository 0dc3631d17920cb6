//! The mathematical model of an expression: a term is a kind with an ordered sequence of
//! argument terms.

use crate::expression::ExprKind;
use crate::scalar::Scalar;
use vstd::prelude::*;

verus! {

/// An algebraic term.
pub ghost struct Term {
    pub kind: ExprKind,
    pub args: Seq<Term>,
}

/// Whether a node of the given kind may have `n` arguments. A root stands for an
/// expression only where it has none: it then denotes zero.
pub open spec fn arity_admits(kind: ExprKind, n: nat) -> bool {
    match kind {
        ExprKind::Root | ExprKind::Var(_) | ExprKind::Const(_) => n == 0,
        ExprKind::Add | ExprKind::Mul => true,
        ExprKind::Pow => n == 2,
        ExprKind::Exp | ExprKind::Ln => n == 1,
        ExprKind::Func(f) => n == f.arity(),
    }
}

impl Term {
    /// The term without arguments of the given kind.
    pub open spec fn leaf(kind: ExprKind) -> Term {
        Term { kind, args: Seq::empty() }
    }

    /// The constant `c`.
    pub open spec fn constant(c: Scalar) -> Term {
        Term::leaf(ExprKind::Const(c))
    }

    /// The integer constant `n`.
    pub open spec fn integer(n: i64) -> Term {
        Term::constant(Scalar { re: n, im: 0, den: 1 })
    }

    /// The constant minus one.
    pub open spec fn minus_one() -> Term {
        Term::constant(Scalar { re: (-1) as i64, im: 0, den: 1 })
    }

    /// Every node has as many arguments as its kind takes, and every constant denotes a
    /// number.
    pub open spec fn well_formed(self) -> bool
        decreases self,
    {
        &&& arity_admits(self.kind, self.args.len())
        &&& self.kind matches ExprKind::Const(c) ==> c.well_formed()
        &&& forall|i: int| 0 <= i < self.args.len() ==> (#[trigger] self.args[i]).well_formed()
    }

    /// The term is the constant leaf whose value is zero.
    pub open spec fn is_zero(self) -> bool {
        self.kind matches ExprKind::Const(c) && c.zero_valued()
    }

    /// The term is the constant leaf whose value is one.
    pub open spec fn is_one(self) -> bool {
        self.kind matches ExprKind::Const(c) && c.one_valued()
    }
}

} // verus!
