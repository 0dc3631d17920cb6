//! A small computer-algebra kernel: expression trees in an arena, symbolic
//! differentiation, one-pass simplification, and evaluation plans, over exact complex
//! rational constants.

pub mod calculus;
pub mod curvature;
pub mod expression;
pub mod machine;
pub mod matrix;
pub mod render;
pub mod rewriting;
pub mod scalar;
pub mod semantics;
pub mod system;
pub mod term;
pub mod traversal;
pub mod tree;

pub use expression::algebra::{Expressable, Expression};
pub use expression::diff::DiffError;
pub use expression::eval::{EvalError, Step};
pub use expression::simplify::SimplifyError;
pub use expression::{treeify_node, ExprKind, Expressand, Function, Var};
pub use matrix::SqMatrix;
pub use scalar::Scalar;
pub use system::System;
pub use traversal::{Leaf, LeafId, TreeElement, TreeIterBfs, TreeIterDfs};
pub use tree::{Checkpoint, Node, NodeId, Tree};
