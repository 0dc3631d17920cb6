use vstd::prelude::*;

verus! {

/// Handle of a registered symbol. Two handles name the same variable exactly when their
/// ids agree; ids index the bindings handed to an evaluation.
#[derive(Clone, Copy, Debug, PartialEq, Eq, Structural)]
pub struct Var {
    pub id: usize,
}

} // verus!
