use vstd::prelude::*;

verus! {

/// The elementary functions that an expression can apply.
#[derive(Clone, Copy, Debug, PartialEq, Eq, Structural)]
pub enum Function {
    Sin,
    Cos,
}

impl Function {
    /// The number of arguments that the function takes.
    pub open spec fn arity(self) -> nat {
        1
    }

    /// The name under which the function is written out.
    pub open spec fn name(self) -> Seq<char> {
        match self {
            Function::Sin => "sin"@,
            Function::Cos => "cos"@,
        }
    }

    /// The name under which the function is written out.
    pub fn str(&self) -> (r: &'static str)
        ensures
            r@ == self.name(),
    {
        match self {
            Function::Sin => "sin",
            Function::Cos => "cos",
        }
    }
}

} // verus!
