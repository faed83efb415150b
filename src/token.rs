use vstd::prelude::*;

verus! {

/// A binary arithmetic operator.
#[derive(Debug, Clone, Copy, PartialEq, Eq, Structural)]
pub enum Operator {
    Add,
    Sub,
    Mul,
    Div,
}

/// One lexical unit of an expression.
#[derive(Debug, Clone, Copy, PartialEq, Eq, Structural)]
pub enum Token {
    Number(u32),
    Op(Operator),
    Bracket(char),
}

/// Why a text could not be tokenized.
#[derive(Debug, Clone, Copy, PartialEq, Eq, Structural)]
pub enum CalcError {
    BadToken(char),
    MismatchedParens,
}

/// The three stages of the evaluator, as associated functions.
pub struct Calculator {}

/// Precedence tier of an operator: additive operators bind less tightly than
/// multiplicative ones.
pub open spec fn tier(op: Operator) -> nat {
    match op {
        Operator::Add | Operator::Sub => 0,
        Operator::Mul | Operator::Div => 1,
    }
}

impl Operator {
    /// The precedence tier of this operator.
    pub fn tier(&self) -> (r: u8)
        ensures
            r as nat == tier(*self),
    {
        match self {
            Operator::Add | Operator::Sub => 0,
            Operator::Mul | Operator::Div => 1,
        }
    }
}

} // verus!
