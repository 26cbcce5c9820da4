//! What can go wrong while evaluating.

use crate::instruction::StackValue;
use vstd::prelude::*;

verus! {

/// The binary operations of the language.
#[derive(Debug, Clone, Copy, PartialEq, Eq, Structural)]
pub enum Operator {
    Add,
    Mul,
    LessThan,
    GreaterThan,
}

/// An evaluation error.
#[derive(Debug, PartialEq, Eq)]
pub enum InterpError {
    /// A value was needed but the stack was empty.
    EmptyStack,
    /// An arithmetic result does not fit in a `u64`.
    Overflow,
    /// An operand of the wrong kind; `operand` is the top of the stack
    /// that the operation took first.
    InvalidOperand { operand: StackValue, operator: Operator },
    /// An arithmetic step was asked to perform a comparison, or the other
    /// way round.
    UnexpectedOperator(Operator),
    /// A call of a function that was never defined.
    UndefinedFunction(String),
    /// A load of a variable that no scope declares.
    UndefinedVariable(String),
    /// A second definition of a function.
    FunctionAlreadyDefined(String),
    /// A call with a number of arguments other than the function's.
    ArgumentCountMismatch { expected: usize, got: usize },
    /// Something other than a function was stored as one.
    NotAFunction(String),
    /// Calls nested more than `MAX_CALL_DEPTH` deep.
    CallDepthExceeded,
    /// Program text that does not fit the grammar, at this character.
    ParseError(usize),
}

/// The content of an `InterpError`.
pub enum Fault {
    EmptyStack,
    Overflow,
    InvalidOperand(StackValue, Operator),
    UnexpectedOperator(Operator),
    UndefinedFunction(Seq<char>),
    UndefinedVariable(Seq<char>),
    FunctionAlreadyDefined(Seq<char>),
    ArgumentCountMismatch(nat, nat),
    NotAFunction(Seq<char>),
    CallDepthExceeded,
    ParseError(nat),
}

impl View for InterpError {
    type V = Fault;

    open spec fn view(&self) -> Fault {
        match self {
            InterpError::EmptyStack => Fault::EmptyStack,
            InterpError::Overflow => Fault::Overflow,
            InterpError::InvalidOperand { operand, operator } => Fault::InvalidOperand(
                *operand,
                *operator,
            ),
            InterpError::UnexpectedOperator(o) => Fault::UnexpectedOperator(*o),
            InterpError::UndefinedFunction(id) => Fault::UndefinedFunction(id@),
            InterpError::UndefinedVariable(id) => Fault::UndefinedVariable(id@),
            InterpError::FunctionAlreadyDefined(id) => Fault::FunctionAlreadyDefined(id@),
            InterpError::ArgumentCountMismatch { expected, got } => Fault::ArgumentCountMismatch(
                *expected as nat,
                *got as nat,
            ),
            InterpError::NotAFunction(id) => Fault::NotAFunction(id@),
            InterpError::CallDepthExceeded => Fault::CallDepthExceeded,
            InterpError::ParseError(p) => Fault::ParseError(*p as nat),
        }
    }
}

} // verus!
