//! The syntax tree of a program.

use vstd::prelude::*;

verus! {

/// A node of the syntax tree.
#[derive(Debug, PartialEq)]
pub enum AstNode {
    Number { value: u64 },
    Boolean { value: bool },
    Add { lhs: Box<AstNode>, rhs: Box<AstNode> },
    Mul { lhs: Box<AstNode>, rhs: Box<AstNode> },
    LessThan { lhs: Box<AstNode>, rhs: Box<AstNode> },
    GreaterThan { lhs: Box<AstNode>, rhs: Box<AstNode> },
    PrintLn { rhs: Box<AstNode> },
    Assign { id: String, node: Box<AstNode> },
    Id { name: String },
    Function { id: String, params: Vec<String>, block: Vec<AstNode> },
    FunctionCall { id: String, args: Vec<AstNode> },
    Return { block: Vec<AstNode> },
}

} // verus!
