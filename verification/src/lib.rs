//! A small stack-based calculator language: its instruction set, the
//! variable scopes it evaluates in, and the interpreter itself.

pub mod instruction;
pub mod scope;
pub mod error;
pub mod semantics;
pub mod calc;
pub mod ast;
pub mod bytecode;
pub mod lexer;
pub mod parser;
pub mod grammar;
pub mod text;
pub mod display;
pub mod lines;

pub use calc::Calc;

use vstd::prelude::*;

verus! {

} // verus!
