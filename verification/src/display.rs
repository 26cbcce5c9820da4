//! The text of values, instructions and errors, as the interpreter shows
//! them to its users.

use crate::error::{Fault, InterpError, Operator};
use crate::instruction::{Instruction, StackValue};
use crate::text::{decimal, decimal_string};
use vstd::string::StringExecFns;
use vstd::prelude::*;

verus! {

/// How a value is shown: an integer by its decimal digits, a boolean as
/// `true` or `false`, a function reference by its id.
pub open spec fn value_text(v: StackValue) -> Seq<char> {
    match v {
        StackValue::Integer(n) => decimal(n as nat),
        StackValue::Boolean(b) => if b {
            "true"@
        } else {
            "false"@
        },
        StackValue::Function(id) => "function #"@ + decimal(id as nat),
    }
}

/// The name of an instruction's kind.
pub open spec fn instruction_name(i: Instruction) -> Seq<char> {
    match i {
        Instruction::Add => "Add"@,
        Instruction::Mul => "Mul"@,
        Instruction::LessThan => "LessThan"@,
        Instruction::GreaterThan => "GreaterThan"@,
        Instruction::Push { .. } => "Push"@,
        Instruction::PrintLn => "PrintLn"@,
        Instruction::Assign { .. } => "Assign"@,
        Instruction::Load { .. } => "Load"@,
        Instruction::Return { .. } => "Return"@,
        Instruction::Function { .. } => "Function"@,
        Instruction::FunctionCall { .. } => "FunctionCall"@,
    }
}

/// The name of an operation, as the instruction that performs it.
pub open spec fn operator_name(o: Operator) -> Seq<char> {
    match o {
        Operator::Add => "Add"@,
        Operator::Mul => "Mul"@,
        Operator::LessThan => "LessThan"@,
        Operator::GreaterThan => "GreaterThan"@,
    }
}

/// The message of an error.
pub open spec fn fault_text(f: Fault) -> Seq<char> {
    match f {
        Fault::EmptyStack => "the stack is empty"@,
        Fault::Overflow => "overflowed"@,
        Fault::InvalidOperand(v, o) => match o {
            Operator::Add | Operator::Mul => "Invalid operand "@ + value_text(v)
                + " given numeric "@ + operator_name(o) + " operation!"@,
            _ => "Invalid operand "@ + value_text(v) + " given for "@ + operator_name(o)
                + " operation!"@,
        },
        Fault::UnexpectedOperator(o) => match o {
            Operator::LessThan | Operator::GreaterThan => "Unexpected numeric instruction "@
                + operator_name(o),
            _ => "Unexpected boolean instruction "@ + operator_name(o),
        },
        Fault::UndefinedFunction(id) => "Undefined function: '"@ + id + "'"@,
        Fault::UndefinedVariable(id) => "Undefined variable: '"@ + id + "'"@,
        Fault::FunctionAlreadyDefined(id) => "Function with the id: '"@ + id + "' already defined!"@,
        Fault::ArgumentCountMismatch(expected, got) => "Unexpected number of function arguments. Expected: "@
            + decimal(expected) + ", Got: "@ + decimal(got),
        Fault::NotAFunction(_) => "Unexpected type registrated as a function!"@,
        Fault::CallDepthExceeded => "Too many nested function calls"@,
        Fault::ParseError(at) => "Parse error at character "@ + decimal(at),
    }
}

impl StackValue {
    /// The value as text (see `value_text`).
    pub fn to_string(&self) -> (r: String)
        ensures
            r@ == value_text(*self),
    {
        match self {
            StackValue::Integer(n) => decimal_string(*n),
            StackValue::Boolean(b) => if *b {
                "true".to_owned()
            } else {
                "false".to_owned()
            },
            StackValue::Function(id) => {
                let mut s = "function #".to_owned();
                let d = decimal_string(*id);
                s.append(d.as_str());
                s
            },
        }
    }
}

impl Instruction {
    /// The name of the instruction's kind (see `instruction_name`).
    pub fn to_string(&self) -> (r: String)
        ensures
            r@ == instruction_name(*self),
    {
        match self {
            Instruction::Add => "Add".to_owned(),
            Instruction::Mul => "Mul".to_owned(),
            Instruction::LessThan => "LessThan".to_owned(),
            Instruction::GreaterThan => "GreaterThan".to_owned(),
            Instruction::Push { .. } => "Push".to_owned(),
            Instruction::PrintLn => "PrintLn".to_owned(),
            Instruction::Assign { .. } => "Assign".to_owned(),
            Instruction::Load { .. } => "Load".to_owned(),
            Instruction::Return { .. } => "Return".to_owned(),
            Instruction::Function { .. } => "Function".to_owned(),
            Instruction::FunctionCall { .. } => "FunctionCall".to_owned(),
        }
    }
}

impl Operator {
    /// The name of the operation (see `operator_name`).
    pub fn name(&self) -> (r: &'static str)
        ensures
            r@ == operator_name(*self),
    {
        match self {
            Operator::Add => "Add",
            Operator::Mul => "Mul",
            Operator::LessThan => "LessThan",
            Operator::GreaterThan => "GreaterThan",
        }
    }
}

/// `a`, then `b`.
fn join2(a: &str, b: &str) -> (r: String)
    ensures
        r@ == a@ + b@,
{
    let mut s = a.to_owned();
    s.append(b);
    s
}

/// `a`, then `b`, then `c`.
fn join3(a: &str, b: &str, c: &str) -> (r: String)
    ensures
        r@ == a@ + b@ + c@,
{
    let mut s = a.to_owned();
    s.append(b);
    s.append(c);
    s
}

impl InterpError {
    /// The message of the error (see `fault_text`).
    pub fn to_string(&self) -> (r: String)
        ensures
            r@ == fault_text(self@),
    {
        match self {
            InterpError::EmptyStack => "the stack is empty".to_owned(),
            InterpError::Overflow => "overflowed".to_owned(),
            InterpError::InvalidOperand { operand, operator } => {
                let v = operand.to_string();
                let middle = match operator {
                    Operator::Add | Operator::Mul => " given numeric ",
                    _ => " given for ",
                };
                let mut s = join3("Invalid operand ", v.as_str(), middle);
                s.append(operator.name());
                s.append(" operation!");
                s
            },
            InterpError::UnexpectedOperator(o) => match o {
                Operator::LessThan | Operator::GreaterThan => join2(
                    "Unexpected numeric instruction ",
                    o.name(),
                ),
                _ => join2("Unexpected boolean instruction ", o.name()),
            },
            InterpError::UndefinedFunction(id) => join3("Undefined function: '", id.as_str(), "'"),
            InterpError::UndefinedVariable(id) => join3("Undefined variable: '", id.as_str(), "'"),
            InterpError::FunctionAlreadyDefined(id) => join3(
                "Function with the id: '",
                id.as_str(),
                "' already defined!",
            ),
            InterpError::ArgumentCountMismatch { expected, got } => {
                let e = decimal_string(*expected as u64);
                let g = decimal_string(*got as u64);
                let mut s = join3(
                    "Unexpected number of function arguments. Expected: ",
                    e.as_str(),
                    ", Got: ",
                );
                s.append(g.as_str());
                s
            },
            InterpError::NotAFunction(_) => "Unexpected type registrated as a function!".to_owned(),
            InterpError::CallDepthExceeded => "Too many nested function calls".to_owned(),
            InterpError::ParseError(at) => {
                let d = decimal_string(*at as u64);
                join2("Parse error at character ", d.as_str())
            },
        }
    }
}

} // verus!
