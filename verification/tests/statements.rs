use yaiwr::error::{InterpError, Operator};
use yaiwr::instruction::{Instruction, StackValue};
use yaiwr::scope::Scope;
use yaiwr::lines::program_text_lines;
use yaiwr::Calc;

#[test]
fn statements_give_the_value_of_the_last() {
    let mut calc = Calc::new();
    let mut scope = Scope::new();
    assert_eq!(calc.eval_statements("1; 2", &mut scope), Ok(Some(StackValue::Integer(2))));
    assert_eq!(calc.eval_statements("let a = 2; a + 1", &mut scope), Ok(Some(StackValue::Integer(3))));
    assert_eq!(calc.get_var(&"a".to_string(), &scope), Some(StackValue::Integer(2)));
}

#[test]
fn empty_statements_are_skipped() {
    let mut calc = Calc::new();
    let mut scope = Scope::new();
    assert_eq!(calc.eval_statements("", &mut scope), Ok(None));
    assert_eq!(calc.eval_statements(";;", &mut scope), Ok(None));
    assert_eq!(calc.eval_statements("4;;", &mut scope), Ok(Some(StackValue::Integer(4))));
    assert_eq!(calc.eval_statements("let x = 1;", &mut scope), Ok(None));
}

#[test]
fn a_later_parse_error_keeps_the_earlier_statements() {
    let mut calc = Calc::new();
    let mut scope = Scope::new();
    let r = calc.eval_statements("println(1); let b = 5; 2 +", &mut scope);
    // "2 +;": the error is at the `;` the statement was closed with
    assert_eq!(r, Err(InterpError::ParseError(4)));
    assert_eq!(calc.take_printed(), vec![StackValue::Integer(1)]);
    assert_eq!(calc.get_var(&"b".to_string(), &scope), Some(StackValue::Integer(5)));
}

#[test]
fn an_evaluation_error_stops_the_line() {
    let mut calc = Calc::new();
    let mut scope = Scope::new();
    let r = calc.eval_statements("println(7); y; println(8)", &mut scope);
    assert_eq!(r, Err(InterpError::UndefinedVariable("y".to_string())));
    assert_eq!(calc.take_printed(), vec![StackValue::Integer(7)]);
}

#[test]
fn functions_live_across_lines() {
    let mut calc = Calc::new();
    let mut scope = Scope::new();
    assert_eq!(calc.eval_statements("fun add (a, b) { return a + b }", &mut scope), Ok(None));
    assert_eq!(calc.eval_statements("add(2, 3) * 2", &mut scope), Ok(Some(StackValue::Integer(10))));
}

#[test]
fn values_as_text() {
    assert_eq!(StackValue::Integer(0).to_string(), "0");
    assert_eq!(StackValue::Integer(18446744073709551615).to_string(), "18446744073709551615");
    assert_eq!(StackValue::Boolean(true).to_string(), "true");
    assert_eq!(StackValue::Boolean(false).to_string(), "false");
    assert_eq!(StackValue::Function(12).to_string(), "function #12");
}

#[test]
fn instructions_as_text() {
    assert_eq!(Instruction::Add.to_string(), "Add");
    assert_eq!(Instruction::Push { value: StackValue::Integer(1) }.to_string(), "Push");
    assert_eq!(Instruction::Return { block: vec![] }.to_string(), "Return");
    assert_eq!(
        Instruction::FunctionCall { id: "f".to_string(), args: vec![] }.to_string(),
        "FunctionCall"
    );
}

#[test]
fn errors_as_text() {
    assert_eq!(InterpError::EmptyStack.to_string(), "the stack is empty");
    assert_eq!(InterpError::Overflow.to_string(), "overflowed");
    assert_eq!(
        InterpError::InvalidOperand { operand: StackValue::Boolean(true), operator: Operator::Add }
            .to_string(),
        "Invalid operand true given numeric Add operation!"
    );
    assert_eq!(
        InterpError::InvalidOperand { operand: StackValue::Integer(3), operator: Operator::LessThan }
            .to_string(),
        "Invalid operand 3 given for LessThan operation!"
    );
    assert_eq!(
        InterpError::UnexpectedOperator(Operator::Mul).to_string(),
        "Unexpected boolean instruction Mul"
    );
    assert_eq!(
        InterpError::UnexpectedOperator(Operator::LessThan).to_string(),
        "Unexpected numeric instruction LessThan"
    );
    assert_eq!(
        InterpError::UndefinedFunction("f".to_string()).to_string(),
        "Undefined function: 'f'"
    );
    assert_eq!(
        InterpError::UndefinedVariable("x".to_string()).to_string(),
        "Undefined variable: 'x'"
    );
    assert_eq!(
        InterpError::FunctionAlreadyDefined("f".to_string()).to_string(),
        "Function with the id: 'f' already defined!"
    );
    assert_eq!(
        InterpError::ArgumentCountMismatch { expected: 2, got: 10 }.to_string(),
        "Unexpected number of function arguments. Expected: 2, Got: 10"
    );
    assert_eq!(
        InterpError::NotAFunction("g".to_string()).to_string(),
        "Unexpected type registrated as a function!"
    );
    assert_eq!(InterpError::CallDepthExceeded.to_string(), "Too many nested function calls");
    assert_eq!(InterpError::ParseError(17).to_string(), "Parse error at character 17");
}

#[test]
fn cloned_instructions_are_equal() {
    let i = Instruction::Function {
        id: "f".to_string(),
        params: vec!["a".to_string()],
        block: vec![Instruction::Load { id: "a".to_string() }, Instruction::PrintLn],
    };
    assert_eq!(i.clone(), i);
}

#[test]
fn program_lines_drop_blank_lines() {
    assert_eq!(program_text_lines(""), Vec::<String>::new());
    assert_eq!(
        program_text_lines("let a = 1;\n\n   \t\nprintln(a)\n"),
        vec!["let a = 1;".to_string(), "println(a)".to_string()]
    );
    assert_eq!(program_text_lines(" x \u{3000}\n\u{a0}"), vec![" x \u{3000}".to_string()]);
}
