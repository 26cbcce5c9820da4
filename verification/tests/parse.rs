use yaiwr::ast::AstNode;
use yaiwr::error::InterpError;
use yaiwr::instruction::{Instruction, StackValue};
use yaiwr::scope::Scope;
use yaiwr::Calc;

fn run(calc: &mut Calc, scope: &mut Scope, text: &str) -> Result<Option<StackValue>, InterpError> {
    let ast = calc.from_str(text)?;
    let bytecode = Calc::ast_to_bytecode(ast);
    calc.eval(&bytecode, scope)
}

#[test]
fn multiplication_binds_tighter_than_addition() {
    let calc = Calc::new();
    let ast = calc.from_str("1+2*3").unwrap();
    assert_eq!(
        ast,
        vec![AstNode::Add {
            lhs: Box::new(AstNode::Number { value: 1 }),
            rhs: Box::new(AstNode::Mul {
                lhs: Box::new(AstNode::Number { value: 2 }),
                rhs: Box::new(AstNode::Number { value: 3 }),
            }),
        }]
    );
}

#[test]
fn addition_groups_to_the_left() {
    let calc = Calc::new();
    let ast = calc.from_str("1+2+3").unwrap();
    assert_eq!(
        ast,
        vec![AstNode::Add {
            lhs: Box::new(AstNode::Add {
                lhs: Box::new(AstNode::Number { value: 1 }),
                rhs: Box::new(AstNode::Number { value: 2 }),
            }),
            rhs: Box::new(AstNode::Number { value: 3 }),
        }]
    );
}

#[test]
fn empty_text_has_no_statements() {
    let calc = Calc::new();
    assert_eq!(calc.from_str("").unwrap(), vec![]);
    assert_eq!(calc.from_str("   \n").unwrap(), vec![]);
}

#[test]
fn parse_errors_give_the_character_position() {
    let calc = Calc::new();
    assert_eq!(calc.from_str("println 2+2"), Err(InterpError::ParseError(8)));
    assert_eq!(calc.from_str("1 + #"), Err(InterpError::ParseError(4)));
    assert_eq!(calc.from_str("(1 + 2"), Err(InterpError::ParseError(6)));
    assert_eq!(calc.from_str("let = 3"), Err(InterpError::ParseError(4)));
    assert_eq!(calc.from_str("1 2"), Err(InterpError::ParseError(2)));
}

#[test]
fn too_large_number_is_a_parse_error() {
    let calc = Calc::new();
    assert_eq!(
        calc.from_str("18446744073709551615"),
        Ok(vec![AstNode::Number { value: u64::MAX }])
    );
    assert_eq!(calc.from_str("1 + 18446744073709551616"), Err(InterpError::ParseError(4)));
}

#[test]
fn comparisons_evaluate() {
    let mut calc = Calc::new();
    let mut scope = Scope::new();
    assert_eq!(run(&mut calc, &mut scope, "1 < 2"), Ok(Some(StackValue::Boolean(true))));
    assert_eq!(run(&mut calc, &mut scope, "1 + 1 > 3"), Ok(Some(StackValue::Boolean(false))));
}

#[test]
fn functions_parse_compile_and_run() {
    let mut calc = Calc::new();
    let mut scope = Scope::new();
    let text = "fun add3(a, b, c) { return a + b + c; }; add3(1, 2, 3)";
    assert_eq!(run(&mut calc, &mut scope, text), Ok(Some(StackValue::Integer(6))));
    assert_eq!(run(&mut calc, &mut scope, "add3(10, 20, 30) * 2"), Ok(Some(StackValue::Integer(120))));
    assert_eq!(run(&mut calc, &mut scope, "fun f() { 1 }"), Ok(None));
    assert_eq!(run(&mut calc, &mut scope, "f()"), Ok(Some(StackValue::Integer(1))));
}

#[test]
fn function_definition_bytecode() {
    let calc = Calc::new();
    let ast = calc.from_str("fun id(x) { return x }").unwrap();
    assert_eq!(
        Calc::ast_to_bytecode(ast),
        vec![Instruction::Function {
            id: "id".to_string(),
            params: vec!["x".to_string()],
            block: vec![Instruction::Return { block: vec![Instruction::Load { id: "x".to_string() }] }],
        }]
    );
}

#[test]
fn statements_run_in_order() {
    let mut calc = Calc::new();
    let mut scope = Scope::new();
    assert_eq!(run(&mut calc, &mut scope, "let x = 4; println(x * x); x + 1"), Ok(Some(StackValue::Integer(5))));
    assert_eq!(calc.take_printed(), vec![StackValue::Integer(16)]);
}

#[test]
fn type_errors_surface_at_evaluation() {
    let mut calc = Calc::new();
    let mut scope = Scope::new();
    assert!(matches!(run(&mut calc, &mut scope, "true + 1"), Err(InterpError::InvalidOperand { .. })));
}
