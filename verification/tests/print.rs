use yaiwr::instruction::{Instruction, StackValue};
use yaiwr::scope::Scope;
use yaiwr::Calc;

#[test]
fn eval_println_statement_add() {
    let mut calc = Calc::new();
    let mut scope = Scope::new();
    let ast = calc.from_str("println(2+2)").unwrap();
    let bytecode = Calc::ast_to_bytecode(ast);
    assert_eq!(calc.eval(&bytecode, &mut scope), Ok(None));
    assert_eq!(calc.take_printed(), vec![StackValue::Integer(4)]);
}

#[test]
fn eval_println_statement_mul() {
    let mut calc = Calc::new();
    let mut scope = Scope::new();
    let ast = calc.from_str("println(2*2)").unwrap();
    let bytecode = Calc::ast_to_bytecode(ast);
    assert_eq!(calc.eval(&bytecode, &mut scope), Ok(None));
    assert_eq!(calc.take_printed(), vec![StackValue::Integer(4)]);
}

#[test]
fn println_statement_numeric_bytecode() {
    let calc = Calc::new();
    let ast = calc.from_str("println(1)").unwrap();
    let bytecode = Calc::ast_to_bytecode(ast);
    match bytecode.as_slice() {
        [first, second] => {
            assert_eq!(first, &Instruction::Push { value: StackValue::Integer(1) });
            assert_eq!(second, &Instruction::PrintLn);
        }
        _ => panic!("expected bytecodes to be not empty!"),
    }
}

#[test]
fn print_statement_add_bytecode() {
    let calc = Calc::new();
    let ast = calc.from_str("println (1+1)").unwrap();
    let bytecode = Calc::ast_to_bytecode(ast);
    match bytecode.as_slice() {
        [c1, c2, c3, c4] => {
            assert_eq!(c1, &Instruction::Push { value: StackValue::Integer(1) });
            assert_eq!(c2, &Instruction::Push { value: StackValue::Integer(1) });
            assert_eq!(c3, &Instruction::Add {});
            assert_eq!(c4, &Instruction::PrintLn {});
        }
        _ => panic!("expected bytecodes to be not empty!"),
    }
}

#[test]
#[should_panic]
fn eval_println_statement_add_parsing_error() {
    let mut calc = Calc::new();
    let mut scope = Scope::new();
    let ast = calc.from_str("println 2+2").unwrap();
    let bytecode = Calc::ast_to_bytecode(ast);
    assert_eq!(calc.eval(&bytecode, &mut scope), Ok(None));
}

#[test]
#[should_panic]
fn eval_println_statement_mul_parsing_error() {
    let mut calc = Calc::new();
    let mut scope = Scope::new();
    let ast = calc.from_str("println 2*2").unwrap();
    let bytecode = Calc::ast_to_bytecode(ast);
    assert_eq!(calc.eval(&bytecode, &mut scope), Ok(None));
}
