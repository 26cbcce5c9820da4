use yaiwr::error::{InterpError, Operator};
use yaiwr::instruction::{Instruction, StackValue};
use yaiwr::scope::Scope;
use yaiwr::Calc;

fn push_int(v: u64) -> Instruction {
    Instruction::Push { value: StackValue::Integer(v) }
}

fn boolean(v: bool) -> Instruction {
    Instruction::Push { value: StackValue::Boolean(v) }
}

fn assign(id: &str) -> Instruction {
    Instruction::Assign { id: id.to_string() }
}

fn load(id: &str) -> Instruction {
    Instruction::Load { id: id.to_string() }
}

fn function(id: &str, params: &[&str], block: Vec<Instruction>) -> Instruction {
    Instruction::Function {
        id: id.to_string(),
        params: params.iter().map(|p| p.to_string()).collect(),
        block,
    }
}

fn call(id: &str, args: Vec<Vec<Instruction>>) -> Instruction {
    Instruction::FunctionCall { id: id.to_string(), args }
}

#[test]
fn add_then_print_bytecode() {
    let mut calc = Calc::new();
    let mut scope = Scope::new();
    let bytecode = vec![push_int(2), push_int(2), Instruction::Add, Instruction::PrintLn];
    assert_eq!(calc.eval(&bytecode, &mut scope), Ok(None));
    assert_eq!(calc.take_printed(), vec![StackValue::Integer(4)]);
}

#[test]
fn mul_then_print_bytecode() {
    let mut calc = Calc::new();
    let mut scope = Scope::new();
    let bytecode = vec![push_int(2), push_int(2), Instruction::Mul, Instruction::PrintLn];
    assert_eq!(calc.eval(&bytecode, &mut scope), Ok(None));
    assert_eq!(calc.take_printed(), vec![StackValue::Integer(4)]);
}

#[test]
fn assign_bytecode_declares_variables() {
    let mut c = Calc::new();
    let mut scope = Scope::new();
    let table: Vec<(Vec<Instruction>, &str, u64)> = vec![
        (vec![push_int(2), assign("_a")], "_a", 2),
        (vec![push_int(1), push_int(2), push_int(3), Instruction::Mul, Instruction::Add, assign("_b")], "_b", 7),
        (
            vec![push_int(1), push_int(2), Instruction::Add, push_int(3), Instruction::Add, push_int(4), Instruction::Add, assign("_c")],
            "_c",
            10,
        ),
    ];
    for (prog, key, expected) in table {
        c.eval(&prog, &mut scope).unwrap();
        assert_eq!(c.get_var(&key.to_string(), &scope), Some(StackValue::Integer(expected)));
    }
}

#[test]
fn eval_leaves_the_top_of_the_stack() {
    let mut calc = Calc::new();
    let mut scope = Scope::new();
    assert_eq!(calc.eval(&vec![push_int(3), push_int(4), Instruction::Mul], &mut scope), Ok(Some(StackValue::Integer(12))));
    assert_eq!(calc.eval(&vec![], &mut scope), Ok(None));
}

#[test]
fn comparisons_take_the_deeper_value_first() {
    let mut calc = Calc::new();
    let mut scope = Scope::new();
    let lt = vec![push_int(1), push_int(2), Instruction::LessThan];
    assert_eq!(calc.eval(&lt, &mut scope), Ok(Some(StackValue::Boolean(true))));
    let gt = vec![push_int(1), push_int(2), Instruction::GreaterThan];
    assert_eq!(calc.eval(&gt, &mut scope), Ok(Some(StackValue::Boolean(false))));
    let eq = vec![push_int(2), push_int(2), Instruction::LessThan];
    assert_eq!(calc.eval(&eq, &mut scope), Ok(Some(StackValue::Boolean(false))));
}

#[test]
fn overflow_is_an_error() {
    let mut calc = Calc::new();
    let mut scope = Scope::new();
    let add = vec![push_int(u64::MAX), push_int(1), Instruction::Add];
    assert_eq!(calc.eval(&add, &mut scope), Err(InterpError::Overflow));
    let mul = vec![push_int(1u64 << 32), push_int(1u64 << 32), Instruction::Mul];
    assert_eq!(calc.eval(&mul, &mut scope), Err(InterpError::Overflow));
    let fits = vec![push_int(u64::MAX - 1), push_int(1), Instruction::Add];
    assert_eq!(calc.eval(&fits, &mut scope), Ok(Some(StackValue::Integer(u64::MAX))));
}

#[test]
fn invalid_operands_report_the_top_value() {
    let mut calc = Calc::new();
    let mut scope = Scope::new();
    let top_bad = vec![push_int(1), boolean(true), Instruction::Add];
    assert_eq!(
        calc.eval(&top_bad, &mut scope),
        Err(InterpError::InvalidOperand { operand: StackValue::Boolean(true), operator: Operator::Add })
    );
    let mut calc = Calc::new();
    let second_bad = vec![boolean(false), push_int(1), Instruction::LessThan];
    assert_eq!(
        calc.eval(&second_bad, &mut scope),
        Err(InterpError::InvalidOperand { operand: StackValue::Integer(1), operator: Operator::LessThan })
    );
    let mut calc = Calc::new();
    let lone = vec![push_int(5), Instruction::Mul];
    assert_eq!(
        calc.eval(&lone, &mut scope),
        Err(InterpError::InvalidOperand { operand: StackValue::Integer(5), operator: Operator::Mul })
    );
}

#[test]
fn assign_on_empty_stack_fails() {
    let mut calc = Calc::new();
    let mut scope = Scope::new();
    assert_eq!(calc.eval(&vec![assign("x")], &mut scope), Err(InterpError::EmptyStack));
}

#[test]
fn load_of_unknown_variable_fails() {
    let mut calc = Calc::new();
    let mut scope = Scope::new();
    assert_eq!(
        calc.eval(&vec![load("nope")], &mut scope),
        Err(InterpError::UndefinedVariable("nope".to_string()))
    );
}

#[test]
fn load_after_assign() {
    let mut calc = Calc::new();
    let mut scope = Scope::new();
    let prog = vec![push_int(9), assign("x"), load("x"), load("x"), Instruction::Add];
    assert_eq!(calc.eval(&prog, &mut scope), Ok(Some(StackValue::Integer(18))));
    assert_eq!(scope.get_var_store_len(), 1);
}

#[test]
fn function_definition_and_call() {
    let mut calc = Calc::new();
    let mut scope = Scope::new();
    let def = function("add", &["a", "b"], vec![load("a"), load("b"), Instruction::Add]);
    assert_eq!(calc.eval(&vec![def], &mut scope), Ok(None));
    let prog = vec![call("add", vec![vec![push_int(1)], vec![push_int(2)]])];
    assert_eq!(calc.eval(&prog, &mut scope), Ok(Some(StackValue::Integer(3))));
    // the parameters were bound in the call's own scope only
    assert_eq!(calc.get_var(&"a".to_string(), &scope), None);
    assert_eq!(scope.get_var_store_len(), 0);
}

#[test]
fn functions_see_the_calling_scope() {
    let mut calc = Calc::new();
    let mut scope = Scope::new();
    let prog = vec![
        push_int(40),
        assign("base"),
        function("plus", &["n"], vec![load("base"), load("n"), Instruction::Add]),
        call("plus", vec![vec![push_int(2)]]),
    ];
    assert_eq!(calc.eval(&prog, &mut scope), Ok(Some(StackValue::Integer(42))));
}

#[test]
fn argument_blocks_without_a_value_are_skipped() {
    let mut calc = Calc::new();
    let mut scope = Scope::new();
    let prog = vec![
        function("id", &["x"], vec![load("x")]),
        call("id", vec![vec![], vec![push_int(7)]]),
    ];
    assert_eq!(calc.eval(&prog, &mut scope), Ok(Some(StackValue::Integer(7))));
}

#[test]
fn function_redefinition_fails() {
    let mut calc = Calc::new();
    let mut scope = Scope::new();
    let def = function("f", &[], vec![push_int(1)]);
    assert_eq!(calc.eval(&vec![def], &mut scope), Ok(None));
    let again = function("f", &[], vec![push_int(2)]);
    assert_eq!(
        calc.eval(&vec![again], &mut scope),
        Err(InterpError::FunctionAlreadyDefined("f".to_string()))
    );
    assert_eq!(calc.eval(&vec![call("f", vec![])], &mut scope), Ok(Some(StackValue::Integer(1))));
}

#[test]
fn call_of_undefined_function_fails() {
    let mut calc = Calc::new();
    let mut scope = Scope::new();
    assert_eq!(
        calc.eval(&vec![call("g", vec![])], &mut scope),
        Err(InterpError::UndefinedFunction("g".to_string()))
    );
}

#[test]
fn call_with_wrong_arity_fails() {
    let mut calc = Calc::new();
    let mut scope = Scope::new();
    let prog = vec![function("one", &["x"], vec![load("x")]), call("one", vec![])];
    assert_eq!(
        calc.eval(&prog, &mut scope),
        Err(InterpError::ArgumentCountMismatch { expected: 1, got: 0 })
    );
}

#[test]
fn deep_call_chain_returns_the_innermost_value() {
    let mut calc = Calc::new();
    let mut scope = Scope::new();
    let n = 300;
    let mut prog = Vec::new();
    for i in 0..n {
        let body = if i + 1 == n {
            vec![push_int(1)]
        } else {
            vec![call(&format!("f{}", i + 1), vec![])]
        };
        prog.push(function(&format!("f{}", i), &[], body));
    }
    assert_eq!(calc.eval(&prog, &mut scope), Ok(None));
    assert_eq!(calc.eval(&vec![call("f0", vec![])], &mut scope), Ok(Some(StackValue::Integer(1))));
    // the scope is back to its own frame
    assert_eq!(scope.get_var_store_len(), 0);
}

#[test]
fn return_block_pushes_its_value() {
    let mut calc = Calc::new();
    let mut scope = Scope::new();
    let prog = vec![push_int(1), Instruction::Return { block: vec![push_int(5), push_int(6), Instruction::Add] }, Instruction::Add];
    assert_eq!(calc.eval(&prog, &mut scope), Ok(Some(StackValue::Integer(12))));
}

#[test]
fn printed_values_accumulate_in_order() {
    let mut calc = Calc::new();
    let mut scope = Scope::new();
    let prog = vec![push_int(1), Instruction::PrintLn, boolean(true), Instruction::PrintLn];
    assert_eq!(calc.eval(&prog, &mut scope), Ok(None));
    let prog2 = vec![push_int(3), Instruction::PrintLn];
    assert_eq!(calc.eval(&prog2, &mut scope), Ok(None));
    assert_eq!(
        calc.take_printed(),
        vec![StackValue::Integer(1), StackValue::Boolean(true), StackValue::Integer(3)]
    );
    assert_eq!(calc.take_printed(), Vec::<StackValue>::new());
}

#[test]
fn stack_push_then_pop_gives_the_value_back() {
    let mut calc = Calc::new();
    assert_eq!(calc.stack_pop(), Err(InterpError::EmptyStack));
    calc.stack_push(StackValue::Integer(3));
    calc.stack_push(StackValue::Boolean(false));
    assert_eq!(calc.stack_pop(), Ok(StackValue::Boolean(false)));
    assert_eq!(calc.stack_pop(), Ok(StackValue::Integer(3)));
    assert_eq!(calc.stack_pop(), Err(InterpError::EmptyStack));
}

#[test]
fn names_keep_their_ids() {
    let mut calc = Calc::new();
    let mut scope = Scope::new();
    assert_eq!(calc.lookup_symbol(&"x".to_string()), None);
    calc.eval(&vec![push_int(1), assign("x"), push_int(2), assign("y")], &mut scope).unwrap();
    assert_eq!(calc.lookup_symbol(&"x".to_string()), Some(0));
    assert_eq!(calc.lookup_symbol(&"y".to_string()), Some(1));
    calc.eval(&vec![push_int(3), assign("x")], &mut scope).unwrap();
    assert_eq!(calc.lookup_symbol(&"x".to_string()), Some(0));
    assert_eq!(scope.get_var(0), Some(StackValue::Integer(3)));
}

#[test]
fn an_error_keeps_what_was_done_before_it() {
    let mut calc = Calc::new();
    let mut scope = Scope::new();
    let prog = vec![push_int(4), Instruction::PrintLn, push_int(1), assign("z"), load("missing"), push_int(5)];
    assert_eq!(
        calc.eval(&prog, &mut scope),
        Err(InterpError::UndefinedVariable("missing".to_string()))
    );
    assert_eq!(calc.take_printed(), vec![StackValue::Integer(4)]);
    assert_eq!(calc.get_var(&"z".to_string(), &scope), Some(StackValue::Integer(1)));
}

#[test]
fn arguments_that_leave_no_value_are_dropped() {
    let mut calc = Calc::new();
    let mut scope = Scope::new();
    // the first argument block only declares a variable and leaves nothing
    let prog = vec![
        function("one", &["x"], vec![load("x")]),
        call("one", vec![vec![push_int(9), assign("t")], vec![push_int(4)]]),
    ];
    assert_eq!(calc.eval(&prog, &mut scope), Ok(Some(StackValue::Integer(4))));
}

#[test]
fn arguments_stop_at_the_first_error() {
    let mut calc = Calc::new();
    let mut scope = Scope::new();
    let prog = vec![
        function("two", &["x", "y"], vec![load("x")]),
        call(
            "two",
            vec![vec![load("nope")], vec![push_int(3), Instruction::PrintLn, push_int(1)]],
        ),
    ];
    assert_eq!(calc.eval(&prog, &mut scope), Err(InterpError::UndefinedVariable("nope".to_string())));
    assert_eq!(calc.take_printed(), Vec::<StackValue>::new());
}

#[test]
fn return_runs_its_block_inline() {
    let block = vec![push_int(2), assign("r"), push_int(5)];
    let rest = vec![load("r"), Instruction::Add];
    let mut with_return = vec![Instruction::Return { block: block.clone() }];
    with_return.extend(rest.clone());
    let mut inline = block.clone();
    inline.extend(rest);
    let mut c1 = Calc::new();
    let mut s1 = Scope::new();
    let mut c2 = Calc::new();
    let mut s2 = Scope::new();
    assert_eq!(c1.eval(&with_return, &mut s1), Ok(Some(StackValue::Integer(7))));
    assert_eq!(c2.eval(&inline, &mut s2), Ok(Some(StackValue::Integer(7))));
    assert_eq!(c1.get_var(&"r".to_string(), &s1), c2.get_var(&"r".to_string(), &s2));
}

#[test]
fn parameters_do_not_leak_out_of_a_call() {
    let mut calc = Calc::new();
    let mut scope = Scope::new();
    let prog = vec![
        function("id", &["x"], vec![load("x")]),
        call("id", vec![vec![push_int(8)]]),
    ];
    assert_eq!(calc.eval(&prog, &mut scope), Ok(Some(StackValue::Integer(8))));
    assert_eq!(calc.get_var(&"x".to_string(), &scope), None);
    assert_eq!(scope.get_var_store_len(), 0);
}
