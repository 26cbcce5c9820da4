use yaiwr::instruction::{Instruction, StackValue};
use yaiwr::scope::Scope;

#[test]
fn declared_variable_is_found() {
    let mut s = Scope::new();
    assert_eq!(s.get_var(1), None);
    assert_eq!(s.dec_var(1, StackValue::Integer(10)), None);
    assert_eq!(s.get_var(1), Some(StackValue::Integer(10)));
    assert_eq!(s.dec_var(1, StackValue::Integer(11)), Some(StackValue::Integer(10)));
    assert_eq!(s.get_var(1), Some(StackValue::Integer(11)));
    assert_eq!(s.get_var_store_len(), 1);
}

#[test]
fn set_var_needs_a_declaration() {
    let mut s = Scope::new();
    assert_eq!(s.set_var(2, StackValue::Boolean(true)), None);
    assert_eq!(s.get_var(2), None);
    s.dec_var(2, StackValue::Boolean(false));
    assert_eq!(s.set_var(2, StackValue::Boolean(true)), Some(StackValue::Boolean(true)));
    assert_eq!(s.get_var(2), Some(StackValue::Boolean(true)));
}

#[test]
fn inner_scope_sees_and_updates_outer_variables() {
    let mut outer = Scope::new();
    outer.dec_var(7, StackValue::Integer(1));
    let mut inner = Scope::from_scope(outer);
    assert_eq!(inner.get_var_store_len(), 0);
    assert_eq!(inner.get_var(7), Some(StackValue::Integer(1)));
    assert_eq!(inner.set_var(7, StackValue::Integer(2)), Some(StackValue::Integer(2)));
    assert_eq!(inner.get_var_store_len(), 0);
    inner.dec_var(8, StackValue::Integer(3));
    let outer = inner.into_outer().unwrap();
    assert_eq!(outer.get_var(7), Some(StackValue::Integer(2)));
    assert_eq!(outer.get_var(8), None);
    assert!(outer.into_outer().is_none());
}

#[test]
fn inner_declaration_shadows_outer() {
    let mut outer = Scope::new();
    outer.dec_var(1, StackValue::Integer(1));
    let mut inner = Scope::from_scope(outer);
    inner.dec_var(1, StackValue::Integer(2));
    assert_eq!(inner.get_var(1), Some(StackValue::Integer(2)));
    assert_eq!(inner.set_var(1, StackValue::Integer(5)), Some(StackValue::Integer(5)));
    let outer = inner.into_outer().unwrap();
    assert_eq!(outer.get_var(1), Some(StackValue::Integer(1)));
}

#[test]
fn functions_are_found_by_id_and_through_variables() {
    let mut s = Scope::new();
    let f = Instruction::Function { id: "f".to_string(), params: vec![], block: vec![Instruction::PrintLn] };
    assert_eq!(s.set_func(3, f), None);
    assert_eq!(
        s.get_func(3),
        Some(Instruction::Function { id: "f".to_string(), params: vec![], block: vec![Instruction::PrintLn] })
    );
    assert_eq!(s.get_func(4), None);
    s.dec_var(4, StackValue::Function(3));
    assert_eq!(s.get_func(4).is_some(), true);
    let inner = Scope::from_scope(s);
    assert_eq!(
        inner.get_func(3),
        Some(Instruction::Function { id: "f".to_string(), params: vec![], block: vec![Instruction::PrintLn] })
    );
}

#[test]
fn set_func_returns_the_previous_function() {
    let mut s = Scope::new();
    s.set_func(1, Instruction::Add);
    assert_eq!(s.set_func(1, Instruction::Mul), Some(Instruction::Add));
    assert_eq!(s.get_func(1), Some(Instruction::Mul));
}

#[test]
fn declaring_counts_only_new_variables() {
    let mut scope = Scope::new();
    assert_eq!(scope.get_var_store_len(), 0);
    scope.dec_var(1, StackValue::Integer(1));
    assert_eq!(scope.get_var_store_len(), 1);
    scope.dec_var(2, StackValue::Integer(2));
    assert_eq!(scope.get_var_store_len(), 2);
    assert_eq!(scope.dec_var(1, StackValue::Integer(3)), Some(StackValue::Integer(1)));
    assert_eq!(scope.get_var_store_len(), 2);
    assert_eq!(scope.get_var(2), Some(StackValue::Integer(2)));
}
