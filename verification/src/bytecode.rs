//! Compilation of syntax trees to bytecode.

use crate::ast::AstNode;
use crate::parser::{Ast, ast_view, ast_views};
use crate::instruction::{Instruction, Op, StackValue, op_of, ops_of, blocks_of, names_of, copy_names};
use crate::error::Operator;
use crate::semantics::{Machine, Status, run_seq, step, numeric_step, boolean_step};
use vstd::prelude::*;

verus! {

/// The code of one node: operands first, in order, then the operation.
pub open spec fn compile_node(n: AstNode) -> Seq<Op>
    decreases n,
{
    match n {
        AstNode::Number { value } => seq![Op::Push(StackValue::Integer(value))],
        AstNode::Boolean { value } => seq![Op::Push(StackValue::Boolean(value))],
        AstNode::Add { lhs, rhs } => compile_node(*lhs) + compile_node(*rhs) + seq![Op::Add],
        AstNode::Mul { lhs, rhs } => compile_node(*lhs) + compile_node(*rhs) + seq![Op::Mul],
        AstNode::LessThan { lhs, rhs } => compile_node(*lhs) + compile_node(*rhs) + seq![
            Op::LessThan,
        ],
        AstNode::GreaterThan { lhs, rhs } => compile_node(*lhs) + compile_node(*rhs) + seq![
            Op::GreaterThan,
        ],
        AstNode::PrintLn { rhs } => compile_node(*rhs) + seq![Op::PrintLn],
        AstNode::Assign { id, node } => compile_node(*node) + seq![Op::Assign(id@)],
        AstNode::Id { name } => seq![Op::Load(name@)],
        AstNode::Function { id, params, block } => seq![
            Op::Function(id@, names_of(params@), compile_block(block@)),
        ],
        AstNode::FunctionCall { id, args } => seq![Op::FunctionCall(id@, compile_args(args@))],
        AstNode::Return { block } => seq![Op::Return(compile_block(block@))],
    }
}

/// The code of a block: the code of each node, one after another.
pub open spec fn compile_block(s: Seq<AstNode>) -> Seq<Op>
    decreases s,
{
    if s.len() == 0 {
        Seq::empty()
    } else {
        compile_block(s.drop_last()) + compile_node(s.last())
    }
}

/// The code of call arguments: one block per argument.
pub open spec fn compile_args(s: Seq<AstNode>) -> Seq<Seq<Op>>
    decreases s,
{
    if s.len() == 0 {
        Seq::empty()
    } else {
        compile_args(s.drop_last()).push(compile_node(s.last()))
    }
}

/// The code of a parsed node (see `compile_node`, which it agrees with).
pub open spec fn compile_ast(a: Ast) -> Seq<Op>
    decreases a,
{
    match a {
        Ast::Number(value) => seq![Op::Push(StackValue::Integer(value))],
        Ast::Boolean(value) => seq![Op::Push(StackValue::Boolean(value))],
        Ast::Add(lhs, rhs) => compile_ast(*lhs) + compile_ast(*rhs) + seq![Op::Add],
        Ast::Mul(lhs, rhs) => compile_ast(*lhs) + compile_ast(*rhs) + seq![Op::Mul],
        Ast::LessThan(lhs, rhs) => compile_ast(*lhs) + compile_ast(*rhs) + seq![Op::LessThan],
        Ast::GreaterThan(lhs, rhs) => compile_ast(*lhs) + compile_ast(*rhs) + seq![Op::GreaterThan],
        Ast::PrintLn(rhs) => compile_ast(*rhs) + seq![Op::PrintLn],
        Ast::Assign(id, node) => compile_ast(*node) + seq![Op::Assign(id)],
        Ast::Id(name) => seq![Op::Load(name)],
        Ast::Function(id, params, block) => seq![Op::Function(id, params, compile_asts(block))],
        Ast::FunctionCall(id, args) => seq![Op::FunctionCall(id, compile_ast_args(args))],
        Ast::Return(block) => seq![Op::Return(compile_asts(block))],
    }
}

/// The code of a parsed block: the code of each node, one after another.
pub open spec fn compile_asts(s: Seq<Ast>) -> Seq<Op>
    decreases s,
{
    if s.len() == 0 {
        Seq::empty()
    } else {
        compile_asts(s.drop_last()) + compile_ast(s.last())
    }
}

/// The code of parsed call arguments: one block per argument.
pub open spec fn compile_ast_args(s: Seq<Ast>) -> Seq<Seq<Op>>
    decreases s,
{
    if s.len() == 0 {
        Seq::empty()
    } else {
        compile_ast_args(s.drop_last()).push(compile_ast(s.last()))
    }
}

/// Compiling a node gives the code of its content.
pub proof fn lemma_compile_view(n: AstNode)
    ensures
        compile_node(n) == compile_ast(ast_view(n)),
    decreases n, 1int,
{
    match n {
        AstNode::Add { lhs, rhs } => {
            lemma_compile_view(*lhs);
            lemma_compile_view(*rhs);
        },
        AstNode::Mul { lhs, rhs } => {
            lemma_compile_view(*lhs);
            lemma_compile_view(*rhs);
        },
        AstNode::LessThan { lhs, rhs } => {
            lemma_compile_view(*lhs);
            lemma_compile_view(*rhs);
        },
        AstNode::GreaterThan { lhs, rhs } => {
            lemma_compile_view(*lhs);
            lemma_compile_view(*rhs);
        },
        AstNode::PrintLn { rhs } => {
            lemma_compile_view(*rhs);
        },
        AstNode::Assign { id, node } => {
            lemma_compile_view(*node);
        },
        AstNode::Function { id, params, block } => {
            lemma_compile_views(block@);
        },
        AstNode::FunctionCall { id, args } => {
            lemma_compile_arg_views(args@);
        },
        AstNode::Return { block } => {
            lemma_compile_views(block@);
        },
        _ => {},
    }
}

/// Compiling a block gives the code of its content.
pub proof fn lemma_compile_views(s: Seq<AstNode>)
    ensures
        compile_block(s) == compile_asts(ast_views(s)),
    decreases s, 0int,
{
    if s.len() > 0 {
        lemma_compile_views(s.drop_last());
        lemma_compile_view(s.last());
        assert(ast_views(s).drop_last() == ast_views(s.drop_last()));
    }
}

/// Compiling call arguments gives the code of their content.
pub proof fn lemma_compile_arg_views(s: Seq<AstNode>)
    ensures
        compile_args(s) == compile_ast_args(ast_views(s)),
    decreases s, 0int,
{
    if s.len() > 0 {
        lemma_compile_arg_views(s.drop_last());
        lemma_compile_view(s.last());
        assert(ast_views(s).drop_last() == ast_views(s.drop_last()));
    }
}

proof fn lemma_ops_push(s: Seq<Instruction>, i: Instruction)
    ensures
        ops_of(s.push(i)) == ops_of(s).push(op_of(i)),
{
    assert(s.push(i).drop_last() =~= s);
}

proof fn lemma_blocks_push(s: Seq<Vec<Instruction>>, v: Vec<Instruction>)
    ensures
        blocks_of(s.push(v)) == blocks_of(s).push(ops_of(v@)),
{
    assert(s.push(v).drop_last() =~= s);
}

/// Appends the code of `node` to `out`.
pub fn node_to_bytecode(node: &AstNode, out: &mut Vec<Instruction>)
    ensures
        ops_of(final(out)@) == ops_of(old(out)@) + compile_node(*node),
    decreases *node,
{
    let ghost o0 = ops_of(out@);
    match node {
        AstNode::Number { value } => {
            proof {
                lemma_ops_push(out@, Instruction::Push { value: StackValue::Integer(*value) });
            }
            out.push(Instruction::Push { value: StackValue::Integer(*value) });
        },
        AstNode::Boolean { value } => {
            proof {
                lemma_ops_push(out@, Instruction::Push { value: StackValue::Boolean(*value) });
            }
            out.push(Instruction::Push { value: StackValue::Boolean(*value) });
        },
        AstNode::Add { lhs, rhs } => {
            node_to_bytecode(lhs, out);
            node_to_bytecode(rhs, out);
            proof {
                lemma_ops_push(out@, Instruction::Add);
            }
            out.push(Instruction::Add);
            proof {
                assert(ops_of(out@) =~= o0 + compile_node(*node));
            }
        },
        AstNode::Mul { lhs, rhs } => {
            node_to_bytecode(lhs, out);
            node_to_bytecode(rhs, out);
            proof {
                lemma_ops_push(out@, Instruction::Mul);
            }
            out.push(Instruction::Mul);
            proof {
                assert(ops_of(out@) =~= o0 + compile_node(*node));
            }
        },
        AstNode::LessThan { lhs, rhs } => {
            node_to_bytecode(lhs, out);
            node_to_bytecode(rhs, out);
            proof {
                lemma_ops_push(out@, Instruction::LessThan);
            }
            out.push(Instruction::LessThan);
            proof {
                assert(ops_of(out@) =~= o0 + compile_node(*node));
            }
        },
        AstNode::GreaterThan { lhs, rhs } => {
            node_to_bytecode(lhs, out);
            node_to_bytecode(rhs, out);
            proof {
                lemma_ops_push(out@, Instruction::GreaterThan);
            }
            out.push(Instruction::GreaterThan);
            proof {
                assert(ops_of(out@) =~= o0 + compile_node(*node));
            }
        },
        AstNode::PrintLn { rhs } => {
            node_to_bytecode(rhs, out);
            proof {
                lemma_ops_push(out@, Instruction::PrintLn);
            }
            out.push(Instruction::PrintLn);
            proof {
                assert(ops_of(out@) =~= o0 + compile_node(*node));
            }
        },
        AstNode::Assign { id, node: value } => {
            node_to_bytecode(value, out);
            let ins = Instruction::Assign { id: id.clone() };
            proof {
                lemma_ops_push(out@, ins);
            }
            out.push(ins);
            proof {
                assert(ops_of(out@) =~= o0 + compile_node(*node));
            }
        },
        AstNode::Id { name } => {
            let ins = Instruction::Load { id: name.clone() };
            proof {
                lemma_ops_push(out@, ins);
            }
            out.push(ins);
        },
        AstNode::Function { id, params, block } => {
            let body = block_to_bytecode(block);
            let ins = Instruction::Function { id: id.clone(), params: copy_names(params), block: body };
            proof {
                lemma_ops_push(out@, ins);
            }
            out.push(ins);
        },
        AstNode::FunctionCall { id, args } => {
            let code = args_to_bytecode(args);
            let ins = Instruction::FunctionCall { id: id.clone(), args: code };
            proof {
                lemma_ops_push(out@, ins);
            }
            out.push(ins);
        },
        AstNode::Return { block } => {
            let body = block_to_bytecode(block);
            let ins = Instruction::Return { block: body };
            proof {
                lemma_ops_push(out@, ins);
            }
            out.push(ins);
        },
    }
}

/// The code of a block of nodes.
pub fn block_to_bytecode(block: &Vec<AstNode>) -> (r: Vec<Instruction>)
    ensures
        ops_of(r@) == compile_block(block@),
    decreases block@,
{
    let mut out: Vec<Instruction> = Vec::new();
    let mut i: usize = 0;
    proof {
        assert(block@.subrange(0, 0) =~= Seq::<AstNode>::empty());
    }
    while i < block.len()
        invariant
            i <= block@.len(),
            ops_of(out@) == compile_block(block@.subrange(0, i as int)),
        decreases block@.len() - i,
    {
        proof {
            assert(decreases_to!(block@ => block@[i as int]));
        }
        node_to_bytecode(&block[i], &mut out);
        proof {
            assert(block@.subrange(0, i + 1).drop_last() =~= block@.subrange(0, i as int));
        }
        i = i + 1;
    }
    proof {
        assert(block@.subrange(0, i as int) =~= block@);
    }
    out
}

/// The code of call arguments, one block per argument.
pub fn args_to_bytecode(args: &Vec<AstNode>) -> (r: Vec<Vec<Instruction>>)
    ensures
        blocks_of(r@) == compile_args(args@),
    decreases args@,
{
    let mut out: Vec<Vec<Instruction>> = Vec::new();
    let mut i: usize = 0;
    proof {
        assert(args@.subrange(0, 0) =~= Seq::<AstNode>::empty());
    }
    while i < args.len()
        invariant
            i <= args@.len(),
            blocks_of(out@) == compile_args(args@.subrange(0, i as int)),
        decreases args@.len() - i,
    {
        proof {
            assert(decreases_to!(args@ => args@[i as int]));
        }
        let mut code: Vec<Instruction> = Vec::new();
        node_to_bytecode(&args[i], &mut code);
        proof {
            assert(ops_of(Seq::<Instruction>::empty()) =~= Seq::<Op>::empty());
            assert(Seq::<Op>::empty() + compile_node(args@[i as int]) =~= compile_node(args@[i as int]));
            lemma_blocks_push(out@, code);
            assert(args@.subrange(0, i + 1).drop_last() =~= args@.subrange(0, i as int));
        }
        out.push(code);
        i = i + 1;
    }
    proof {
        assert(args@.subrange(0, i as int) =~= args@);
    }
    out
}

/// Whether a node is an expression over literals with `+`, `*`, `<`, `>`.
pub open spec fn is_arith(n: AstNode) -> bool
    decreases n,
{
    match n {
        AstNode::Number { .. } => true,
        AstNode::Boolean { .. } => true,
        AstNode::Add { lhs, rhs } => is_arith(*lhs) && is_arith(*rhs),
        AstNode::Mul { lhs, rhs } => is_arith(*lhs) && is_arith(*rhs),
        AstNode::LessThan { lhs, rhs } => is_arith(*lhs) && is_arith(*rhs),
        AstNode::GreaterThan { lhs, rhs } => is_arith(*lhs) && is_arith(*rhs),
        _ => false,
    }
}

/// The value of an arithmetic expression: `None` when an operand is not
/// an integer or a result does not fit in a `u64`.
pub open spec fn arith_value(n: AstNode) -> Option<StackValue>
    decreases n,
{
    match n {
        AstNode::Number { value } => Some(StackValue::Integer(value)),
        AstNode::Boolean { value } => Some(StackValue::Boolean(value)),
        AstNode::Add { lhs, rhs } => match (arith_value(*lhs), arith_value(*rhs)) {
            (Some(StackValue::Integer(x)), Some(StackValue::Integer(y))) => if x + y <= u64::MAX {
                Some(StackValue::Integer((x + y) as u64))
            } else {
                None
            },
            _ => None,
        },
        AstNode::Mul { lhs, rhs } => match (arith_value(*lhs), arith_value(*rhs)) {
            (Some(StackValue::Integer(x)), Some(StackValue::Integer(y))) => if x * y <= u64::MAX {
                Some(StackValue::Integer((x * y) as u64))
            } else {
                None
            },
            _ => None,
        },
        AstNode::LessThan { lhs, rhs } => match (arith_value(*lhs), arith_value(*rhs)) {
            (Some(StackValue::Integer(x)), Some(StackValue::Integer(y))) => Some(
                StackValue::Boolean(x < y),
            ),
            _ => None,
        },
        AstNode::GreaterThan { lhs, rhs } => match (arith_value(*lhs), arith_value(*rhs)) {
            (Some(StackValue::Integer(x)), Some(StackValue::Integer(y))) => Some(
                StackValue::Boolean(x > y),
            ),
            _ => None,
        },
        _ => None,
    }
}

/// Running `a` then `b` is running `a + b`.
pub proof fn lemma_run_seq_concat(d: nat, m: Machine, a: Seq<Op>, b: Seq<Op>)
    ensures
        run_seq(d, m, a + b) == ({
            let (m1, st) = run_seq(d, m, a);
            if st is Running {
                run_seq(d, m1, b)
            } else {
                (m1, st)
            }
        }),
    decreases a.len(),
{
    if a.len() == 0 {
        assert(a + b =~= b);
    } else {
        assert((a + b)[0] == a[0]);
        assert((a + b).subrange(1, (a + b).len() as int) =~= a.subrange(1, a.len() as int) + b);
        let (m1, st) = step(d, m, a[0]);
        if st is Running {
            lemma_run_seq_concat(d, m1, a.subrange(1, a.len() as int), b);
        }
    }
}

/// The instruction a binary node ends with.
pub open spec fn binary_op(n: AstNode) -> Op {
    match n {
        AstNode::Add { .. } => Op::Add,
        AstNode::Mul { .. } => Op::Mul,
        AstNode::LessThan { .. } => Op::LessThan,
        _ => Op::GreaterThan,
    }
}

/// The code of an arithmetic expression, run on any machine, pushes the
/// expression's value and changes nothing else; when the expression has no
/// value it fails, and it never panics.
pub proof fn law_arith_code(d: nat, m: Machine, e: AstNode)
    requires
        is_arith(e),
    ensures
        arith_value(e) matches Some(v) ==> run_seq(d, m, compile_node(e)) == (
            m.push(v),
            Status::Running,
        ),
        arith_value(e) is None ==> run_seq(d, m, compile_node(e)).1 is Failed,
    decreases e,
{
    match e {
        AstNode::Number { value } => {
            lemma_run_single(d, m, Op::Push(StackValue::Integer(value)));
        },
        AstNode::Boolean { value } => {
            lemma_run_single(d, m, Op::Push(StackValue::Boolean(value)));
        },
        AstNode::Add { lhs, rhs } => {
            lemma_binary_code(d, m, e, *lhs, *rhs);
        },
        AstNode::Mul { lhs, rhs } => {
            lemma_binary_code(d, m, e, *lhs, *rhs);
        },
        AstNode::LessThan { lhs, rhs } => {
            lemma_binary_code(d, m, e, *lhs, *rhs);
        },
        AstNode::GreaterThan { lhs, rhs } => {
            lemma_binary_code(d, m, e, *lhs, *rhs);
        },
        _ => {},
    }
}

proof fn lemma_binary_code(d: nat, m: Machine, e: AstNode, lhs: AstNode, rhs: AstNode)
    requires
        is_arith(e),
        e is Add || e is Mul || e is LessThan || e is GreaterThan,
        e is Add ==> e == (AstNode::Add { lhs: Box::new(lhs), rhs: Box::new(rhs) }),
        e is Mul ==> e == (AstNode::Mul { lhs: Box::new(lhs), rhs: Box::new(rhs) }),
        e is LessThan ==> e == (AstNode::LessThan { lhs: Box::new(lhs), rhs: Box::new(rhs) }),
        e is GreaterThan ==> e == (AstNode::GreaterThan { lhs: Box::new(lhs), rhs: Box::new(rhs) }),
    ensures
        arith_value(e) matches Some(v) ==> run_seq(d, m, compile_node(e)) == (
            m.push(v),
            Status::Running,
        ),
        arith_value(e) is None ==> run_seq(d, m, compile_node(e)).1 is Failed,
    decreases e, 0int,
{
    assert(decreases_to!(e => lhs));
    assert(decreases_to!(e => rhs));
    law_arith_code(d, m, lhs);
    let cl = compile_node(lhs);
    let cr = compile_node(rhs);
    let op = binary_op(e);
    assert(compile_node(e) == cl + cr + seq![op]);
    lemma_run_seq_concat(d, m, cl + cr, seq![op]);
    lemma_run_seq_concat(d, m, cl, cr);
    if let Some(a) = arith_value(lhs) {
        law_arith_code(d, m.push(a), rhs);
        if let Some(b) = arith_value(rhs) {
            lemma_run_single(d, m.push(a).push(b), op);
            lemma_binary_step(d, m, e, lhs, rhs, a, b);
        }
    }
}

proof fn lemma_binary_step(d: nat, m: Machine, e: AstNode, lhs: AstNode, rhs: AstNode, a: StackValue, b: StackValue)
    requires
        e is Add || e is Mul || e is LessThan || e is GreaterThan,
        e is Add ==> e == (AstNode::Add { lhs: Box::new(lhs), rhs: Box::new(rhs) }),
        e is Mul ==> e == (AstNode::Mul { lhs: Box::new(lhs), rhs: Box::new(rhs) }),
        e is LessThan ==> e == (AstNode::LessThan { lhs: Box::new(lhs), rhs: Box::new(rhs) }),
        e is GreaterThan ==> e == (AstNode::GreaterThan { lhs: Box::new(lhs), rhs: Box::new(rhs) }),
        arith_value(lhs) == Some(a),
        arith_value(rhs) == Some(b),
    ensures
        ({
            let (m2, st) = step(d, m.push(a).push(b), binary_op(e));
            &&& arith_value(e) matches Some(v) ==> m2 == m.push(v) && st is Running
            &&& arith_value(e) is None ==> st is Failed
        }),
{
    let mm = m.push(a).push(b);
    assert(mm.stack.drop_last() =~= m.stack.push(a));
    assert(m.stack.push(a).drop_last() =~= m.stack);
    let (m2, st) = step(d, mm, binary_op(e));
    assert(mm.stack.last() == b);
    assert(mm.stack.drop_last().last() == a);
    if let (StackValue::Integer(x), StackValue::Integer(y)) = (a, b) {
        if e is Add {
            assert(m2 == numeric_step(mm, Operator::Add).0);
            if x + y <= u64::MAX {
                assert(m2 =~= m.push(StackValue::Integer((x + y) as u64)));
            }
        } else if e is Mul {
            assert(m2 == numeric_step(mm, Operator::Mul).0);
            if x * y <= u64::MAX {
                assert(y * x == x * y) by (nonlinear_arith);
                assert(m2 =~= m.push(StackValue::Integer((x * y) as u64)));
            }
        } else if e is LessThan {
            assert(m2 == boolean_step(mm, Operator::LessThan).0);
            assert(m2 =~= m.push(StackValue::Boolean(x < y)));
        } else {
            assert(m2 == boolean_step(mm, Operator::GreaterThan).0);
            assert(m2 =~= m.push(StackValue::Boolean(x > y)));
        }
    }
}

proof fn lemma_run_single(d: nat, m: Machine, op: Op)
    ensures
        run_seq(d, m, seq![op]) == step(d, m, op),
{
    let c = seq![op];
    assert(c[0] == op);
    assert(c.subrange(1, 1) =~= Seq::<Op>::empty());
    let (m1, st) = step(d, m, op);
    if st is Running {
        assert(run_seq(d, m1, Seq::<Op>::empty()) == (m1, Status::Running));
    }
}


/// The arguments of a call compile one block per argument, in the order
/// written: block `k` is the code of argument `k`, so the `k`-th value a
/// call receives is that of the `k`-th argument expression.
pub proof fn law_compile_args_in_order(s: Seq<AstNode>)
    ensures
        compile_args(s).len() == s.len(),
        forall|k: int| 0 <= k < s.len() ==> #[trigger] compile_args(s)[k] == compile_node(s[k]),
    decreases s.len(),
{
    if s.len() > 0 {
        law_compile_args_in_order(s.drop_last());
        assert forall|k: int| 0 <= k < s.len() implies #[trigger] compile_args(s)[k] == compile_node(
            s[k],
        ) by {
            if k < s.len() - 1 {
                assert(s.drop_last()[k] == s[k]);
            }
        }
    }
}

/// The same for parsed arguments: block `k` is the code of argument `k`.
pub proof fn law_compile_ast_args_in_order(s: Seq<Ast>)
    ensures
        compile_ast_args(s).len() == s.len(),
        forall|k: int| 0 <= k < s.len() ==> #[trigger] compile_ast_args(s)[k] == compile_ast(s[k]),
    decreases s.len(),
{
    if s.len() > 0 {
        law_compile_ast_args_in_order(s.drop_last());
        assert forall|k: int| 0 <= k < s.len() implies #[trigger] compile_ast_args(s)[k] == compile_ast(
            s[k],
        ) by {
            if k < s.len() - 1 {
                assert(s.drop_last()[k] == s[k]);
            }
        }
    }
}

} // verus!
