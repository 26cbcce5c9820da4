//! The interpreter.

use std::collections::HashMap;
use crate::ast::AstNode;
use crate::lexer::{chars_of, tokenize, lemma_lex_wf, lex};
use crate::grammar::{program_d, law_parse_derives, law_parse_complete};
use crate::lexer::Token;
use vstd::string::StrSliceExecFns;
use crate::parser::{Ast, ast_views, lemma_ast_views_len, p_program, program};
use crate::bytecode::{block_to_bytecode, compile_block, compile_asts, lemma_compile_views};
use vstd::string::StringExecFns;
use crate::text::{split, split_after, lemma_split_step};
use crate::error::{InterpError, Operator, Fault};
use crate::instruction::{
    Instruction, StackValue, Op, op_of, ops_of, blocks_of, names_of, lemma_ops_of,
    lemma_blocks_of, copy_instruction, copy_block, copy_names,
};
use crate::scope::{Scope, lookup_var};
use crate::semantics::{
    Machine, Status, Outcome, MAX_CALL_DEPTH, sym_index, lemma_sym_index, intern, bind_params, numeric_stack,
    boolean_stack, run_block, run_seq, run_args, call, step, result_matches, status_matches,
    print_step, assign_step, load_step, define_step, machine_wf, extends, law_block_extends,
};
use vstd::prelude::*;

verus! {

/// One statement of a line: nothing when its text is empty (the value of
/// the line so far, `last`, stays); otherwise the text with a `;` after it
/// is parsed, compiled and evaluated, and its value becomes the line's.
pub open spec fn statement_step(m: Machine, piece: Seq<char>, last: Option<StackValue>) -> (
    Machine,
    Outcome,
) {
    if piece.len() == 0 {
        (m, Outcome::Value(last))
    } else {
        match program(piece.push(';')) {
            Err(p) => (m, Outcome::Failed(Fault::ParseError(p))),
            Ok(a) => run_block(MAX_CALL_DEPTH as nat, m, compile_asts(a)),
        }
    }
}

/// The statements of the line `cs`, split at every `;`, run in order from
/// the one that starts at `start` (the scan having reached `i`), stopping
/// at the first that fails; the value is that of the last statement run.
pub open spec fn run_text(
    m: Machine,
    cs: Seq<char>,
    start: nat,
    i: nat,
    last: Option<StackValue>,
) -> (Machine, Outcome)
    decreases cs.len() - i,
{
    if i >= cs.len() {
        statement_step(m, cs.subrange(start as int, cs.len() as int), last)
    } else if cs[i as int] == ';' {
        let (m1, out) = statement_step(m, cs.subrange(start as int, i as int), last);
        match out {
            Outcome::Value(v) => run_text(m1, cs, i + 1, i + 1, v),
            _ => (m1, out),
        }
    } else {
        run_text(m, cs, start, i + 1, last)
    }
}

/// The pieces of a line run in order, each as a statement (see
/// `statement_step`), stopping at the first that fails; the value is that
/// of the last statement run, `last` when none runs.
pub open spec fn run_pieces(m: Machine, ps: Seq<Seq<char>>, last: Option<StackValue>) -> (
    Machine,
    Outcome,
)
    decreases ps.len(),
{
    if ps.len() == 0 {
        (m, Outcome::Value(last))
    } else {
        let (m1, out) = statement_step(m, ps[0], last);
        match out {
            Outcome::Value(v) => run_pieces(m1, ps.drop_first(), v),
            _ => (m1, out),
        }
    }
}

proof fn lemma_run_text(m: Machine, cs: Seq<char>, start: nat, i: nat, last: Option<StackValue>)
    requires
        start <= i <= cs.len(),
    ensures
        run_text(m, cs, start, i, last) == run_pieces(m, split_after(cs, ';', start, i), last),
    decreases cs.len() - i,
{
    lemma_split_step(cs, ';', start, i);
    let p = cs.subrange(start as int, i as int);
    if i >= cs.len() {
        reveal_with_fuel(run_pieces, 2);
        assert(seq![p].drop_first() =~= Seq::<Seq<char>>::empty());
    } else if cs[i as int] == ';' {
        let (m1, out) = statement_step(m, p, last);
        let rest = split_after(cs, ';', i + 1, i + 1);
        assert((seq![p] + rest)[0] == p);
        assert((seq![p] + rest).drop_first() =~= rest);
        if let Outcome::Value(v) = out {
            lemma_run_text(m1, cs, i + 1, i + 1, v);
        }
    } else {
        lemma_run_text(m, cs, start, i + 1, last);
    }
}

/// A line runs as its pieces between `;`, in order: empty pieces are
/// skipped, the first failing statement ends the line, and the value is
/// that of the last statement run.
pub proof fn law_statements_split(m: Machine, cs: Seq<char>, last: Option<StackValue>)
    ensures
        run_text(m, cs, 0, 0, last) == run_pieces(m, split(cs, ';'), last),
{
    lemma_run_text(m, cs, 0, 0, last);
    lemma_split_step(cs, ';', 0, 0);
}

/// The interpreter's state: the evaluation stack, the defined functions,
/// the names it has seen, and what it has printed.
pub struct Calc {
    fun_store: HashMap<u64, Instruction>,
    stack: Vec<StackValue>,
    symbols: Vec<String>,
    printed: Vec<StackValue>,
}

impl Calc {
    /// The evaluation stack; its last element is the top.
    pub closed spec fn stack_model(&self) -> Seq<StackValue> {
        self.stack@
    }

    /// The values printed and not yet taken, in order.
    pub closed spec fn printed_model(&self) -> Seq<StackValue> {
        self.printed@
    }

    /// The defined functions, by the id of their name.
    pub closed spec fn funs_model(&self) -> Map<nat, Op> {
        Map::new(
            |k: nat| k <= u64::MAX && self.fun_store@.contains_key(k as u64),
            |k: nat| op_of(self.fun_store@[k as u64]),
        )
    }

    /// The names seen so far; a name's id is its position.
    pub closed spec fn syms_model(&self) -> Seq<Seq<char>> {
        self.symbols@.map_values(|s: String| s@)
    }

    /// The whole state, together with the variable frames of a scope.
    pub open spec fn machine(&self, frames: Seq<Map<u64, StackValue>>) -> Machine {
        Machine {
            stack: self.stack_model(),
            funs: self.funs_model(),
            syms: self.syms_model(),
            printed: self.printed_model(),
            frames,
        }
    }

    /// An interpreter with an empty stack and nothing defined.
    pub fn new() -> (r: Self)
        ensures
            r.stack_model() == Seq::<StackValue>::empty(),
            r.funs_model() == Map::<nat, Op>::empty(),
            r.syms_model() == Seq::<Seq<char>>::empty(),
            r.printed_model() == Seq::<StackValue>::empty(),
    {
        let r = Calc {
            fun_store: HashMap::new(),
            stack: Vec::new(),
            symbols: Vec::new(),
            printed: Vec::new(),
        };
        proof {
            assert(r.funs_model() =~= Map::<nat, Op>::empty());
            assert(r.syms_model() =~= Seq::<Seq<char>>::empty());
        }
        r
    }

    /// The statements of a program text (see `program` for the result and
    /// the error position): the text is accepted exactly when its tokens
    /// derive a list of statements under the grammar (see `program_d`), and
    /// then that list is the one returned.
    pub fn from_str(&self, input: &str) -> (r: Result<Vec<AstNode>, InterpError>)
        ensures
            match program(input@) {
                Ok(a) => r matches Ok(v) && ast_views(v@) == a,
                Err(p) => r matches Err(e) && e@ == Fault::ParseError(p),
            },
            r matches Ok(v) ==> lex(input@) matches Ok(ts) && program_d(ts, input@, ast_views(v@)),
            forall|ts: Seq<Token>, ss: Seq<Ast>|
                lex(input@) == Ok::<Seq<Token>, nat>(ts) && #[trigger] program_d(ts, input@, ss)
                    ==> (r matches Ok(v) && ast_views(v@) == ss),
    {
        proof {
            law_parse_derives(input@);
            assert forall|ts: Seq<Token>, ss: Seq<Ast>|
                lex(input@) == Ok::<Seq<Token>, nat>(ts) && #[trigger] program_d(ts, input@, ss)
                    implies program(input@) == Ok::<Seq<Ast>, nat>(ss) by {
                law_parse_complete(input@, ts, ss);
            }
        }
        let cs = chars_of(input);
        let ts = match tokenize(&cs) {
            Ok(ts) => ts,
            Err(p) => {
                return Err(InterpError::ParseError(p));
            },
        };
        proof {
            assert(cs@.len() == cs.len());
            lemma_lex_wf(cs@, 0, Seq::empty());
            lemma_ast_views_len(Seq::<AstNode>::empty());
            assert(ast_views(Seq::<AstNode>::empty()) =~= Seq::<Ast>::empty());
        }
        match p_program(&ts, input, 0, Vec::new()) {
            Ok(v) => Ok(v),
            Err(k) => {
                if k < ts.len() {
                    Err(InterpError::ParseError(ts[k].start))
                } else {
                    Err(InterpError::ParseError(cs.len()))
                }
            },
        }
    }

    /// The bytecode of a program: the code of each node, in order (see
    /// `compile_block`).
    pub fn ast_to_bytecode(ast: Vec<AstNode>) -> (r: Vec<Instruction>)
        ensures
            ops_of(r@) == compile_block(ast@),
    {
        block_to_bytecode(&ast)
    }

    /// Pops the top of the stack; `EmptyStack` when there is none.
    pub fn stack_pop(&mut self) -> (r: Result<StackValue, InterpError>)
        ensures
            old(self).stack_model().len() == 0 ==> r == Err::<StackValue, InterpError>(
                InterpError::EmptyStack,
            ) && final(self).stack_model() == old(self).stack_model(),
            old(self).stack_model().len() > 0 ==> r == Ok::<StackValue, InterpError>(
                old(self).stack_model().last(),
            ) && final(self).stack_model() == old(self).stack_model().drop_last(),
            final(self).funs_model() == old(self).funs_model(),
            final(self).syms_model() == old(self).syms_model(),
            final(self).printed_model() == old(self).printed_model(),
    {
        match self.stack.pop() {
            Some(v) => Ok(v),
            None => Err(InterpError::EmptyStack),
        }
    }

    /// Pushes `val` on the stack.
    pub fn stack_push(&mut self, val: StackValue)
        ensures
            final(self).stack_model() == old(self).stack_model().push(val),
            final(self).funs_model() == old(self).funs_model(),
            final(self).syms_model() == old(self).syms_model(),
            final(self).printed_model() == old(self).printed_model(),
    {
        self.stack.push(val);
    }

    /// Hands out the values printed so far, in order, and forgets them.
    pub fn take_printed(&mut self) -> (r: Vec<StackValue>)
        ensures
            r@ == old(self).printed_model(),
            final(self).printed_model() == Seq::<StackValue>::empty(),
            final(self).stack_model() == old(self).stack_model(),
            final(self).funs_model() == old(self).funs_model(),
            final(self).syms_model() == old(self).syms_model(),
    {
        let mut out: Vec<StackValue> = Vec::new();
        std::mem::swap(&mut out, &mut self.printed);
        out
    }

    /// The id of `name`, if it has one.
    pub fn lookup_symbol(&self, name: &String) -> (r: Option<u64>)
        ensures
            match sym_index(self.syms_model(), name@) {
                Some(k) => r matches Some(x) && x as nat == k && k < self.syms_model().len(),
                None => r is None,
            },
    {
        let mut i: usize = 0;
        while i < self.symbols.len()
            invariant
                i <= self.symbols@.len(),
                self.syms_model().len() == self.symbols@.len(),
                forall|j: int| 0 <= j < i ==> self.syms_model()[j] != name@,
            decreases self.symbols@.len() - i,
        {
            if self.symbols[i] == *name {
                proof {
                    lemma_sym_index(self.syms_model(), name@);
                    assert(self.syms_model()[i as int] == name@);
                }
                return Some(i as u64);
            }
            i = i + 1;
        }
        proof {
            lemma_sym_index(self.syms_model(), name@);
        }
        None
    }

    /// The id of `name`, giving it the next free one when it has none.
    fn intern(&mut self, name: &String) -> (r: u64)
        ensures
            (final(self).syms_model(), r as nat) == intern(old(self).syms_model(), name@),
            final(self).stack_model() == old(self).stack_model(),
            final(self).funs_model() == old(self).funs_model(),
            final(self).printed_model() == old(self).printed_model(),
    {
        match self.lookup_symbol(name) {
            Some(k) => {
                proof {
                    assert(self.syms_model().len() == self.symbols.len());
                }
                k
            },
            None => {
                let k = self.symbols.len() as u64;
                self.symbols.push(name.clone());
                proof {
                    assert(self.syms_model() =~= old(self).syms_model().push(name@));
                }
                k
            },
        }
    }

    /// Pops two integers and pushes their sum or product.
    fn eval_numeric_stmt(&mut self, op: Operator) -> (r: Result<Option<StackValue>, InterpError>)
        requires
            old(self).stack_model().len() > 0,
        ensures
            ({
                let (s, st) = numeric_stack(old(self).stack_model(), op);
                &&& final(self).stack_model() == s
                &&& st is Running <==> r is Ok
                &&& r matches Ok(v) ==> v == Some(s.last())
                &&& r matches Err(e) ==> st == Status::Failed(e@)
            }),
            final(self).funs_model() == old(self).funs_model(),
            final(self).syms_model() == old(self).syms_model(),
            final(self).printed_model() == old(self).printed_model(),
    {
        let op1 = self.stack_pop();
        if let Ok(StackValue::Integer(op1_val)) = op1 {
            let op2 = self.stack_pop();
            if let Ok(StackValue::Integer(op2_val)) = op2 {
                let val;
                match op {
                    Operator::Add => {
                        match op1_val.checked_add(op2_val) {
                            Some(v) => {
                                val = v;
                            },
                            None => {
                                return Err(InterpError::Overflow);
                            },
                        }
                    },
                    Operator::Mul => {
                        match op1_val.checked_mul(op2_val) {
                            Some(v) => {
                                val = v;
                            },
                            None => {
                                return Err(InterpError::Overflow);
                            },
                        }
                    },
                    _ => {
                        return Err(InterpError::UnexpectedOperator(op));
                    },
                }
                self.stack_push(StackValue::Integer(val));
                Ok(Some(StackValue::Integer(val)))
            } else {
                Err(InterpError::InvalidOperand { operand: op1.unwrap(), operator: op })
            }
        } else {
            Err(InterpError::InvalidOperand { operand: op1.unwrap(), operator: op })
        }
    }

    /// Pops two integers `a` (the top) and `b` and pushes whether `b < a`
    /// or `b > a`.
    fn eval_boolean_stmt(&mut self, op: Operator) -> (r: Result<Option<StackValue>, InterpError>)
        requires
            old(self).stack_model().len() > 0,
        ensures
            ({
                let (s, st) = boolean_stack(old(self).stack_model(), op);
                &&& final(self).stack_model() == s
                &&& st is Running <==> r is Ok
                &&& r matches Ok(v) ==> v == Some(s.last())
                &&& r matches Err(e) ==> st == Status::Failed(e@)
            }),
            final(self).funs_model() == old(self).funs_model(),
            final(self).syms_model() == old(self).syms_model(),
            final(self).printed_model() == old(self).printed_model(),
    {
        let op1 = self.stack_pop();
        if let Ok(StackValue::Integer(op1_val)) = op1 {
            let op2 = self.stack_pop();
            if let Ok(StackValue::Integer(op2_val)) = op2 {
                let val;
                match op {
                    Operator::GreaterThan => {
                        val = StackValue::Boolean(op2_val > op1_val);
                    },
                    Operator::LessThan => {
                        val = StackValue::Boolean(op2_val < op1_val);
                    },
                    _ => {
                        return Err(InterpError::UnexpectedOperator(op));
                    },
                }
                self.stack_push(val);
                Ok(Some(val))
            } else {
                Err(InterpError::InvalidOperand { operand: op1.unwrap(), operator: op })
            }
        } else {
            Err(InterpError::InvalidOperand { operand: op1.unwrap(), operator: op })
        }
    }

    /// Evaluates `instructions` in `scope`: every instruction in order,
    /// stopping at the first error; then pops the top of the stack, if any,
    /// as the value of the whole. Values printed are kept, in order, for
    /// `take_printed`. Each call spends one unit of `MAX_CALL_DEPTH`.
    ///
    /// Precondition: the evaluation does not reach a `PrintLn`, `Add`,
    /// `Mul`, `LessThan` or `GreaterThan` with an empty stack (on which it
    /// panics).
    pub fn eval(&mut self, instructions: &Vec<Instruction>, scope: &mut Scope) -> (r: Result<
        Option<StackValue>,
        InterpError,
    >)
        requires
            !(run_block(
                MAX_CALL_DEPTH as nat,
                old(self).machine(old(scope).var_frames()),
                ops_of(instructions@),
            ).1 is Panicked),
        ensures
            ({
                let (m, out) = run_block(
                    MAX_CALL_DEPTH as nat,
                    old(self).machine(old(scope).var_frames()),
                    ops_of(instructions@),
                );
                &&& final(self).machine(final(scope).var_frames()) == m
                &&& result_matches(r, out)
            }),
            final(scope).fun_frames() == old(scope).fun_frames(),
            final(scope).var_frames().len() == old(scope).var_frames().len(),
            machine_wf(old(self).machine(old(scope).var_frames())) ==> extends(
                old(self).machine(old(scope).var_frames()),
                final(self).machine(final(scope).var_frames()),
            ) && machine_wf(final(self).machine(final(scope).var_frames())),
    {
        let r = self.eval_block(instructions, scope, MAX_CALL_DEPTH);
        proof {
            if machine_wf(old(self).machine(old(scope).var_frames())) {
                law_block_extends(
                    MAX_CALL_DEPTH as nat,
                    old(self).machine(old(scope).var_frames()),
                    ops_of(instructions@),
                );
            }
        }
        r
    }

    /// Evaluates a line of statements separated by `;` (see `run_text`):
    /// each non-empty statement is parsed, compiled and evaluated in turn,
    /// and the first error ends the line. The value is that of the last
    /// statement evaluated.
    ///
    /// Precondition: as for `eval`, no statement panics.
    pub fn eval_statements(&mut self, input: &str, scope: &mut Scope) -> (r: Result<
        Option<StackValue>,
        InterpError,
    >)
        requires
            !(run_text(old(self).machine(old(scope).var_frames()), input@, 0, 0, None).1 is Panicked),
        ensures
            ({
                let (m, out) = run_text(old(self).machine(old(scope).var_frames()), input@, 0, 0, None);
                &&& final(self).machine(final(scope).var_frames()) == m
                &&& result_matches(r, out)
            }),
            final(scope).fun_frames() == old(scope).fun_frames(),
            final(scope).var_frames().len() == old(scope).var_frames().len(),
    {
        let ghost m0 = self.machine(scope.var_frames());
        let cs = chars_of(input);
        let mut start: usize = 0;
        let mut i: usize = 0;
        let mut last: Option<StackValue> = None;
        while i < cs.len()
            invariant
                start <= i <= cs@.len(),
                cs@ == input@,
                run_text(m0, input@, 0, 0, None) == run_text(
                    self.machine(scope.var_frames()),
                    input@,
                    start as nat,
                    i as nat,
                    last,
                ),
                !(run_text(m0, input@, 0, 0, None).1 is Panicked),
                m0 == old(self).machine(old(scope).var_frames()),
                scope.fun_frames() == old(scope).fun_frames(),
                scope.var_frames().len() == old(scope).var_frames().len(),
            decreases cs@.len() - i,
        {
            if cs[i] == ';' {
                match self.run_statement(input, start, i, last, scope) {
                    Ok(v) => {
                        last = v;
                    },
                    Err(e) => {
                        return Err(e);
                    },
                }
                i = i + 1;
                start = i;
            } else {
                i = i + 1;
            }
        }
        self.run_statement(input, start, i, last, scope)
    }

    /// The statement `input[start..end]` (see `statement_step`).
    fn run_statement(
        &mut self,
        input: &str,
        start: usize,
        end: usize,
        last: Option<StackValue>,
        scope: &mut Scope,
    ) -> (r: Result<Option<StackValue>, InterpError>)
        requires
            start <= end <= input@.len(),
            !(statement_step(
                old(self).machine(old(scope).var_frames()),
                input@.subrange(start as int, end as int),
                last,
            ).1 is Panicked),
        ensures
            ({
                let (m, out) = statement_step(
                    old(self).machine(old(scope).var_frames()),
                    input@.subrange(start as int, end as int),
                    last,
                );
                &&& final(self).machine(final(scope).var_frames()) == m
                &&& result_matches(r, out)
            }),
            final(scope).fun_frames() == old(scope).fun_frames(),
            final(scope).var_frames().len() == old(scope).var_frames().len(),
    {
        if start == end {
            return Ok(last);
        }
        let piece = input.substring_char(start, end);
        let mut text = piece.to_owned();
        text.append(";");
        proof {
            reveal_strlit(";");
            assert(text@ =~= input@.subrange(start as int, end as int).push(';'));
        }
        let ast = match self.from_str(text.as_str()) {
            Ok(a) => a,
            Err(e) => {
                return Err(e);
            },
        };
        proof {
            lemma_compile_views(ast@);
        }
        let code = Calc::ast_to_bytecode(ast);
        self.eval(&code, scope)
    }

    /// The value of the variable `name` in `scope`.
    pub fn get_var(&self, name: &String, scope: &Scope) -> (r: Option<StackValue>)
        ensures
            r == match sym_index(self.syms_model(), name@) {
                Some(k) => lookup_var(scope.var_frames(), k as u64),
                None => None,
            },
    {
        match self.lookup_symbol(name) {
            Some(k) => scope.get_var(k),
            None => None,
        }
    }

    fn eval_block(&mut self, instructions: &Vec<Instruction>, scope: &mut Scope, depth: u64) -> (r:
        Result<Option<StackValue>, InterpError>)
        requires
            !(run_block(
                depth as nat,
                old(self).machine(old(scope).var_frames()),
                ops_of(instructions@),
            ).1 is Panicked),
        ensures
            ({
                let (m, out) = run_block(
                    depth as nat,
                    old(self).machine(old(scope).var_frames()),
                    ops_of(instructions@),
                );
                &&& final(self).machine(final(scope).var_frames()) == m
                &&& result_matches(r, out)
            }),
            final(scope).fun_frames() == old(scope).fun_frames(),
            final(scope).var_frames().len() == old(scope).var_frames().len(),
        decreases depth, 1int, ops_of(instructions@), 1int,
    {
        let ghost d = depth as nat;
        let ghost m0 = self.machine(scope.var_frames());
        let ghost ops = ops_of(instructions@);
        proof {
            lemma_ops_of(instructions@);
            assert(ops.subrange(0, ops.len() as int) =~= ops);
        }
        let mut i: usize = 0;
        while i < instructions.len()
            invariant
                i <= instructions@.len(),
                d == depth as nat,
                m0 == old(self).machine(old(scope).var_frames()),
                ops == ops_of(instructions@),
                ops.len() == instructions@.len(),
                forall|j: int| 0 <= j < instructions@.len() ==> #[trigger] ops[j] == op_of(instructions@[j]),
                run_seq(d, m0, ops) == run_seq(
                    d,
                    self.machine(scope.var_frames()),
                    ops.subrange(i as int, ops.len() as int),
                ),
                !(run_seq(d, m0, ops).1 is Panicked),
                scope.fun_frames() == old(scope).fun_frames(),
                scope.var_frames().len() == old(scope).var_frames().len(),
            decreases instructions@.len() - i,
        {
            let ghost rest = ops.subrange(i as int, ops.len() as int);
            proof {
                assert(rest[0] == ops[i as int]);
                assert(rest.subrange(1, rest.len() as int) =~= ops.subrange(i + 1, ops.len() as int));
                assert(decreases_to!(ops => ops[i as int]));
            }
            let ghost cur = self.machine(scope.var_frames());
            let res = self.eval_instruction(&instructions[i], scope, depth);
            match res {
                Err(e) => {
                    proof {
                        let (m1, st) = step(d, cur, ops[i as int]);
                        assert(st == Status::Failed(e@));
                        assert(run_seq(d, cur, rest) == (m1, st));
                        assert(run_seq(d, m0, ops) == (m1, st));
                        assert(run_block(d, m0, ops) == (m1, Outcome::Failed(e@)));
                        assert(self.machine(scope.var_frames()) == m1);
                    }
                    return Err(e);
                },
                Ok(()) => {},
            }
            i = i + 1;
        }
        proof {
            assert(ops.subrange(i as int, ops.len() as int) =~= Seq::<Op>::empty());
        }
        let ghost cur = self.machine(scope.var_frames());
        match self.stack.pop() {
            Some(v) => {
                proof {
                    assert(self.machine(scope.var_frames()) =~= cur.pop());
                }
                Ok(Some(v))
            },
            None => Ok(None),
        }
    }

    fn print_top(&mut self, Ghost(frames): Ghost<Seq<Map<u64, StackValue>>>)
        requires
            old(self).stack_model().len() > 0,
        ensures
            final(self).machine(frames) == print_step(old(self).machine(frames)).0,
    {
        let v = self.stack.pop().unwrap();
        self.printed.push(v);
        proof {
            assert(self.machine(frames) =~= print_step(old(self).machine(frames)).0);
        }
    }

    fn define_function(
        &mut self,
        id: &String,
        params: &Vec<String>,
        body: &Vec<Instruction>,
        Ghost(frames): Ghost<Seq<Map<u64, StackValue>>>,
    ) -> (r: Result<(), InterpError>)
        ensures
            ({
                let (m, st) = define_step(
                    old(self).machine(frames),
                    id@,
                    names_of(params@),
                    ops_of(body@),
                );
                &&& final(self).machine(frames) == m
                &&& status_matches(r, st)
            }),
    {
        let defined = match self.lookup_symbol(id) {
            Some(k) => self.fun_store.contains_key(&k),
            None => false,
        };
        if !defined {
            let k = self.intern(id);
            let f = Instruction::Function {
                id: id.clone(),
                params: copy_names(params),
                block: copy_block(body),
            };
            let ghost funs1 = self.funs_model();
            self.fun_store.insert(k, f);
            proof {
                assert(self.funs_model() =~= funs1.insert(k as nat, op_of(f)));
                assert(self.machine(frames) =~= define_step(
                    old(self).machine(frames),
                    id@,
                    names_of(params@),
                    ops_of(body@),
                ).0);
            }
            Ok(())
        } else {
            Err(InterpError::FunctionAlreadyDefined(id.clone()))
        }
    }

    fn assign(&mut self, id: &String, scope: &mut Scope) -> (r: Result<(), InterpError>)
        ensures
            ({
                let (m, st) = assign_step(old(self).machine(old(scope).var_frames()), id@);
                &&& final(self).machine(final(scope).var_frames()) == m
                &&& status_matches(r, st)
            }),
            final(scope).fun_frames() == old(scope).fun_frames(),
            final(scope).var_frames().len() == old(scope).var_frames().len(),
    {
        proof {
            scope.lemma_frames_len();
        }
        match self.stack_pop() {
            Err(e) => Err(e),
            Ok(val) => {
                let k = self.intern(id);
                scope.dec_var(k, val);
                proof {
                    assert(self.machine(scope.var_frames()) =~= assign_step(
                        old(self).machine(old(scope).var_frames()),
                        id@,
                    ).0);
                }
                Ok(())
            },
        }
    }

    fn load(&mut self, id: &String, scope: &Scope) -> (r: Result<(), InterpError>)
        ensures
            ({
                let (m, st) = load_step(old(self).machine(scope.var_frames()), id@);
                &&& final(self).machine(scope.var_frames()) == m
                &&& status_matches(r, st)
            }),
    {
        match self.lookup_symbol(id) {
            Some(k) => match scope.get_var(k) {
                Some(v) => {
                    self.stack_push(v);
                    proof {
                        assert(self.machine(scope.var_frames()) =~= old(self).machine(
                            scope.var_frames(),
                        ).push(v));
                    }
                    Ok(())
                },
                None => Err(InterpError::UndefinedVariable(id.clone())),
            },
            None => Err(InterpError::UndefinedVariable(id.clone())),
        }
    }

    #[verifier::spinoff_prover]
    fn eval_instruction(&mut self, instruction: &Instruction, scope: &mut Scope, depth: u64) -> (r:
        Result<(), InterpError>)
        requires
            !(step(depth as nat, old(self).machine(old(scope).var_frames()), op_of(*instruction)).1 is Panicked),
        ensures
            ({
                let (m, st) = step(
                    depth as nat,
                    old(self).machine(old(scope).var_frames()),
                    op_of(*instruction),
                );
                &&& final(self).machine(final(scope).var_frames()) == m
                &&& status_matches(r, st)
            }),
            final(scope).fun_frames() == old(scope).fun_frames(),
            final(scope).var_frames().len() == old(scope).var_frames().len(),
        decreases depth, 1int, op_of(*instruction), 0int,
    {
        let ghost m0 = self.machine(scope.var_frames());
        proof {
            scope.lemma_frames_len();
        }
        match instruction {
            Instruction::Return { block } => {
                proof {
                    assert(op_of(*instruction)->Return_0 == ops_of(block@));
                    assert(decreases_to!(op_of(*instruction) => op_of(*instruction)->Return_0));
                }
                let val = self.eval_block(block, scope, depth);
                match val {
                    Err(e) => Err(e),
                    Ok(v) => {
                        if let Some(x) = v {
                            self.stack_push(x);
                            proof {
                                let (m1, out) = run_block(depth as nat, m0, ops_of(block@));
                                assert(self.machine(scope.var_frames()) =~= m1.push(x));
                            }
                        }
                        Ok(())
                    },
                }
            },
            Instruction::Function { block: body, id, params } => {
                self.define_function(id, params, body, Ghost(scope.var_frames()))
            },
            Instruction::FunctionCall { id, args } => {
                proof {
                    assert(op_of(*instruction)->FunctionCall_1 == blocks_of(args@));
                    assert(decreases_to!(op_of(*instruction) => op_of(*instruction)->FunctionCall_1));
                }
                let arg_list = self.eval_function_args(args, scope, depth);
                match arg_list {
                    Err(e) => Err(e),
                    Ok(arg_list) => {
                        let res = self.eval_function_call(&arg_list, id, scope, depth);
                        match res {
                            Err(e) => Err(e),
                            Ok(v) => {
                                let ghost m2 = self.machine(scope.var_frames());
                                if let Some(x) = v {
                                    self.stack_push(x);
                                    proof {
                                        assert(self.machine(scope.var_frames()) =~= m2.push(x));
                                    }
                                }
                                Ok(())
                            },
                        }
                    },
                }
            },
            Instruction::Push { value } => {
                self.stack.push(*value);
                proof {
                    assert(self.machine(scope.var_frames()) =~= m0.push(*value));
                }
                Ok(())
            },
            Instruction::PrintLn => {
                self.print_top(Ghost(scope.var_frames()));
                Ok(())
            },
            Instruction::Mul => {
                match self.eval_numeric_stmt(Operator::Mul) {
                    Err(e) => Err(e),
                    Ok(_) => Ok(()),
                }
            },
            Instruction::Add => {
                match self.eval_numeric_stmt(Operator::Add) {
                    Err(e) => Err(e),
                    Ok(_) => Ok(()),
                }
            },
            Instruction::Assign { id } => self.assign(id, scope),
            Instruction::Load { id } => self.load(id, scope),
            Instruction::LessThan => {
                match self.eval_boolean_stmt(Operator::LessThan) {
                    Err(e) => Err(e),
                    Ok(_) => Ok(()),
                }
            },
            Instruction::GreaterThan => {
                match self.eval_boolean_stmt(Operator::GreaterThan) {
                    Err(e) => Err(e),
                    Ok(_) => Ok(()),
                }
            },
        }
    }

    fn eval_function_args(
        &mut self,
        args: &Vec<Vec<Instruction>>,
        scope: &mut Scope,
        depth: u64,
    ) -> (r: Result<Vec<StackValue>, InterpError>)
        requires
            !(run_args(
                depth as nat,
                old(self).machine(old(scope).var_frames()),
                blocks_of(args@),
                Seq::empty(),
            ).1 is Panicked),
        ensures
            ({
                let (m, st, vals) = run_args(
                    depth as nat,
                    old(self).machine(old(scope).var_frames()),
                    blocks_of(args@),
                    Seq::empty(),
                );
                &&& final(self).machine(final(scope).var_frames()) == m
                &&& match st {
                    Status::Running => r matches Ok(v) && v@ == vals,
                    Status::Failed(e) => r matches Err(x) && x@ == e,
                    Status::Panicked => false,
                }
            }),
            final(scope).fun_frames() == old(scope).fun_frames(),
            final(scope).var_frames().len() == old(scope).var_frames().len(),
        decreases depth, 1int, blocks_of(args@), 0int,
    {
        let ghost d = depth as nat;
        let ghost m0 = self.machine(scope.var_frames());
        let ghost bs = blocks_of(args@);
        proof {
            lemma_blocks_of(args@);
            assert(bs.subrange(0, bs.len() as int) =~= bs);
        }
        let mut result: Vec<StackValue> = Vec::new();
        let mut j: usize = 0;
        while j < args.len()
            invariant
                j <= args@.len(),
                d == depth as nat,
                m0 == old(self).machine(old(scope).var_frames()),
                bs == blocks_of(args@),
                bs.len() == args@.len(),
                forall|k: int| 0 <= k < args@.len() ==> #[trigger] bs[k] == ops_of(args@[k]@),
                run_args(d, m0, bs, Seq::empty()) == run_args(
                    d,
                    self.machine(scope.var_frames()),
                    bs.subrange(j as int, bs.len() as int),
                    result@,
                ),
                !(run_args(d, m0, bs, Seq::empty()).1 is Panicked),
                scope.fun_frames() == old(scope).fun_frames(),
                scope.var_frames().len() == old(scope).var_frames().len(),
            decreases args@.len() - j,
        {
            let ghost rest = bs.subrange(j as int, bs.len() as int);
            proof {
                assert(rest[0] == bs[j as int]);
                assert(rest.subrange(1, rest.len() as int) =~= bs.subrange(j + 1, bs.len() as int));
                assert(decreases_to!(bs => bs[j as int]));
            }
            let ghost cur = self.machine(scope.var_frames());
            match self.eval_block(&args[j], scope, depth) {
                Ok(Some(x)) => {
                    result.push(x);
                },
                Ok(None) => {},
                Err(e) => {
                    proof {
                        let (m1, out) = run_block(d, cur, bs[j as int]);
                        assert(out == Outcome::Failed(e@));
                        assert(run_args(d, cur, rest, result@) == (m1, Status::Failed(e@), result@));
                        assert(run_args(d, m0, bs, Seq::empty()) == (m1, Status::Failed(e@), result@));
                        assert(self.machine(scope.var_frames()) == m1);
                    }
                    return Err(e);
                },
            }
            j = j + 1;
        }
        proof {
            assert(bs.subrange(j as int, bs.len() as int) =~= Seq::<Seq<Op>>::empty());
        }
        Ok(result)
    }

    fn eval_function_call(
        &mut self,
        args: &Vec<StackValue>,
        id: &String,
        outer_scope: &mut Scope,
        depth: u64,
    ) -> (r: Result<Option<StackValue>, InterpError>)
        requires
            !(call(depth as nat, old(self).machine(old(outer_scope).var_frames()), id@, args@).0 is Panicked),
        ensures
            ({
                let (out, m) = call(
                    depth as nat,
                    old(self).machine(old(outer_scope).var_frames()),
                    id@,
                    args@,
                );
                &&& final(self).machine(final(outer_scope).var_frames()) == m
                &&& result_matches(r, out)
            }),
            final(outer_scope).fun_frames() == old(outer_scope).fun_frames(),
            final(outer_scope).var_frames().len() == old(outer_scope).var_frames().len(),
        decreases depth, 0int, args@, 0int,
    {
        let ghost m0 = self.machine(outer_scope.var_frames());
        proof {
            outer_scope.lemma_frames_len();
        }
        let k = match self.lookup_symbol(id) {
            Some(k) => k,
            None => {
                return Err(InterpError::UndefinedFunction(id.clone()));
            },
        };
        let function = match self.fun_store.get(&k) {
            Some(f) => copy_instruction(f),
            None => {
                return Err(InterpError::UndefinedFunction(id.clone()));
            },
        };
        proof {
            assert(m0.funs.contains_key(k as nat));
            assert(m0.funs[k as nat] == op_of(function));
        }
        match function {
            Instruction::Function { id: _, params, block: body } => {
                if params.len() != args.len() {
                    return Err(
                        InterpError::ArgumentCountMismatch { expected: params.len(), got: args.len() },
                    );
                }
                if depth == 0 {
                    return Err(InterpError::CallDepthExceeded);
                }
                let ghost ps = names_of(params@);
                let ghost outer_frames = outer_scope.var_frames();
                let ghost outer_funs = outer_scope.fun_frames();
                let ghost bound = bind_params(m0.syms, Map::empty(), ps, args@);
                let mut outer = Scope::new();
                std::mem::swap(&mut outer, outer_scope);
                let mut func_scope = Scope::from_scope(outer);
                proof {
                    assert(ps.subrange(0, ps.len() as int) =~= ps);
                    assert(args@.subrange(0, args@.len() as int) =~= args@);
                    assert(func_scope.var_frames()[0] == Map::<u64, StackValue>::empty());
                }
                let mut j: usize = 0;
                while j < params.len()
                    invariant
                        j <= params@.len(),
                        params@.len() == args@.len(),
                        ps == names_of(params@),
                        ps.len() == params@.len(),
                        bound == bind_params(
                            self.syms_model(),
                            func_scope.var_frames()[0],
                            ps.subrange(j as int, ps.len() as int),
                            args@.subrange(j as int, args@.len() as int),
                        ),
                        func_scope.var_frames() == seq![func_scope.var_frames()[0]] + outer_frames,
                        func_scope.fun_frames() == seq![Map::<u64, Op>::empty()] + outer_funs,
                        self.stack_model() == m0.stack,
                        self.funs_model() == m0.funs,
                        self.printed_model() == m0.printed,
                    decreases params@.len() - j,
                {
                    let ghost frame = func_scope.var_frames()[0];
                    let ghost rp = ps.subrange(j as int, ps.len() as int);
                    let ghost rv = args@.subrange(j as int, args@.len() as int);
                    proof {
                        assert(rp[0] == params@[j as int]@);
                        assert(rv[0] == args@[j as int]);
                        assert(rp.drop_first() =~= ps.subrange(j + 1, ps.len() as int));
                        assert(rv.drop_first() =~= args@.subrange(j + 1, args@.len() as int));
                    }
                    let pid = self.intern(&params[j]);
                    func_scope.dec_var(pid, args[j]);
                    proof {
                        assert(func_scope.var_frames()[0] == frame.insert(pid, args@[j as int]));
                        assert(func_scope.var_frames() =~= seq![func_scope.var_frames()[0]] + outer_frames);
                    }
                    j = j + 1;
                }
                proof {
                    assert(ps.subrange(j as int, ps.len() as int) =~= Seq::<Seq<char>>::empty());
                    assert(self.machine(func_scope.var_frames()) =~= Machine {
                        syms: bound.0,
                        frames: seq![bound.1] + m0.frames,
                        ..m0
                    });
                }
                let res = self.eval_block(&body, &mut func_scope, depth - 1);
                let ghost m3 = self.machine(func_scope.var_frames());
                proof {
                    assert(func_scope.var_frames().len() > 1);
                    assert(func_scope.fun_frames().drop_first() =~= outer_funs);
                }
                match func_scope.into_outer() {
                    Some(o) => {
                        *outer_scope = o;
                    },
                    None => {},
                }
                proof {
                    assert(outer_scope.fun_frames() =~= outer_funs);
                    assert(self.machine(outer_scope.var_frames()) =~= Machine {
                        frames: m3.frames.drop_first(),
                        ..m3
                    });
                }
                res
            },
            _ => Err(InterpError::NotAFunction(id.clone())),
        }
    }
}


/// The value of a non-empty statement is its own: evaluating it does not
/// depend on the value of the statements before it (one that leaves no
/// value gives none), and it is exactly the evaluation of the code of what
/// the statement parses to. An empty piece changes nothing and keeps the
/// value so far.
pub proof fn law_statement_value(
    m: Machine,
    piece: Seq<char>,
    last1: Option<StackValue>,
    last2: Option<StackValue>,
)
    ensures
        piece.len() > 0 ==> statement_step(m, piece, last1) == statement_step(m, piece, last2),
        piece.len() > 0 ==> match program(piece.push(';')) {
            Ok(a) => statement_step(m, piece, last1) == run_block(
                MAX_CALL_DEPTH as nat,
                m,
                compile_asts(a),
            ),
            Err(p) => statement_step(m, piece, last1) == (m, Outcome::Failed(Fault::ParseError(p))),
        },
        piece.len() == 0 ==> statement_step(m, piece, last1) == (m, Outcome::Value(last1)),
{
}

} // verus!
