//! The meaning of a program: a definitional interpreter over the content
//! of instructions (`Op`), which the executable interpreter is proved to
//! follow step by step.

use crate::error::{Fault, InterpError, Operator};
use crate::instruction::{Op, StackValue};
use crate::scope::{declare_var, lookup_var};
use crate::bytecode::lemma_run_seq_concat;
use vstd::prelude::*;

verus! {

/// The state that evaluation reads and changes.
#[verifier::ext_equal]
pub struct Machine {
    /// The evaluation stack; its last element is the top.
    pub stack: Seq<StackValue>,
    /// Defined functions, by the id of their name.
    pub funs: Map<nat, Op>,
    /// Names seen so far; a name's id is its position here.
    pub syms: Seq<Seq<char>>,
    /// Values printed so far, in order.
    pub printed: Seq<StackValue>,
    /// Variables of each scope, innermost first.
    pub frames: Seq<Map<u64, StackValue>>,
}

impl Machine {
    pub open spec fn with_stack(self, stack: Seq<StackValue>) -> Machine {
        Machine { stack, ..self }
    }

    pub open spec fn push(self, v: StackValue) -> Machine {
        self.with_stack(self.stack.push(v))
    }

    pub open spec fn pop(self) -> Machine {
        self.with_stack(self.stack.drop_last())
    }
}

/// How a single step ends.
pub enum Status {
    Running,
    Failed(Fault),
    Panicked,
}

/// How evaluating a block ends.
pub enum Outcome {
    /// The block ran to its end; the value it popped off the stack, if
    /// the stack was not empty.
    Value(Option<StackValue>),
    Failed(Fault),
    Panicked,
}

/// The call-depth fuel that evaluation starts with: every call spends one
/// unit, so only a chain of more nested calls than a `u64` counts could end
/// in `CallDepthExceeded`, and no machine reaches that depth.
pub const MAX_CALL_DEPTH: u64 = 0xffff_ffff_ffff_ffff;

/// The id of `name`: its first position in `syms`.
pub open spec fn sym_index(syms: Seq<Seq<char>>, name: Seq<char>) -> Option<nat>
    decreases syms.len(),
{
    if syms.len() == 0 {
        None
    } else {
        match sym_index(syms.drop_last(), name) {
            Some(k) => Some(k),
            None => if syms.last() == name {
                Some((syms.len() - 1) as nat)
            } else {
                None
            },
        }
    }
}

/// `sym_index` finds the first position holding `name`, and finds nothing
/// exactly when no position holds it.
pub proof fn lemma_sym_index(syms: Seq<Seq<char>>, name: Seq<char>)
    ensures
        match sym_index(syms, name) {
            Some(k) => k < syms.len() && syms[k as int] == name && forall|j: int|
                0 <= j < k ==> syms[j] != name,
            None => forall|j: int| 0 <= j < syms.len() ==> syms[j] != name,
        },
    decreases syms.len(),
{
    if syms.len() > 0 {
        let init = syms.drop_last();
        lemma_sym_index(init, name);
        assert(forall|j: int| 0 <= j < init.len() ==> init[j] == syms[j]);
    }
}

/// `syms` after making sure `name` has an id, and that id.
pub open spec fn intern(syms: Seq<Seq<char>>, name: Seq<char>) -> (Seq<Seq<char>>, nat) {
    match sym_index(syms, name) {
        Some(k) => (syms, k),
        None => (syms.push(name), syms.len()),
    }
}

/// The names and the variable frame after binding each parameter, in
/// order, to the value at the same position.
pub open spec fn bind_params(
    syms: Seq<Seq<char>>,
    frame: Map<u64, StackValue>,
    params: Seq<Seq<char>>,
    vals: Seq<StackValue>,
) -> (Seq<Seq<char>>, Map<u64, StackValue>)
    decreases params.len(),
{
    if params.len() == 0 || vals.len() == 0 {
        (syms, frame)
    } else {
        let (s1, k) = intern(syms, params[0]);
        bind_params(s1, frame.insert(k as u64, vals[0]), params.drop_first(), vals.drop_first())
    }
}

/// An arithmetic step on a stack: pops two integers `a` (the top) and `b`,
/// and pushes `a + b` or `a * b`.
pub open spec fn numeric_stack(stack: Seq<StackValue>, op: Operator) -> (Seq<StackValue>, Status) {
    if stack.len() == 0 {
        (stack, Status::Panicked)
    } else {
        let a = stack.last();
        let s1 = stack.drop_last();
        match a {
            StackValue::Integer(x) => if s1.len() == 0 {
                (s1, Status::Failed(Fault::InvalidOperand(a, op)))
            } else {
                let b = s1.last();
                let s2 = s1.drop_last();
                match b {
                    StackValue::Integer(y) => match op {
                        Operator::Add => if x + y <= u64::MAX {
                            (s2.push(StackValue::Integer((x + y) as u64)), Status::Running)
                        } else {
                            (s2, Status::Failed(Fault::Overflow))
                        },
                        Operator::Mul => if x * y <= u64::MAX {
                            (s2.push(StackValue::Integer((x * y) as u64)), Status::Running)
                        } else {
                            (s2, Status::Failed(Fault::Overflow))
                        },
                        _ => (s2, Status::Failed(Fault::UnexpectedOperator(op))),
                    },
                    _ => (s2, Status::Failed(Fault::InvalidOperand(a, op))),
                }
            },
            _ => (s1, Status::Failed(Fault::InvalidOperand(a, op))),
        }
    }
}

/// A comparison step on a stack: pops two integers `a` (the top) and `b`,
/// and pushes whether `b < a` or `b > a`.
pub open spec fn boolean_stack(stack: Seq<StackValue>, op: Operator) -> (Seq<StackValue>, Status) {
    if stack.len() == 0 {
        (stack, Status::Panicked)
    } else {
        let a = stack.last();
        let s1 = stack.drop_last();
        match a {
            StackValue::Integer(x) => if s1.len() == 0 {
                (s1, Status::Failed(Fault::InvalidOperand(a, op)))
            } else {
                let b = s1.last();
                let s2 = s1.drop_last();
                match b {
                    StackValue::Integer(y) => match op {
                        Operator::GreaterThan => (
                            s2.push(StackValue::Boolean(y > x)),
                            Status::Running,
                        ),
                        Operator::LessThan => (s2.push(StackValue::Boolean(y < x)), Status::Running),
                        _ => (s2, Status::Failed(Fault::UnexpectedOperator(op))),
                    },
                    _ => (s2, Status::Failed(Fault::InvalidOperand(a, op))),
                }
            },
            _ => (s1, Status::Failed(Fault::InvalidOperand(a, op))),
        }
    }
}

/// An arithmetic step of the machine.
pub open spec fn numeric_step(m: Machine, op: Operator) -> (Machine, Status) {
    let (s, st) = numeric_stack(m.stack, op);
    (m.with_stack(s), st)
}

/// A comparison step of the machine.
pub open spec fn boolean_step(m: Machine, op: Operator) -> (Machine, Status) {
    let (s, st) = boolean_stack(m.stack, op);
    (m.with_stack(s), st)
}

/// The status after a nested block ended with `out`, whose value, if any,
/// is pushed.
pub open spec fn absorb(m: Machine, out: Outcome) -> (Machine, Status) {
    match out {
        Outcome::Value(Some(v)) => (m.push(v), Status::Running),
        Outcome::Value(None) => (m, Status::Running),
        Outcome::Failed(e) => (m, Status::Failed(e)),
        Outcome::Panicked => (m, Status::Panicked),
    }
}

/// Runs a block and then pops its value: the top of the stack, if any.
pub open spec fn run_block(d: nat, m: Machine, ops: Seq<Op>) -> (Machine, Outcome)
    decreases d, 1int, ops, 1int,
{
    let (m1, st) = run_seq(d, m, ops);
    match st {
        Status::Running => if m1.stack.len() == 0 {
            (m1, Outcome::Value(None))
        } else {
            (m1.pop(), Outcome::Value(Some(m1.stack.last())))
        },
        Status::Failed(e) => (m1, Outcome::Failed(e)),
        Status::Panicked => (m1, Outcome::Panicked),
    }
}

/// Runs the instructions in order, stopping at the first that does not
/// leave the machine running.
pub open spec fn run_seq(d: nat, m: Machine, ops: Seq<Op>) -> (Machine, Status)
    decreases d, 1int, ops, 0int,
{
    if ops.len() == 0 {
        (m, Status::Running)
    } else {
        let (m1, st) = step(d, m, ops[0]);
        match st {
            Status::Running => run_seq(d, m1, ops.subrange(1, ops.len() as int)),
            _ => (m1, st),
        }
    }
}

/// Evaluates each argument block in order, collecting the values of those
/// that leave one, after the values in `acc`.
pub open spec fn run_args(d: nat, m: Machine, args: Seq<Seq<Op>>, acc: Seq<StackValue>) -> (
    Machine,
    Status,
    Seq<StackValue>,
)
    decreases d, 1int, args, 0int,
{
    if args.len() == 0 {
        (m, Status::Running, acc)
    } else {
        let (m1, out) = run_block(d, m, args[0]);
        match out {
            Outcome::Value(Some(v)) => run_args(
                d,
                m1,
                args.subrange(1, args.len() as int),
                acc.push(v),
            ),
            Outcome::Value(None) => run_args(d, m1, args.subrange(1, args.len() as int), acc),
            Outcome::Failed(e) => (m1, Status::Failed(e), acc),
            Outcome::Panicked => (m1, Status::Panicked, acc),
        }
    }
}

/// Calls the function named `id` with the argument values `vals`: its body
/// runs, with `d - 1` calls left, in a new innermost scope that binds the
/// parameters; the value the body leaves is the call's value.
pub open spec fn call(d: nat, m: Machine, id: Seq<char>, vals: Seq<StackValue>) -> (
    Outcome,
    Machine,
)
    decreases d, 0int, vals, 0int,
{
    match sym_index(m.syms, id) {
        Some(k) => if m.funs.contains_key(k) {
            match m.funs[k] {
                Op::Function(_, params, body) => if params.len() != vals.len() {
                    (Outcome::Failed(Fault::ArgumentCountMismatch(params.len(), vals.len())), m)
                } else if d == 0 {
                    (Outcome::Failed(Fault::CallDepthExceeded), m)
                } else {
                    let (syms2, frame) = bind_params(m.syms, Map::empty(), params, vals);
                    let m2 = Machine { syms: syms2, frames: seq![frame] + m.frames, ..m };
                    let (m3, out) = run_block((d - 1) as nat, m2, body);
                    (out, Machine { frames: m3.frames.drop_first(), ..m3 })
                },
                _ => (Outcome::Failed(Fault::NotAFunction(id)), m),
            }
        } else {
            (Outcome::Failed(Fault::UndefinedFunction(id)), m)
        },
        None => (Outcome::Failed(Fault::UndefinedFunction(id)), m),
    }
}

/// `PrintLn`: pops the top of the stack and prints it; panics on an
/// empty stack.
pub open spec fn print_step(m: Machine) -> (Machine, Status) {
    if m.stack.len() == 0 {
        (m, Status::Panicked)
    } else {
        (Machine { printed: m.printed.push(m.stack.last()), ..m.pop() }, Status::Running)
    }
}

/// `Assign`: pops the top of the stack and declares `name` with it in the
/// innermost scope.
pub open spec fn assign_step(m: Machine, name: Seq<char>) -> (Machine, Status) {
    if m.stack.len() == 0 {
        (m, Status::Failed(Fault::EmptyStack))
    } else {
        let v = m.stack.last();
        let (syms1, k) = intern(m.syms, name);
        (
            Machine { syms: syms1, frames: declare_var(m.frames, k as u64, v), ..m.pop() },
            Status::Running,
        )
    }
}

/// `Load`: pushes the value of the variable `name`.
pub open spec fn load_step(m: Machine, name: Seq<char>) -> (Machine, Status) {
    match sym_index(m.syms, name) {
        Some(k) => match lookup_var(m.frames, k as u64) {
            Some(v) => (m.push(v), Status::Running),
            None => (m, Status::Failed(Fault::UndefinedVariable(name))),
        },
        None => (m, Status::Failed(Fault::UndefinedVariable(name))),
    }
}

/// `Function`: defines the function `id`, unless one of that name is
/// already defined.
pub open spec fn define_step(m: Machine, id: Seq<char>, params: Seq<Seq<char>>, body: Seq<Op>) -> (
    Machine,
    Status,
) {
    let defined = match sym_index(m.syms, id) {
        Some(k) => m.funs.contains_key(k),
        None => false,
    };
    if defined {
        (m, Status::Failed(Fault::FunctionAlreadyDefined(id)))
    } else {
        let (syms1, k) = intern(m.syms, id);
        (
            Machine {
                syms: syms1,
                funs: m.funs.insert(k, Op::Function(id, params, body)),
                ..m
            },
            Status::Running,
        )
    }
}

/// One instruction.
pub open spec fn step(d: nat, m: Machine, op: Op) -> (Machine, Status)
    decreases d, 1int, op, 0int,
{
    match op {
        Op::Add => numeric_step(m, Operator::Add),
        Op::Mul => numeric_step(m, Operator::Mul),
        Op::LessThan => boolean_step(m, Operator::LessThan),
        Op::GreaterThan => boolean_step(m, Operator::GreaterThan),
        Op::Push(v) => (m.push(v), Status::Running),
        Op::PrintLn => print_step(m),
        Op::Assign(name) => assign_step(m, name),
        Op::Load(name) => load_step(m, name),
        Op::Return(block) => {
            let (m1, out) = run_block(d, m, block);
            absorb(m1, out)
        },
        Op::Function(id, params, body) => define_step(m, id, params, body),
        Op::FunctionCall(id, args) => {
            let (m1, st, vals) = run_args(d, m, args, Seq::empty());
            match st {
                Status::Running => {
                    let (out, m2) = call(d, m1, id, vals);
                    absorb(m2, out)
                },
                _ => (m1, st),
            }
        },
    }
}

/// Whether an evaluation result is the one the outcome describes.
pub open spec fn result_matches(r: Result<Option<StackValue>, InterpError>, out: Outcome) -> bool {
    match out {
        Outcome::Value(v) => r == Ok::<Option<StackValue>, InterpError>(v),
        Outcome::Failed(e) => r matches Err(x) && x@ == e,
        Outcome::Panicked => false,
    }
}

/// Whether a step's result is the one the status describes.
pub open spec fn status_matches(r: Result<(), InterpError>, st: Status) -> bool {
    match st {
        Status::Running => r is Ok,
        Status::Failed(e) => r matches Err(x) && x@ == e,
        Status::Panicked => false,
    }
}

/// A machine every evaluation state satisfies: there is an innermost
/// scope, and every function is stored under the id of a known name.
pub open spec fn machine_wf(m: Machine) -> bool {
    &&& m.frames.len() >= 1
    &&& forall|k: nat| #[trigger] m.funs.contains_key(k) ==> k < m.syms.len()
}

/// `m2` only adds to `m`: what was printed stays printed, a defined
/// function keeps its definition, a name keeps its id, and the scopes
/// other than the innermost keep their variables.
pub open spec fn extends(m: Machine, m2: Machine) -> bool {
    &&& m.printed.is_prefix_of(m2.printed)
    &&& m.funs.submap_of(m2.funs)
    &&& m.syms.is_prefix_of(m2.syms)
    &&& m2.frames.len() == m.frames.len()
    &&& m2.frames.drop_first() == m.frames.drop_first()
}

proof fn lemma_extends_trans(a: Machine, b: Machine, c: Machine)
    requires
        extends(a, b),
        extends(b, c),
    ensures
        extends(a, c),
{
    assert(a.printed =~= c.printed.subrange(0, a.printed.len() as int)) by {
        assert forall|i: int| 0 <= i < a.printed.len() implies a.printed[i] == c.printed[i] by {
            assert(a.printed[i] == b.printed.subrange(0, a.printed.len() as int)[i]);
            assert(b.printed[i] == c.printed.subrange(0, b.printed.len() as int)[i]);
        }
    }
    assert(a.syms =~= c.syms.subrange(0, a.syms.len() as int)) by {
        assert forall|i: int| 0 <= i < a.syms.len() implies a.syms[i] == c.syms[i] by {
            assert(a.syms[i] == b.syms.subrange(0, a.syms.len() as int)[i]);
            assert(b.syms[i] == c.syms.subrange(0, b.syms.len() as int)[i]);
        }
    }
    assert(a.funs.submap_of(c.funs)) by {
        assert forall|k: nat| #[trigger] a.funs.contains_key(k) implies c.funs.contains_key(k)
            && c.funs[k] == a.funs[k] by {
            assert(b.funs.contains_key(k));
        }
    }
    assert(c.frames.drop_first() == a.frames.drop_first());
}

proof fn lemma_extends_refl(a: Machine)
    ensures
        extends(a, a),
{
    assert(a.printed =~= a.printed.subrange(0, a.printed.len() as int));
    assert(a.syms =~= a.syms.subrange(0, a.syms.len() as int));
}

proof fn lemma_intern(syms: Seq<Seq<char>>, name: Seq<char>)
    ensures
        syms.is_prefix_of(intern(syms, name).0),
        intern(syms, name).1 < intern(syms, name).0.len(),
        intern(syms, name).1 >= syms.len() ==> intern(syms, name).1 == syms.len(),
{
    lemma_sym_index(syms, name);
    assert(syms =~= syms.subrange(0, syms.len() as int));
    assert(syms =~= syms.push(name).subrange(0, syms.len() as int));
}

proof fn lemma_bind_params(
    syms: Seq<Seq<char>>,
    frame: Map<u64, StackValue>,
    params: Seq<Seq<char>>,
    vals: Seq<StackValue>,
)
    ensures
        syms.is_prefix_of(bind_params(syms, frame, params, vals).0),
    decreases params.len(),
{
    if params.len() == 0 || vals.len() == 0 {
        assert(syms =~= syms.subrange(0, syms.len() as int));
    } else {
        let (s1, k) = intern(syms, params[0]);
        lemma_intern(syms, params[0]);
        lemma_bind_params(s1, frame.insert(k as u64, vals[0]), params.drop_first(), vals.drop_first());
        let s2 = bind_params(syms, frame, params, vals).0;
        assert(syms =~= s2.subrange(0, syms.len() as int)) by {
            assert forall|i: int| 0 <= i < syms.len() implies syms[i] == s2[i] by {
                assert(syms[i] == s1.subrange(0, syms.len() as int)[i]);
                assert(s1[i] == s2.subrange(0, s1.len() as int)[i]);
            }
        }
    }
}

/// Evaluating a block only adds to the machine (see `extends`), and keeps
/// it well formed.
pub proof fn law_block_extends(d: nat, m: Machine, ops: Seq<Op>)
    requires
        machine_wf(m),
    ensures
        extends(m, run_block(d, m, ops).0),
        machine_wf(run_block(d, m, ops).0),
    decreases d, 1int, ops, 1int,
{
    law_seq_extends(d, m, ops);
    let (m1, st) = run_seq(d, m, ops);
    if st is Running && m1.stack.len() > 0 {
        assert(m1.pop().frames == m1.frames);
    }
}

/// Running a sequence of instructions only adds to the machine.
pub proof fn law_seq_extends(d: nat, m: Machine, ops: Seq<Op>)
    requires
        machine_wf(m),
    ensures
        extends(m, run_seq(d, m, ops).0),
        machine_wf(run_seq(d, m, ops).0),
    decreases d, 1int, ops, 0int,
{
    if ops.len() == 0 {
        lemma_extends_refl(m);
    } else {
        law_step_extends(d, m, ops[0]);
        let (m1, st) = step(d, m, ops[0]);
        if st is Running {
            law_seq_extends(d, m1, ops.subrange(1, ops.len() as int));
            lemma_extends_trans(m, m1, run_seq(d, m1, ops.subrange(1, ops.len() as int)).0);
        }
    }
}

/// Evaluating argument blocks only adds to the machine.
pub proof fn law_args_extend(d: nat, m: Machine, args: Seq<Seq<Op>>, acc: Seq<StackValue>)
    requires
        machine_wf(m),
    ensures
        extends(m, run_args(d, m, args, acc).0),
        machine_wf(run_args(d, m, args, acc).0),
    decreases d, 1int, args, 0int,
{
    if args.len() == 0 {
        lemma_extends_refl(m);
    } else {
        law_block_extends(d, m, args[0]);
        let (m1, out) = run_block(d, m, args[0]);
        let rest = args.subrange(1, args.len() as int);
        match out {
            Outcome::Value(Some(v)) => {
                law_args_extend(d, m1, rest, acc.push(v));
                lemma_extends_trans(m, m1, run_args(d, m1, rest, acc.push(v)).0);
            },
            Outcome::Value(None) => {
                law_args_extend(d, m1, rest, acc);
                lemma_extends_trans(m, m1, run_args(d, m1, rest, acc).0);
            },
            _ => {},
        }
    }
}

/// A call only adds to the machine, and leaves the scopes exactly as they
/// were.
pub proof fn law_call_extends(d: nat, m: Machine, id: Seq<char>, vals: Seq<StackValue>)
    requires
        machine_wf(m),
    ensures
        extends(m, call(d, m, id, vals).1),
        machine_wf(call(d, m, id, vals).1),
        call(d, m, id, vals).1.frames == m.frames,
    decreases d, 0int, vals, 0int,
{
    lemma_extends_refl(m);
    if let Some(k) = sym_index(m.syms, id) {
        if m.funs.contains_key(k) {
            if let Op::Function(_, params, body) = m.funs[k] {
                if params.len() == vals.len() && d > 0 {
                    let (syms2, frame) = bind_params(m.syms, Map::empty(), params, vals);
                    lemma_bind_params(m.syms, Map::empty(), params, vals);
                    let m2 = Machine { syms: syms2, frames: seq![frame] + m.frames, ..m };
                    assert(m2.frames.drop_first() =~= m.frames);
                    assert(extends(m, Machine { frames: m2.frames.drop_first(), ..m2 }));
                    law_block_extends((d - 1) as nat, m2, body);
                    let (m3, out) = run_block((d - 1) as nat, m2, body);
                    let m4 = Machine { frames: m3.frames.drop_first(), ..m3 };
                    assert(m4.frames == m.frames);
                    assert(extends(m2, m3));
                    assert(extends(Machine { frames: m2.frames.drop_first(), ..m2 }, m4)) by {
                        assert(m4.frames.drop_first() =~= m.frames.drop_first());
                    }
                    lemma_extends_trans(m, Machine { frames: m2.frames.drop_first(), ..m2 }, m4);
                }
            }
        }
    }
}

/// One instruction only adds to the machine.
pub proof fn law_step_extends(d: nat, m: Machine, op: Op)
    requires
        machine_wf(m),
    ensures
        extends(m, step(d, m, op).0),
        machine_wf(step(d, m, op).0),
    decreases d, 1int, op, 0int,
{
    lemma_extends_refl(m);
    match op {
        Op::PrintLn => {
            if m.stack.len() > 0 {
                let m1 = step(d, m, op).0;
                assert(m.printed =~= m1.printed.subrange(0, m.printed.len() as int));
            }
        },
        Op::Assign(name) => {
            if m.stack.len() > 0 {
                lemma_intern(m.syms, name);
                let m1 = step(d, m, op).0;
                assert(m1.frames.drop_first() =~= m.frames.drop_first());
            }
        },
        Op::Return(block) => {
            law_block_extends(d, m, block);
        },
        Op::Function(id, params, body) => {
            lemma_intern(m.syms, id);
            let m1 = step(d, m, op).0;
            let (syms1, k) = intern(m.syms, id);
            if !(match sym_index(m.syms, id) {
                Some(j) => m.funs.contains_key(j),
                None => false,
            }) {
                assert(!m.funs.contains_key(k)) by {
                    if m.funs.contains_key(k) {
                        assert(k < m.syms.len());
                    }
                }
                assert(m.funs.submap_of(m1.funs));
                assert forall|j: nat| #[trigger] m1.funs.contains_key(j) implies j < m1.syms.len() by {
                    if j != k {
                        assert(m.funs.contains_key(j));
                    }
                }
            }
        },
        Op::FunctionCall(id, args) => {
            law_args_extend(d, m, args, Seq::empty());
            let (m1, st, vals) = run_args(d, m, args, Seq::empty());
            if st is Running {
                law_call_extends(d, m1, id, vals);
                lemma_extends_trans(m, m1, call(d, m1, id, vals).1);
            }
        },
        _ => {},
    }
}


/// `Return` runs its block in place: it leaves the machine and the status
/// exactly as running the block's instructions directly would.
pub proof fn law_return_inline(d: nat, m: Machine, block: Seq<Op>)
    ensures
        step(d, m, Op::Return(block)) == run_seq(d, m, block),
{
    let (m1, st) = run_seq(d, m, block);
    if st is Running && m1.stack.len() > 0 {
        assert(m1.pop().push(m1.stack.last()) =~= m1);
    }
}

/// A program that starts with `Return` of a block evaluates exactly as the
/// program that starts with the block's instructions instead.
pub proof fn law_return_inline_block(d: nat, m: Machine, block: Seq<Op>, rest: Seq<Op>)
    ensures
        run_block(d, m, seq![Op::Return(block)] + rest) == run_block(d, m, block + rest),
{
    let p = seq![Op::Return(block)] + rest;
    assert(p[0] == Op::Return(block));
    assert(p.subrange(1, p.len() as int) =~= rest);
    law_return_inline(d, m, block);
    lemma_run_seq_concat(d, m, block, rest);
}

/// The values of the blocks that left one, in order; blocks that left none
/// are dropped.
pub open spec fn present(outs: Seq<Option<StackValue>>) -> Seq<StackValue>
    decreases outs.len(),
{
    if outs.len() == 0 {
        Seq::empty()
    } else {
        match outs[0] {
            Some(v) => seq![v] + present(outs.drop_first()),
            None => present(outs.drop_first()),
        }
    }
}

/// `present` keeps at most one value per block.
pub proof fn lemma_present_len(outs: Seq<Option<StackValue>>)
    ensures
        present(outs).len() <= outs.len(),
    decreases outs.len(),
{
    if outs.len() > 0 {
        lemma_present_len(outs.drop_first());
    }
}

/// Arguments are evaluated in order, each from the state the previous one
/// left: when every block ends with a value or none (block `i` taking
/// `ms[i]` to `ms[i + 1]`), the arguments are the values left, in order,
/// with the blocks that left none dropped.
pub proof fn law_args_in_order(
    d: nat,
    args: Seq<Seq<Op>>,
    acc: Seq<StackValue>,
    ms: Seq<Machine>,
    outs: Seq<Option<StackValue>>,
)
    requires
        ms.len() == args.len() + 1,
        outs.len() == args.len(),
        forall|i: int|
            0 <= i < args.len() ==> #[trigger] run_block(d, ms[i], args[i]) == (
                ms[i + 1],
                Outcome::Value(outs[i]),
            ),
    ensures
        run_args(d, ms[0], args, acc) == (ms.last(), Status::Running, acc + present(outs)),
        present(outs).len() <= args.len(),
    decreases args.len(),
{
    lemma_present_len(outs);
    if args.len() == 0 {
        assert(acc + present(outs) =~= acc);
    } else {
        let rest = args.subrange(1, args.len() as int);
        let acc1 = match outs[0] {
            Some(v) => acc.push(v),
            None => acc,
        };
        assert(run_block(d, ms[0], args[0]) == (ms[1], Outcome::Value(outs[0])));
        assert forall|i: int| 0 <= i < rest.len() implies #[trigger] run_block(d, ms.drop_first()[i], rest[i])
            == (ms.drop_first()[i + 1], Outcome::Value(outs.drop_first()[i])) by {
            assert(run_block(d, ms[i + 1], args[i + 1]) == (ms[i + 2], Outcome::Value(outs[i + 1])));
        }
        law_args_in_order(d, rest, acc1, ms.drop_first(), outs.drop_first());
        assert(acc1 + present(outs.drop_first()) =~= acc + present(outs));
    }
}

/// Argument evaluation stops at the first block that fails: with blocks
/// `0..k` ending with a value or none (block `i` taking `ms[i]` to
/// `ms[i + 1]`) and block `k` failing with `e` in state `mf`, the whole
/// fails with `e` in state `mf`; no later block runs.
pub proof fn law_args_stop_at_first_error(
    d: nat,
    args: Seq<Seq<Op>>,
    acc: Seq<StackValue>,
    ms: Seq<Machine>,
    outs: Seq<Option<StackValue>>,
    mf: Machine,
    e: Fault,
)
    requires
        outs.len() < args.len(),
        ms.len() == outs.len() + 1,
        forall|i: int|
            0 <= i < outs.len() ==> #[trigger] run_block(d, ms[i], args[i]) == (
                ms[i + 1],
                Outcome::Value(outs[i]),
            ),
        run_block(d, ms.last(), args[outs.len() as int]) == (mf, Outcome::Failed(e)),
    ensures
        run_args(d, ms[0], args, acc) == (mf, Status::Failed(e), acc + present(outs)),
    decreases outs.len(),
{
    if outs.len() == 0 {
        assert(acc + present(outs) =~= acc);
    } else {
        let rest = args.subrange(1, args.len() as int);
        let acc1 = match outs[0] {
            Some(v) => acc.push(v),
            None => acc,
        };
        assert(run_block(d, ms[0], args[0]) == (ms[1], Outcome::Value(outs[0])));
        assert forall|i: int| 0 <= i < outs.drop_first().len() implies #[trigger] run_block(
            d,
            ms.drop_first()[i],
            rest[i],
        ) == (ms.drop_first()[i + 1], Outcome::Value(outs.drop_first()[i])) by {
            assert(run_block(d, ms[i + 1], args[i + 1]) == (ms[i + 2], Outcome::Value(outs[i + 1])));
        }
        assert(rest[outs.drop_first().len() as int] == args[outs.len() as int]);
        law_args_stop_at_first_error(d, rest, acc1, ms.drop_first(), outs.drop_first(), mf, e);
        assert(acc1 + present(outs.drop_first()) =~= acc + present(outs));
    }
}


/// The slot of `name` among the names `syms`: its id, as the variable key
/// the frames use.
pub open spec fn slot(syms: Seq<Seq<char>>, name: Seq<char>) -> u64 {
    match sym_index(syms, name) {
        Some(k) => k as u64,
        None => 0,
    }
}

/// No name occurs twice.
pub open spec fn distinct_names(names: Seq<Seq<char>>) -> bool {
    forall|i: int, j: int| 0 <= i < j < names.len() ==> names[i] != names[j]
}

proof fn lemma_sym_index_prefix(s1: Seq<Seq<char>>, s2: Seq<Seq<char>>, name: Seq<char>)
    requires
        s1.is_prefix_of(s2),
        sym_index(s1, name) is Some,
    ensures
        sym_index(s2, name) == sym_index(s1, name),
{
    lemma_sym_index(s1, name);
    lemma_sym_index(s2, name);
    let k = sym_index(s1, name)->0;
    assert(s2[k as int] == s1[k as int]) by {
        assert(s1[k as int] == s2.subrange(0, s1.len() as int)[k as int]);
    }
    if let Some(k2) = sym_index(s2, name) {
        if k2 < k {
            assert(s1[k2 as int] == s2.subrange(0, s1.len() as int)[k2 as int]);
        }
    }
}

proof fn lemma_intern_index(syms: Seq<Seq<char>>, name: Seq<char>)
    ensures
        sym_index(intern(syms, name).0, name) == Some(intern(syms, name).1),
        intern(syms, name).0.len() <= syms.len() + 1,
{
    if sym_index(syms, name) is None {
        assert(syms.push(name).drop_last() =~= syms);
    }
}

proof fn lemma_bind(
    syms: Seq<Seq<char>>,
    frame: Map<u64, StackValue>,
    params: Seq<Seq<char>>,
    vals: Seq<StackValue>,
)
    requires
        params.len() == vals.len(),
        syms.len() + params.len() <= u64::MAX,
    ensures
        ({
            let (s2, f2) = bind_params(syms, frame, params, vals);
            &&& syms.is_prefix_of(s2)
            &&& s2.len() <= syms.len() + params.len()
            &&& forall|j: int|
                0 <= j < params.len() ==> (#[trigger] sym_index(s2, params[j])) is Some
                    && f2.contains_key(slot(s2, params[j]))
            &&& forall|key: u64|
                #[trigger] f2.contains_key(key) ==> frame.contains_key(key) || exists|j: int|
                    0 <= j < params.len() && slot(s2, params[j]) == key
            &&& forall|key: u64| #[trigger] frame.contains_key(key) ==> f2.contains_key(key)
            &&& forall|key: u64|
                frame.contains_key(key) && (forall|j: int|
                    0 <= j < params.len() ==> slot(s2, params[j]) != key) ==> #[trigger] f2[key]
                    == frame[key]
            &&& distinct_names(params) ==> forall|j: int|
                0 <= j < params.len() ==> #[trigger] f2[slot(s2, params[j])] == vals[j]
        }),
    decreases params.len(),
{
    lemma_bind_params(syms, frame, params, vals);
    if params.len() == 0 {
    } else {
        let (s1, x) = intern(syms, params[0]);
        lemma_intern(syms, params[0]);
        lemma_intern_index(syms, params[0]);
        let f1 = frame.insert(x as u64, vals[0]);
        let rp = params.drop_first();
        let rv = vals.drop_first();
        lemma_bind(s1, f1, rp, rv);
        let (s2, f2) = bind_params(s1, f1, rp, rv);
        assert(bind_params(syms, frame, params, vals) == (s2, f2));
        lemma_sym_index_prefix(s1, s2, params[0]);
        assert(slot(s2, params[0]) == x as u64);
        assert forall|j: int| 0 <= j < params.len() implies (#[trigger] sym_index(s2, params[j])) is Some
            && f2.contains_key(slot(s2, params[j])) by {
            if j > 0 {
                assert(rp[j - 1] == params[j]);
            } else {
                assert(f1.contains_key(x as u64));
            }
        }
        assert forall|key: u64| #[trigger] f2.contains_key(key) implies frame.contains_key(key)
            || exists|j: int| 0 <= j < params.len() && slot(s2, params[j]) == key by {
            if !f1.contains_key(key) {
                let j = choose|j: int| 0 <= j < rp.len() && slot(s2, rp[j]) == key;
                assert(params[j + 1] == rp[j]);
            } else if key == x as u64 {
                assert(slot(s2, params[0]) == key);
            }
        }
        assert forall|key: u64| #[trigger] frame.contains_key(key) implies f2.contains_key(key) by {
            assert(f1.contains_key(key));
        }
        assert forall|key: u64|
            frame.contains_key(key) && (forall|j: int|
                0 <= j < params.len() ==> slot(s2, params[j]) != key) implies #[trigger] f2[key]
            == frame[key] by {
            assert(slot(s2, params[0]) != key);
            assert(f1.contains_key(key) && f1[key] == frame[key]);
            assert forall|j: int| 0 <= j < rp.len() implies slot(s2, rp[j]) != key by {
                assert(params[j + 1] == rp[j]);
            }
            assert(f2[key] == f1[key]);
        }
        if distinct_names(params) {
            assert(distinct_names(rp)) by {
                assert forall|i: int, j: int| 0 <= i < j < rp.len() implies rp[i] != rp[j] by {
                    assert(rp[i] == params[i + 1] && rp[j] == params[j + 1]);
                }
            }
            assert forall|j: int| 0 <= j < params.len() implies #[trigger] f2[slot(s2, params[j])]
                == vals[j] by {
                if j > 0 {
                    assert(rp[j - 1] == params[j] && rv[j - 1] == vals[j]);
                } else {
                    assert forall|i: int| 0 <= i < rp.len() implies slot(s2, rp[i]) != x as u64 by {
                        assert(rp[i] == params[i + 1]);
                        assert(params[i + 1] != params[0]);
                        lemma_sym_index(s2, rp[i]);
                        lemma_sym_index(s2, params[0]);
                        assert((#[trigger] sym_index(s2, rp[i])) is Some);
                    }
                }
            }
        }
    }
}

/// A call of a defined function with as many arguments as it has
/// parameters runs its body, with one call level less, in a new innermost
/// scope whose only variables are the parameters, each bound to the
/// argument at its position (when no parameter name repeats); the call's
/// value is the body's, and that scope is dropped afterwards, so the
/// caller's variables are as they were.
pub proof fn law_call_runs_body(
    d: nat,
    m: Machine,
    id: Seq<char>,
    vals: Seq<StackValue>,
    k: nat,
    name: Seq<char>,
    params: Seq<Seq<char>>,
    body: Seq<Op>,
)
    requires
        machine_wf(m),
        sym_index(m.syms, id) == Some(k),
        m.funs.contains_key(k),
        m.funs[k] == Op::Function(name, params, body),
        params.len() == vals.len(),
        d > 0,
        m.syms.len() + params.len() <= u64::MAX,
    ensures
        ({
            let (syms2, frame) = bind_params(m.syms, Map::empty(), params, vals);
            let m2 = Machine { syms: syms2, frames: seq![frame] + m.frames, ..m };
            let (m3, out) = run_block((d - 1) as nat, m2, body);
            &&& call(d, m, id, vals) == (out, Machine { frames: m3.frames.drop_first(), ..m3 })
            &&& forall|j: int| 0 <= j < params.len() ==> #[trigger] frame.contains_key(slot(syms2, params[j]))
            &&& forall|key: u64|
                #[trigger] frame.contains_key(key) ==> exists|j: int|
                    0 <= j < params.len() && slot(syms2, params[j]) == key
            &&& distinct_names(params) ==> forall|j: int|
                0 <= j < params.len() ==> #[trigger] frame[slot(syms2, params[j])] == vals[j]
            &&& call(d, m, id, vals).1.frames == m.frames
        }),
{
    lemma_bind(m.syms, Map::empty(), params, vals);
    law_call_extends(d, m, id, vals);
    let (syms2, frame) = bind_params(m.syms, Map::empty(), params, vals);
    assert forall|j: int| 0 <= j < params.len() implies #[trigger] frame.contains_key(slot(syms2, params[j])) by {
        assert(sym_index(syms2, params[j]) is Some);
    }
}


/// Defining a function succeeds exactly when no function of that name is
/// defined, and then stores the definition as written: under the id of its
/// name, with the same name, the same parameters in the same order, and the
/// same body; nothing else changes but the names, which only grow.
pub proof fn law_define_stores(d: nat, m: Machine, id: Seq<char>, params: Seq<Seq<char>>, body: Seq<Op>)
    ensures
        ({
            let (m1, st) = step(d, m, Op::Function(id, params, body));
            let defined = match sym_index(m.syms, id) {
                Some(k) => m.funs.contains_key(k),
                None => false,
            };
            &&& (st is Running) == !defined
            &&& !defined ==> (sym_index(m1.syms, id) matches Some(k) && m1.funs.contains_key(k)
                && m1.funs[k] == Op::Function(id, params, body) && m1.funs.remove(k) == m.funs.remove(
                k,
            ))
            &&& m.syms.is_prefix_of(m1.syms)
            &&& m1.stack == m.stack && m1.frames == m.frames && m1.printed == m.printed
            &&& defined ==> st == Status::Failed(Fault::FunctionAlreadyDefined(id)) && m1 == m
        }),
{
    lemma_intern(m.syms, id);
    lemma_intern_index(m.syms, id);
    assert(m.syms =~= m.syms.subrange(0, m.syms.len() as int));
    let (m1, st) = step(d, m, Op::Function(id, params, body));
    let k = intern(m.syms, id).1;
    assert(m1.funs.remove(k) =~= m.funs.remove(k));
}


/// `PrintLn` takes the top of the stack off and prints it after what was
/// printed before; nothing else changes. On an empty stack it panics.
pub proof fn law_print_top(d: nat, m: Machine)
    ensures
        m.stack.len() > 0 ==> step(d, m, Op::PrintLn) == (
            Machine {
                stack: m.stack.subrange(0, m.stack.len() - 1),
                printed: m.printed + seq![m.stack[m.stack.len() - 1]],
                ..m
            },
            Status::Running,
        ),
        m.stack.len() == 0 ==> step(d, m, Op::PrintLn).1 is Panicked,
{
    if m.stack.len() > 0 {
        assert(m.printed.push(m.stack.last()) =~= m.printed + seq![m.stack[m.stack.len() - 1]]);
        assert(m.stack.drop_last() =~= m.stack.subrange(0, m.stack.len() - 1));
    }
}

/// Loading a variable right after assigning it gives the value assigned:
/// `Assign(name)` takes the top of the stack off, and a following
/// `Load(name)` pushes that same value back.
pub proof fn law_assign_then_load(d: nat, m: Machine, name: Seq<char>)
    requires
        m.stack.len() > 0,
        m.frames.len() >= 1,
    ensures
        ({
            let (m1, st) = step(d, m, Op::Assign(name));
            &&& st is Running
            &&& m1.stack == m.stack.subrange(0, m.stack.len() - 1)
            &&& step(d, m1, Op::Load(name)) == (m1.push(m.stack[m.stack.len() - 1]), Status::Running)
        }),
{
    lemma_intern_index(m.syms, name);
    let (s1, k) = intern(m.syms, name);
    crate::scope::law_get_after_declare(m.frames, k as u64, m.stack.last());
    assert(m.stack.drop_last() =~= m.stack.subrange(0, m.stack.len() - 1));
}

} // verus!
