//! Values on the evaluation stack and the bytecode instructions.

use vstd::prelude::*;

verus! {

/// A value the interpreter works on.
#[derive(Debug, Clone, Copy, PartialEq, Eq, Structural)]
pub enum StackValue {
    Integer(u64),
    Boolean(bool),
    /// A reference to a function, by the id it is stored under in a scope.
    Function(u64),
}

/// One bytecode instruction.
#[derive(Debug, PartialEq)]
pub enum Instruction {
    Add,
    Mul,
    LessThan,
    GreaterThan,
    Push { value: StackValue },
    PrintLn,
    Assign { id: String },
    Load { id: String },
    Return { block: Vec<Instruction> },
    Function { id: String, params: Vec<String>, block: Vec<Instruction> },
    FunctionCall { id: String, args: Vec<Vec<Instruction>> },
}

impl Clone for Instruction {
    /// A copy with the same content.
    fn clone(&self) -> (r: Self)
        ensures
            op_of(r) == op_of(*self),
    {
        copy_instruction(self)
    }
}

/// The mathematical content of an instruction: names as character
/// sequences and nested blocks as sequences.
pub enum Op {
    Add,
    Mul,
    LessThan,
    GreaterThan,
    Push(StackValue),
    PrintLn,
    Assign(Seq<char>),
    Load(Seq<char>),
    Return(Seq<Op>),
    Function(Seq<char>, Seq<Seq<char>>, Seq<Op>),
    FunctionCall(Seq<char>, Seq<Seq<Op>>),
}

/// The content of one instruction.
pub open spec fn op_of(i: Instruction) -> Op
    decreases i,
{
    match i {
        Instruction::Add => Op::Add,
        Instruction::Mul => Op::Mul,
        Instruction::LessThan => Op::LessThan,
        Instruction::GreaterThan => Op::GreaterThan,
        Instruction::Push { value } => Op::Push(value),
        Instruction::PrintLn => Op::PrintLn,
        Instruction::Assign { id } => Op::Assign(id@),
        Instruction::Load { id } => Op::Load(id@),
        Instruction::Return { block } => Op::Return(ops_of(block@)),
        Instruction::Function { id, params, block } => Op::Function(
            id@,
            names_of(params@),
            ops_of(block@),
        ),
        Instruction::FunctionCall { id, args } => Op::FunctionCall(id@, blocks_of(args@)),
    }
}

/// The content of a block of instructions.
pub open spec fn ops_of(s: Seq<Instruction>) -> Seq<Op>
    decreases s,
{
    if s.len() == 0 {
        Seq::empty()
    } else {
        ops_of(s.drop_last()).push(op_of(s.last()))
    }
}

/// The content of a list of blocks.
pub open spec fn blocks_of(s: Seq<Vec<Instruction>>) -> Seq<Seq<Op>>
    decreases s,
{
    if s.len() == 0 {
        Seq::empty()
    } else {
        blocks_of(s.drop_last()).push(ops_of(s.last()@))
    }
}

/// The content of an optional instruction.
pub open spec fn opt_op(o: Option<Instruction>) -> Option<Op> {
    match o {
        Some(i) => Some(op_of(i)),
        None => None,
    }
}

/// The content of a list of names.
pub open spec fn names_of(s: Seq<String>) -> Seq<Seq<char>> {
    s.map_values(|n: String| n@)
}

pub proof fn lemma_ops_of(s: Seq<Instruction>)
    ensures
        ops_of(s).len() == s.len(),
        forall|k: int| 0 <= k < s.len() ==> #[trigger] ops_of(s)[k] == op_of(s[k]),
    decreases s.len(),
{
    if s.len() > 0 {
        lemma_ops_of(s.drop_last());
    }
}

pub proof fn lemma_blocks_of(s: Seq<Vec<Instruction>>)
    ensures
        blocks_of(s).len() == s.len(),
        forall|k: int| 0 <= k < s.len() ==> #[trigger] blocks_of(s)[k] == ops_of(s[k]@),
    decreases s.len(),
{
    if s.len() > 0 {
        lemma_blocks_of(s.drop_last());
    }
}


/// A copy of `i` with the same content.
pub fn copy_instruction(i: &Instruction) -> (r: Instruction)
    ensures
        op_of(r) == op_of(*i),
    decreases op_of(*i),
{
    match i {
        Instruction::Add => Instruction::Add,
        Instruction::Mul => Instruction::Mul,
        Instruction::LessThan => Instruction::LessThan,
        Instruction::GreaterThan => Instruction::GreaterThan,
        Instruction::Push { value } => Instruction::Push { value: *value },
        Instruction::PrintLn => Instruction::PrintLn,
        Instruction::Assign { id } => Instruction::Assign { id: id.clone() },
        Instruction::Load { id } => Instruction::Load { id: id.clone() },
        Instruction::Return { block } => {
            proof {
                assert(op_of(*i)->Return_0 == ops_of(block@));
                assert(decreases_to!(op_of(*i) => op_of(*i)->Return_0));
            }
            Instruction::Return { block: copy_block(block) }
        },
        Instruction::Function { id, params, block } => {
            proof {
                assert(op_of(*i)->Function_2 == ops_of(block@));
                assert(decreases_to!(op_of(*i) => op_of(*i)->Function_2));
            }
            Instruction::Function { id: id.clone(), params: copy_names(params), block: copy_block(block) }
        },
        Instruction::FunctionCall { id, args } => {
            proof {
                assert(op_of(*i)->FunctionCall_1 == blocks_of(args@));
                assert(decreases_to!(op_of(*i) => op_of(*i)->FunctionCall_1));
            }
            Instruction::FunctionCall { id: id.clone(), args: copy_blocks(args) }
        },
    }
}

/// A copy of a block with the same content.
pub fn copy_block(v: &Vec<Instruction>) -> (r: Vec<Instruction>)
    ensures
        ops_of(r@) == ops_of(v@),
    decreases ops_of(v@),
{
    proof {
        lemma_ops_of(v@);
    }
    let mut r: Vec<Instruction> = Vec::new();
    let mut k: usize = 0;
    while k < v.len()
        invariant
            k <= v.len(),
            r@.len() == k,
            ops_of(v@).len() == v@.len(),
            forall|j: int| 0 <= j < v@.len() ==> #[trigger] ops_of(v@)[j] == op_of(v@[j]),
            forall|j: int| 0 <= j < k ==> op_of(#[trigger] r@[j]) == op_of(v@[j]),
        decreases v.len() - k,
    {
        proof {
            assert(decreases_to!(ops_of(v@) => ops_of(v@)[k as int]));
        }
        let c = copy_instruction(&v[k]);
        r.push(c);
        k = k + 1;
    }
    proof {
        lemma_ops_of(r@);
        assert(ops_of(r@) =~= ops_of(v@));
    }
    r
}

/// A copy of a list of blocks with the same content.
pub fn copy_blocks(v: &Vec<Vec<Instruction>>) -> (r: Vec<Vec<Instruction>>)
    ensures
        blocks_of(r@) == blocks_of(v@),
    decreases blocks_of(v@),
{
    proof {
        lemma_blocks_of(v@);
    }
    let mut r: Vec<Vec<Instruction>> = Vec::new();
    let mut k: usize = 0;
    while k < v.len()
        invariant
            k <= v.len(),
            r@.len() == k,
            blocks_of(v@).len() == v@.len(),
            forall|j: int| 0 <= j < v@.len() ==> #[trigger] blocks_of(v@)[j] == ops_of(v@[j]@),
            forall|j: int| 0 <= j < k ==> ops_of(#[trigger] r@[j]@) == ops_of(v@[j]@),
        decreases v.len() - k,
    {
        proof {
            assert(decreases_to!(blocks_of(v@) => blocks_of(v@)[k as int]));
        }
        let c = copy_block(&v[k]);
        r.push(c);
        k = k + 1;
    }
    proof {
        lemma_blocks_of(r@);
        assert(blocks_of(r@) =~= blocks_of(v@));
    }
    r
}

/// A copy of a list of names.
pub fn copy_names(v: &Vec<String>) -> (r: Vec<String>)
    ensures
        r@ == v@,
{
    let mut r: Vec<String> = Vec::new();
    let mut k: usize = 0;
    while k < v.len()
        invariant
            k <= v.len(),
            r@ == v@.subrange(0, k as int),
        decreases v.len() - k,
    {
        let c = v[k].clone();
        r.push(c);
        proof {
            assert(r@ =~= v@.subrange(0, k + 1));
        }
        k = k + 1;
    }
    proof {
        assert(r@ =~= v@);
    }
    r
}

} // verus!
