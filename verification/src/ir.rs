//! The low-level module model: the generated program artifact is one
//! parameterless, non-returning entry function whose body is a list of basic
//! blocks over a fixed zero-initialized tape and a movable head, entered at
//! block zero. Blocks hold abstract cell and head operations; control flow is
//! explicit in each block's terminator. A backend serializer turns this model
//! into its concrete textual form (external declarations for `memset`,
//! `putchar` and `getchar`, the stack buffer, and one instruction sequence
//! per operation); the model fixes everything that form must encode.

use crate::interp::{step_leaf, InterpError, MachineState};
use crate::ast::Node;
use vstd::prelude::*;

verus! {

/// One abstract operation inside a basic block.
#[derive(Clone, Copy, PartialEq, Eq, Structural, Debug)]
pub enum IrOp {
    /// Head := Head + 1 cell.
    HeadRight,
    /// Head := Head - 1 cell.
    HeadLeft,
    /// Load the byte at the head, add one with 8-bit wraparound, store back.
    CellInc,
    /// Load the byte at the head, subtract one with 8-bit wraparound, store back.
    CellDec,
    /// Call `getchar` and store its single-byte result at the head.
    CallGetchar,
    /// Pass the byte at the head to `putchar`, discarding the result.
    CallPutchar,
}

/// How a basic block ends.
#[derive(Clone, Copy, PartialEq, Eq, Structural, Debug)]
pub enum Terminator {
    /// Emit a void return from the entry function.
    Return,
    /// Branch unconditionally to the block `target`.
    Jump { target: usize },
    /// Load the byte at the head and branch: to `nonzero` if it is not zero,
    /// to `zero` otherwise.
    Branch { nonzero: usize, zero: usize },
}

/// A straight-line sequence of operations with a single entry and a single
/// exit.
#[derive(PartialEq, Eq, Debug)]
pub struct Block {
    pub ops: Vec<IrOp>,
    pub term: Terminator,
}

/// The mathematical model of a basic block.
#[verifier::ext_equal]
pub struct BlockModel {
    pub ops: Seq<IrOp>,
    pub term: Terminator,
}

impl View for Block {
    type V = BlockModel;

    open spec fn view(&self) -> BlockModel {
        BlockModel { ops: self.ops@, term: self.term }
    }
}

/// The generated program artifact: the length of its zero-initialized tape
/// and the basic blocks of its entry function, entered at block zero.
#[derive(PartialEq, Eq, Debug)]
pub struct Module {
    pub tape_len: usize,
    pub blocks: Vec<Block>,
}

/// The mathematical model of a module.
#[verifier::ext_equal]
pub struct ModuleModel {
    pub tape_len: usize,
    pub blocks: Seq<BlockModel>,
}

/// The models of a sequence of blocks, elementwise.
pub open spec fn blocks_view(s: Seq<Block>) -> Seq<BlockModel> {
    s.map_values(|b: Block| b@)
}

impl View for Module {
    type V = ModuleModel;

    open spec fn view(&self) -> ModuleModel {
        ModuleModel { tape_len: self.tape_len, blocks: blocks_view(self.blocks@) }
    }
}

/// The instruction node whose effect an abstract operation has: the module's
/// per-operation semantics are exactly the interpreter's leaf semantics.
pub open spec fn op_node(op: IrOp) -> Node {
    match op {
        IrOp::HeadRight => Node::MoveRight,
        IrOp::HeadLeft => Node::MoveLeft,
        IrOp::CellInc => Node::Inc,
        IrOp::CellDec => Node::Dec,
        IrOp::CallGetchar => Node::Read,
        IrOp::CallPutchar => Node::Write,
    }
}

/// What one abstract operation does to the machine.
pub open spec fn ir_step(op: IrOp, st: MachineState) -> Result<MachineState, InterpError> {
    step_leaf(op_node(op), st)
}

/// What a block's straight-line operations do to the machine, in order.
pub open spec fn run_ops(ops: Seq<IrOp>, st: MachineState) -> Result<MachineState, InterpError>
    decreases ops.len(),
{
    if ops.len() == 0 {
        Ok(st)
    } else {
        match ir_step(ops[0], st) {
            Ok(st1) => run_ops(ops.subrange(1, ops.len() as int), st1),
            Err(e) => Err(e),
        }
    }
}

/// What executing the block graph does to the machine, starting at block `b`:
/// run the block's operations, then follow its terminator, spending one unit
/// of `fuel` per transition. `None` when the budget runs out or a branch
/// leaves the graph; generated modules never do the latter.
pub open spec fn run_module_from(
    blocks: Seq<BlockModel>,
    b: int,
    st: MachineState,
    fuel: nat,
) -> Option<Result<MachineState, InterpError>>
    decreases fuel,
{
    if !(0 <= b < blocks.len()) {
        None
    } else {
        match run_ops(blocks[b].ops, st) {
            Err(e) => Some(Err(e)),
            Ok(st1) => match blocks[b].term {
                Terminator::Return => Some(Ok(st1)),
                Terminator::Jump { target } => if fuel == 0 {
                    None
                } else {
                    run_module_from(blocks, target as int, st1, (fuel - 1) as nat)
                },
                Terminator::Branch { nonzero, zero } => if fuel == 0 {
                    None
                } else if st1.tape[st1.head] != 0 {
                    run_module_from(blocks, nonzero as int, st1, (fuel - 1) as nat)
                } else {
                    run_module_from(blocks, zero as int, st1, (fuel - 1) as nat)
                },
            },
        }
    }
}

} // verus!
