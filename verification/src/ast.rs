//! The instruction tree: six leaf tags plus a `Loop` node that owns an
//! ordered sequence of child instructions, together with its mathematical
//! model and the measures (size, nesting depth, leaf count) the contracts
//! speak of.

use crate::lexer::Operation;
use vstd::prelude::*;

verus! {

/// A parsed, structurally resolved program node: a leaf operation or a loop
/// owning its children.
#[derive(PartialEq, Eq, Debug)]
pub enum Instruction {
    MoveRight,
    MoveLeft,
    Inc,
    Dec,
    Read,
    Write,
    Loop(Vec<Instruction>),
}

/// The mathematical model of an instruction tree node.
pub enum Node {
    MoveRight,
    MoveLeft,
    Inc,
    Dec,
    Read,
    Write,
    Loop(Seq<Node>),
}

/// The model of one instruction.
pub open spec fn inst_view(inst: Instruction) -> Node
    decreases inst,
{
    match inst {
        Instruction::MoveRight => Node::MoveRight,
        Instruction::MoveLeft => Node::MoveLeft,
        Instruction::Inc => Node::Inc,
        Instruction::Dec => Node::Dec,
        Instruction::Read => Node::Read,
        Instruction::Write => Node::Write,
        Instruction::Loop(body) => Node::Loop(insts_view(body@)),
    }
}

/// The model of an instruction sequence, elementwise.
pub open spec fn insts_view(s: Seq<Instruction>) -> Seq<Node>
    decreases s,
{
    if s.len() == 0 {
        Seq::empty()
    } else {
        seq![inst_view(s[0])] + insts_view(s.subrange(1, s.len() as int))
    }
}

pub broadcast proof fn lemma_insts_view_len(s: Seq<Instruction>)
    ensures
        (#[trigger] insts_view(s)).len() == s.len(),
    decreases s,
{
    if s.len() > 0 {
        lemma_insts_view_len(s.subrange(1, s.len() as int));
    }
}

pub broadcast proof fn lemma_insts_view_index(s: Seq<Instruction>, i: int)
    requires
        0 <= i < s.len(),
    ensures
        #[trigger] insts_view(s)[i] == inst_view(s[i]),
    decreases s,
{
    lemma_insts_view_len(s);
    if i > 0 {
        lemma_insts_view_index(s.subrange(1, s.len() as int), i - 1);
    }
}

pub proof fn lemma_insts_view_push(s: Seq<Instruction>, inst: Instruction)
    ensures
        insts_view(s.push(inst)) == insts_view(s).push(inst_view(inst)),
    decreases s,
{
    lemma_insts_view_len(s);
    lemma_insts_view_len(s.push(inst));
    if s.len() == 0 {
        assert(s.push(inst)[0] == inst);
        assert(s.push(inst).subrange(1, 1) =~= Seq::<Instruction>::empty());
        assert(insts_view(s.push(inst)) =~= insts_view(s).push(inst_view(inst)));
    } else {
        assert(s.push(inst).subrange(1, s.len() as int + 1) =~= s.subrange(1, s.len() as int).push(
            inst,
        ));
        lemma_insts_view_push(s.subrange(1, s.len() as int), inst);
        assert(insts_view(s.push(inst)) =~= insts_view(s).push(inst_view(inst)));
    }
}

/// Whether an operation is one of the six that map directly to a leaf
/// instruction (everything but the two brackets).
pub open spec fn is_leaf_op(op: Operation) -> bool {
    op != Operation::LoopOpen && op != Operation::LoopClose
}

/// The leaf instruction node a non-bracket operation maps to.
pub open spec fn leaf_node(op: Operation) -> Node
    recommends
        is_leaf_op(op),
{
    match op {
        Operation::MoveRight => Node::MoveRight,
        Operation::MoveLeft => Node::MoveLeft,
        Operation::Inc => Node::Inc,
        Operation::Dec => Node::Dec,
        Operation::Read => Node::Read,
        Operation::Write => Node::Write,
        _ => Node::MoveRight,
    }
}

/// Nesting depth of one node: leaves have depth zero, a loop is one deeper
/// than its deepest child.
pub open spec fn node_depth(n: Node) -> nat
    decreases n,
{
    match n {
        Node::Loop(body) => 1 + nodes_depth(body),
        _ => 0,
    }
}

/// Nesting depth of a sequence of nodes: the maximum over its elements,
/// zero for the empty sequence.
pub open spec fn nodes_depth(s: Seq<Node>) -> nat
    decreases s,
{
    if s.len() == 0 {
        0
    } else {
        let d0 = node_depth(s[0]);
        let dr = nodes_depth(s.subrange(1, s.len() as int));
        if d0 >= dr {
            d0
        } else {
            dr
        }
    }
}

/// Number of leaves of one node.
pub open spec fn node_leaves(n: Node) -> nat
    decreases n,
{
    match n {
        Node::Loop(body) => nodes_leaves(body),
        _ => 1,
    }
}

/// Total number of leaves of a sequence of nodes.
pub open spec fn nodes_leaves(s: Seq<Node>) -> nat
    decreases s,
{
    if s.len() == 0 {
        0
    } else {
        node_leaves(s[0]) + nodes_leaves(s.subrange(1, s.len() as int))
    }
}

/// Number of loop nodes in one node, itself included.
pub open spec fn loop_count(n: Node) -> nat
    decreases n,
{
    match n {
        Node::Loop(body) => 1 + loops_count(body),
        _ => 0,
    }
}

/// Total number of loop nodes in a sequence of nodes.
pub open spec fn loops_count(s: Seq<Node>) -> nat
    decreases s,
{
    if s.len() == 0 {
        0
    } else {
        loop_count(s[0]) + loops_count(s.subrange(1, s.len() as int))
    }
}

/// Whether a node is a leaf (not a loop).
pub open spec fn is_leaf(n: Node) -> bool {
    !(n is Loop)
}

/// Whether every node of a sequence is a leaf: the program is straight-line.
pub open spec fn all_leaves(s: Seq<Node>) -> bool {
    forall|i: int| 0 <= i < s.len() ==> is_leaf(#[trigger] s[i])
}

/// Whether a node performs no input or output.
pub open spec fn node_io_free(n: Node) -> bool
    decreases n,
{
    match n {
        Node::Read => false,
        Node::Write => false,
        Node::Loop(body) => nodes_io_free(body),
        _ => true,
    }
}

/// Whether a sequence of nodes performs no input or output.
pub open spec fn nodes_io_free(s: Seq<Node>) -> bool
    decreases s,
{
    s.len() == 0 || (node_io_free(s[0]) && nodes_io_free(s.subrange(1, s.len() as int)))
}

} // verus!
