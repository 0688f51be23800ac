//! The code generator: walk the instruction tree and emit the module's basic
//! blocks. Leaf instructions append one abstract operation to the block under
//! construction. A loop emits a fixed three-block pattern: the current block
//! jumps into a fresh condition block, which branches on the byte at the head
//! to a body block or past the loop to an exit block; the body is generated
//! recursively and its last block jumps back to the condition block; emission
//! then continues in the exit block. Finalization seals the last open block
//! with a return.

use crate::ast::{all_leaves, inst_view, insts_view, lemma_insts_view_index, lemma_insts_view_len,
    nodes_io_free, Instruction, Node};
use crate::interp::{run_node, run_nodes, step_leaf, InterpError, MachineState, TAPE_LEN};
use crate::ir::{blocks_view, ir_step, op_node, run_module_from, run_ops, Block, BlockModel, IrOp,
    Module, ModuleModel, Terminator};
use vstd::prelude::*;

verus! {

broadcast use vstd::std_specs::vec::group_vec_axioms;

/// The abstract operation a leaf instruction translates to.
pub open spec fn op_of_leaf(n: Node) -> IrOp {
    match n {
        Node::MoveRight => IrOp::HeadRight,
        Node::MoveLeft => IrOp::HeadLeft,
        Node::Inc => IrOp::CellInc,
        Node::Dec => IrOp::CellDec,
        Node::Read => IrOp::CallGetchar,
        Node::Write => IrOp::CallPutchar,
        Node::Loop(_) => IrOp::HeadRight,
    }
}

/// A block not yet sealed: no operations, ending in a return until its real
/// terminator is known.
pub open spec fn open_block() -> BlockModel {
    BlockModel { ops: Seq::empty(), term: Terminator::Return }
}

/// What generating one node does to the emission state: the blocks built so
/// far, the index of the block under construction, and that block's
/// operations so far.
pub open spec fn gen_node(n: Node, blocks: Seq<BlockModel>, cur: int, ops: Seq<IrOp>) -> (
    Seq<BlockModel>,
    int,
    Seq<IrOp>,
)
    decreases n,
{
    match n {
        Node::Loop(body) => {
            let cond = blocks.len() as usize;
            let bodyb = (blocks.len() + 1) as usize;
            let exit = (blocks.len() + 2) as usize;
            let sealed = blocks.update(
                cur,
                BlockModel { ops, term: Terminator::Jump { target: cond } },
            );
            let opened = sealed.push(
                BlockModel { ops: Seq::empty(), term: Terminator::Branch { nonzero: bodyb, zero: exit } },
            ).push(open_block()).push(open_block());
            let (built, last, last_ops) = gen_nodes(body, opened, bodyb as int, Seq::empty());
            let closed = built.update(
                last,
                BlockModel { ops: last_ops, term: Terminator::Jump { target: cond } },
            );
            (closed, exit as int, Seq::empty())
        },
        _ => (blocks, cur, ops.push(op_of_leaf(n))),
    }
}

/// What generating a sequence of nodes in order does to the emission state.
pub open spec fn gen_nodes(s: Seq<Node>, blocks: Seq<BlockModel>, cur: int, ops: Seq<IrOp>) -> (
    Seq<BlockModel>,
    int,
    Seq<IrOp>,
)
    decreases s,
{
    if s.len() == 0 {
        (blocks, cur, ops)
    } else {
        let (b1, c1, o1) = gen_node(s[0], blocks, cur, ops);
        gen_nodes(s.subrange(1, s.len() as int), b1, c1, o1)
    }
}

/// The module a program generates: start in a single open entry block,
/// generate every top-level node, and seal the last open block with a return.
pub open spec fn module_spec(prog: Seq<Node>) -> ModuleModel {
    let (blocks, last, ops) = gen_nodes(prog, seq![open_block()], 0, Seq::empty());
    ModuleModel {
        tape_len: TAPE_LEN,
        blocks: blocks.update(last, BlockModel { ops, term: Terminator::Return }),
    }
}

/// Generate the blocks for the instructions in order, starting in block `cur`
/// whose operations so far are `cur_ops`; return the index of the block left
/// under construction and its operations.
#[verifier::loop_isolation(false)]
fn gen_insts(insts: &Vec<Instruction>, blocks: &mut Vec<Block>, cur: usize, cur_ops: Vec<IrOp>)
    -> (r: (usize, Vec<IrOp>))
    requires
        cur < old(blocks)@.len(),
    ensures
        ({
            let (b, c, o) = gen_nodes(
                insts_view(insts@),
                blocks_view(old(blocks)@),
                cur as int,
                cur_ops@,
            );
            &&& blocks_view(final(blocks)@) == b
            &&& r.0 as int == c
            &&& r.1@ == o
            &&& r.0 < final(blocks)@.len()
            &&& old(blocks)@.len() <= final(blocks)@.len()
        }),
    decreases insts,
{
    proof {
        lemma_insts_view_len(insts@);
    }
    let ghost nodes = insts_view(insts@);
    let ghost blocks0 = blocks_view(blocks@);
    let n = insts.len();
    let ghost cur0 = cur as int;
    let ghost ops0 = cur_ops@;
    let mut cur = cur;
    let mut cur_ops = cur_ops;
    proof {
        assert(nodes.subrange(0, n as int) =~= nodes);
    }
    let mut j: usize = 0;
    while j < n
        invariant
            j <= n,
            cur < blocks@.len(),
            old(blocks)@.len() <= blocks@.len(),
            gen_nodes(nodes, blocks0, cur0, ops0) == gen_nodes(
                nodes.subrange(j as int, n as int),
                blocks_view(blocks@),
                cur as int,
                cur_ops@,
            ),
        decreases n - j,
    {
        let ghost sub_j = nodes.subrange(j as int, n as int);
        proof {
            lemma_insts_view_index(insts@, j as int);
            assert(sub_j[0] == inst_view(insts@[j as int]));
            assert(sub_j.subrange(1, sub_j.len() as int) =~= nodes.subrange(
                j as int + 1,
                n as int,
            ));
        }
        let ghost node_j = sub_j[0];
        let ghost pre_blocks = blocks_view(blocks@);
        let ghost pre_cur = cur as int;
        let ghost pre_ops = cur_ops@;
        let inst = &insts[j];
        match inst {
            Instruction::MoveRight => cur_ops.push(IrOp::HeadRight),
            Instruction::MoveLeft => cur_ops.push(IrOp::HeadLeft),
            Instruction::Inc => cur_ops.push(IrOp::CellInc),
            Instruction::Dec => cur_ops.push(IrOp::CellDec),
            Instruction::Read => cur_ops.push(IrOp::CallGetchar),
            Instruction::Write => cur_ops.push(IrOp::CallPutchar),
            Instruction::Loop(body) => {
                let cond = blocks.len();
                blocks[cur] = Block { ops: cur_ops, term: Terminator::Jump { target: cond } };
                cur_ops = Vec::new();
                let ghost sealed = blocks_view(blocks@);
                blocks.push(Block { ops: Vec::new(), term: Terminator::Return });
                let bodyb = blocks.len();
                blocks.push(Block { ops: Vec::new(), term: Terminator::Return });
                let exit = blocks.len();
                blocks.push(Block { ops: Vec::new(), term: Terminator::Return });
                blocks[cond] = Block {
                    ops: Vec::new(),
                    term: Terminator::Branch { nonzero: bodyb, zero: exit },
                };
                let ghost opened = sealed.push(
                    BlockModel {
                        ops: Seq::empty(),
                        term: Terminator::Branch { nonzero: bodyb, zero: exit },
                    },
                ).push(open_block()).push(open_block());
                proof {
                    assert(sealed =~= pre_blocks.update(
                        pre_cur,
                        BlockModel { ops: pre_ops, term: Terminator::Jump { target: cond } },
                    ));
                    assert(blocks_view(blocks@) =~= opened);
                    assert(decreases_to!(insts => insts@[j as int]));
                    assert(decreases_to!(insts@[j as int] => *body));
                }
                let rec = gen_insts(body, blocks, bodyb, Vec::new());
                let last = rec.0;
                let last_ops = rec.1;
                blocks[last] = Block { ops: last_ops, term: Terminator::Jump { target: cond } };
                cur = exit;
                proof {
                    let (sb, sc, so) = gen_node(node_j, pre_blocks, pre_cur, pre_ops);
                    assert(blocks_view(blocks@) =~= sb);
                    assert(so =~= Seq::<IrOp>::empty());
                    assert(cur_ops@ =~= Seq::<IrOp>::empty());
                }
            },
        }
        proof {
            let (sb, sc, so) = gen_node(node_j, pre_blocks, pre_cur, pre_ops);
            assert(blocks_view(blocks@) == sb && cur as int == sc && cur_ops@ == so);
            assert(gen_nodes(sub_j, pre_blocks, pre_cur, pre_ops) == gen_nodes(
                nodes.subrange(j as int + 1, n as int),
                blocks_view(blocks@),
                cur as int,
                cur_ops@,
            ));
        }
        j = j + 1;
    }
    proof {
        assert(nodes.subrange(n as int, n as int) =~= Seq::<Node>::empty());
    }
    (cur, cur_ops)
}

/// The abstract operations of a straight-line program, one per leaf.
pub open spec fn leaf_ops(s: Seq<Node>) -> Seq<IrOp> {
    s.map_values(|n: Node| op_of_leaf(n))
}

/// Generating a straight-line program leaves the block layout alone and only
/// appends the leaves' operations to the block under construction.
proof fn lemma_gen_straight(s: Seq<Node>, blocks: Seq<BlockModel>, cur: int, ops: Seq<IrOp>)
    requires
        all_leaves(s),
    ensures
        gen_nodes(s, blocks, cur, ops) == (blocks, cur, ops + leaf_ops(s)),
    decreases s,
{
    if s.len() == 0 {
        assert(ops + leaf_ops(s) =~= ops);
    } else {
        let rest = s.subrange(1, s.len() as int);
        assert(crate::ast::is_leaf(s[0]));
        assert(all_leaves(rest)) by {
            assert(forall|i: int| 0 <= i < rest.len() ==> #[trigger] rest[i] == s[i + 1]);
        }
        assert(gen_node(s[0], blocks, cur, ops) == (blocks, cur, ops.push(op_of_leaf(s[0]))));
        lemma_gen_straight(rest, blocks, cur, ops.push(op_of_leaf(s[0])));
        assert(ops.push(op_of_leaf(s[0])) + leaf_ops(rest) =~= ops + leaf_ops(s));
    }
}

/// On a straight-line program the interpreter is the fold of the leaf
/// effects: exactly what a single block of the corresponding operations does.
proof fn lemma_run_straight(s: Seq<Node>, st: MachineState, fuel: nat)
    requires
        all_leaves(s),
    ensures
        run_nodes(s, st, fuel) == run_ops(leaf_ops(s), st),
    decreases s,
{
    if s.len() > 0 {
        let rest = s.subrange(1, s.len() as int);
        assert(crate::ast::is_leaf(s[0]));
        assert(all_leaves(rest)) by {
            assert(forall|i: int| 0 <= i < rest.len() ==> #[trigger] rest[i] == s[i + 1]);
        }
        assert(op_node(op_of_leaf(s[0])) == s[0]);
        assert(run_node(s[0], st, fuel) == step_leaf(s[0], st));
        assert(ir_step(leaf_ops(s)[0], st) == step_leaf(s[0], st));
        assert(leaf_ops(s).subrange(1, leaf_ops(s).len() as int) =~= leaf_ops(rest));
        match step_leaf(s[0], st) {
            Ok(st1) => lemma_run_straight(rest, st1, fuel),
            Err(_) => {},
        }
    }
}

/// A straight-line program without `Read` or `Write` touches neither the
/// input cursor nor the output.
proof fn lemma_run_straight_io_free(s: Seq<Node>, st: MachineState, fuel: nat)
    requires
        all_leaves(s),
        nodes_io_free(s),
    ensures
        match run_nodes(s, st, fuel) {
            Ok(st2) => st2.output == st.output && st2.pos == st.pos && st2.input == st.input,
            Err(_) => true,
        },
    decreases s,
{
    if s.len() > 0 {
        let rest = s.subrange(1, s.len() as int);
        assert(crate::ast::is_leaf(s[0]));
        assert(all_leaves(rest)) by {
            assert(forall|i: int| 0 <= i < rest.len() ==> #[trigger] rest[i] == s[i + 1]);
        }
        assert(run_node(s[0], st, fuel) == step_leaf(s[0], st));
        assert(crate::ast::node_io_free(s[0]));
        match step_leaf(s[0], st) {
            Ok(st1) => {
                assert(st1.output == st.output && st1.pos == st.pos && st1.input == st.input);
                lemma_run_straight_io_free(rest, st1, fuel);
            },
            Err(_) => {},
        }
    }
}

/// Law: on a straight-line program (no loops) that performs no input or
/// output, the two backends agree. From any starting state the interpreter
/// computes exactly the fold of the leaf effects with 8-bit wraparound; the
/// generated module, entered at block zero, finishes with the same result;
/// and the input cursor and the output are left untouched.
pub proof fn lemma_backends_agree_straight_line(
    prog: Seq<Node>,
    st: MachineState,
    fuel: nat,
    block_fuel: nat,
)
    requires
        all_leaves(prog),
        nodes_io_free(prog),
    ensures
        run_nodes(prog, st, fuel) == run_ops(leaf_ops(prog), st),
        run_module_from(module_spec(prog).blocks, 0, st, block_fuel) == Some(
            run_nodes(prog, st, fuel),
        ),
        match run_nodes(prog, st, fuel) {
            Ok(st2) => st2.output == st.output && st2.pos == st.pos && st2.input == st.input,
            Err(_) => true,
        },
{
    lemma_run_straight(prog, st, fuel);
    lemma_run_straight_io_free(prog, st, fuel);
    lemma_gen_straight(prog, seq![open_block()], 0, Seq::empty());
    let blocks = module_spec(prog).blocks;
    assert(Seq::<IrOp>::empty() + leaf_ops(prog) =~= leaf_ops(prog));
    assert(blocks =~= seq![BlockModel { ops: leaf_ops(prog), term: Terminator::Return }]);
    assert(blocks[0].ops == leaf_ops(prog));
}

/// Walk the instruction tree and emit the complete module: one entry function
/// over a fixed zero-initialized tape, entered at block zero, with the fixed
/// three-block pattern for every loop and a final return.
pub fn generate(program: &Vec<Instruction>) -> (m: Module)
    ensures
        m@ == module_spec(insts_view(program@)),
{
    let mut blocks: Vec<Block> = Vec::new();
    blocks.push(Block { ops: Vec::new(), term: Terminator::Return });
    proof {
        assert(blocks_view(blocks@) =~= seq![open_block()]);
    }
    let r = gen_insts(program, &mut blocks, 0, Vec::new());
    let last = r.0;
    let last_ops = r.1;
    blocks[last] = Block { ops: last_ops, term: Terminator::Return };
    let m = Module { tape_len: TAPE_LEN, blocks };
    proof {
        assert(m@.blocks =~= module_spec(insts_view(program@)).blocks);
        assert(m@ =~= module_spec(insts_view(program@)));
    }
    m
}

} // verus!
