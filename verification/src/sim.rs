//! Correctness of the code generator: the generated block graph faithfully
//! implements the interpreter. The proof walks generation and execution
//! together: execution is tracked mid-block (the operations still pending in
//! the block under construction), each emitted loop triple is shown to
//! simulate the interpreter's loop, and the pieces compose along the
//! generator's recursion.

use crate::ast::{loop_count, loops_count, Node};
use crate::codegen::{gen_node, gen_nodes, module_spec, open_block};
use crate::interp::{run_node, run_nodes, InterpError, MachineState};
use crate::ir::{ir_step, run_module_from, run_ops, BlockModel, IrOp, Terminator};
use vstd::prelude::*;

verus! {

/// Execution positioned inside a block: run the operations still pending
/// there, then follow the given terminator through the graph, one unit of
/// fuel per block transition.
spec fn run_seg(
    blocks: Seq<BlockModel>,
    pending: Seq<IrOp>,
    term: Terminator,
    st: MachineState,
    fuel: nat,
) -> Option<Result<MachineState, InterpError>>
    decreases fuel,
{
    match run_ops(pending, st) {
        Err(e) => Some(Err(e)),
        Ok(st1) => match term {
            Terminator::Return => Some(Ok(st1)),
            Terminator::Jump { target } => if fuel == 0 || target >= blocks.len() {
                None
            } else {
                run_seg(
                    blocks,
                    blocks[target as int].ops,
                    blocks[target as int].term,
                    st1,
                    (fuel - 1) as nat,
                )
            },
            Terminator::Branch { nonzero, zero } => {
                let nxt = if st1.tape[st1.head] != 0 {
                    nonzero
                } else {
                    zero
                };
                if fuel == 0 || nxt >= blocks.len() {
                    None
                } else {
                    run_seg(
                        blocks,
                        blocks[nxt as int].ops,
                        blocks[nxt as int].term,
                        st1,
                        (fuel - 1) as nat,
                    )
                }
            },
        },
    }
}

/// Straight-line operations run one after the other.
proof fn lemma_run_ops_append(a: Seq<IrOp>, b: Seq<IrOp>, st: MachineState)
    ensures
        run_ops(a + b, st) == match run_ops(a, st) {
            Ok(m) => run_ops(b, m),
            Err(e) => Err(e),
        },
    decreases a,
{
    if a.len() == 0 {
        assert(a + b =~= b);
    } else {
        assert((a + b)[0] == a[0]);
        assert((a + b).subrange(1, (a + b).len() as int) =~= a.subrange(1, a.len() as int) + b);
        match ir_step(a[0], st) {
            Ok(st1) => lemma_run_ops_append(a.subrange(1, a.len() as int), b, st1),
            Err(_) => {},
        }
    }
}

/// More fuel never changes a finished segment run.
proof fn lemma_run_seg_fuel_monotone(
    blocks: Seq<BlockModel>,
    pending: Seq<IrOp>,
    term: Terminator,
    st: MachineState,
    f1: nat,
    f2: nat,
)
    requires
        f1 <= f2,
        run_seg(blocks, pending, term, st, f1) is Some,
    ensures
        run_seg(blocks, pending, term, st, f2) == run_seg(blocks, pending, term, st, f1),
    decreases f1,
{
    if let Ok(st1) = run_ops(pending, st) {
        match term {
            Terminator::Return => {},
            Terminator::Jump { target } => {
                lemma_run_seg_fuel_monotone(
                    blocks,
                    blocks[target as int].ops,
                    blocks[target as int].term,
                    st1,
                    (f1 - 1) as nat,
                    (f2 - 1) as nat,
                );
            },
            Terminator::Branch { nonzero, zero } => {
                let nxt = if st1.tape[st1.head] != 0 {
                    nonzero
                } else {
                    zero
                };
                lemma_run_seg_fuel_monotone(
                    blocks,
                    blocks[nxt as int].ops,
                    blocks[nxt as int].term,
                    st1,
                    (f1 - 1) as nat,
                    (f2 - 1) as nat,
                );
            },
        }
    }
}

/// What generation never does: it reads and rewrites only the block under
/// construction and blocks it creates itself; everything older stands.
spec fn gen_frame(
    before: Seq<BlockModel>,
    after: Seq<BlockModel>,
    cur: int,
    cur2: int,
    ops: Seq<IrOp>,
    ops2: Seq<IrOp>,
) -> bool {
    &&& before.len() <= after.len()
    &&& (forall|j: int| 0 <= j < before.len() && j != cur ==> after[j] == before[j])
    &&& (cur2 == cur || before.len() <= cur2 < after.len())
    &&& (cur2 == cur ==> after == before)
    &&& ({
        let fin = if cur2 == cur {
            ops2
        } else {
            after[cur].ops
        };
        &&& ops.len() <= fin.len()
        &&& fin.subrange(0, ops.len() as int) == ops
    })
}

proof fn lemma_gen_node_frame(n: Node, blocks: Seq<BlockModel>, cur: int, ops: Seq<IrOp>)
    requires
        0 <= cur < blocks.len(),
        blocks.len() + 3 * loop_count(n) <= usize::MAX,
    ensures
        ({
            let (b2, c2, o2) = gen_node(n, blocks, cur, ops);
            &&& gen_frame(blocks, b2, cur, c2, ops, o2)
            &&& b2.len() == blocks.len() + 3 * loop_count(n)
        }),
    decreases n,
{
    match n {
        Node::Loop(body) => {
            let cond = blocks.len() as usize;
            let bodyb = (blocks.len() + 1) as usize;
            let sealed = blocks.update(
                cur,
                BlockModel { ops, term: Terminator::Jump { target: cond } },
            );
            let opened = sealed.push(
                BlockModel {
                    ops: Seq::empty(),
                    term: Terminator::Branch {
                        nonzero: bodyb,
                        zero: (blocks.len() + 2) as usize,
                    },
                },
            ).push(open_block()).push(open_block());
            lemma_gen_nodes_frame(body, opened, bodyb as int, Seq::empty());
            let (built, last, last_ops) = gen_nodes(body, opened, bodyb as int, Seq::empty());
            let closed = built.update(
                last,
                BlockModel { ops: last_ops, term: Terminator::Jump { target: cond } },
            );
            assert(opened[cur] == sealed[cur]);
            assert(built[cur] == opened[cur]);
            assert(last != cur);
            assert(closed[cur].ops == ops);
            assert(closed[cur].ops.subrange(0, ops.len() as int) =~= ops);
        },
        _ => {
            let o2 = ops.push(crate::codegen::op_of_leaf(n));
            assert(o2.subrange(0, ops.len() as int) =~= ops);
        },
    }
}

/// Simulation, one node: if the interpreter finishes `n` (short of spending
/// its budget), then from the current mid-block position the graph reaches
/// the same outcome — an error directly, or the node's final state handed to
/// the continuation `run_seg(c, extra, ..)`, whose result `res` it returns.
proof fn lemma_sim_node(
    n: Node,
    blocks: Seq<BlockModel>,
    cur: int,
    ops: Seq<IrOp>,
    c: Seq<BlockModel>,
    extra: Seq<IrOp>,
    st: MachineState,
    ifuel: nat,
    tf: nat,
    res: Result<MachineState, InterpError>,
)
    requires
        0 <= cur < blocks.len(),
        blocks.len() + 3 * loop_count(n) <= usize::MAX,
        ({
            let (b2, c2, o2) = gen_node(n, blocks, cur, ops);
            &&& b2.len() <= c.len()
            &&& (forall|j: int| blocks.len() <= j < b2.len() && j != c2 ==> c[j] == b2[j])
            &&& (cur != c2 ==> c[cur] == b2[cur])
            &&& c[c2].ops == o2 + extra
        }),
        run_node(n, st, ifuel) != Err::<MachineState, _>(InterpError::OutOfFuel),
        ({
            let (b2, c2, o2) = gen_node(n, blocks, cur, ops);
            match run_node(n, st, ifuel) {
                Ok(st2) => run_seg(c, extra, c[c2].term, st2, tf) == Some(res),
                Err(_) => true,
            }
        }),
    ensures
        exists|bf: nat|
            #[trigger] run_seg(c, c[cur].ops.skip(ops.len() as int), c[cur].term, st, bf) == Some(
                match run_node(n, st, ifuel) {
                    Ok(_) => res,
                    Err(e) => Err(e),
                },
            ),
    decreases ifuel, n, 1nat,
{
    let (b2, c2, o2) = gen_node(n, blocks, cur, ops);
    let out = match run_node(n, st, ifuel) {
        Ok(_) => res,
        Err(e) => Err(e),
    };
    match n {
        Node::Loop(body) => {
            let cond = blocks.len() as usize;
            let bodyb = (blocks.len() + 1) as usize;
            let exit = (blocks.len() + 2) as usize;
            let sealed = blocks.update(
                cur,
                BlockModel { ops, term: Terminator::Jump { target: cond } },
            );
            let opened = sealed.push(
                BlockModel {
                    ops: Seq::empty(),
                    term: Terminator::Branch { nonzero: bodyb, zero: exit },
                },
            ).push(open_block()).push(open_block());
            lemma_gen_nodes_frame(body, opened, bodyb as int, Seq::empty());
            let (built, last, last_ops) = gen_nodes(body, opened, bodyb as int, Seq::empty());
            let closed = built.update(
                last,
                BlockModel { ops: last_ops, term: Terminator::Jump { target: cond } },
            );
            assert(b2 == closed && c2 == exit as int && o2 =~= Seq::<IrOp>::empty());
            // the already-fixed blocks of this loop, as the completion sees them
            assert(last != cur && last != cond as int && last != exit as int);
            assert(built[cur] == sealed[cur] && built[cond as int] == opened[cond as int]);
            assert(c[cur] == closed[cur]);
            assert(c[cur].ops == ops && c[cur].term == Terminator::Jump { target: cond });
            assert(c[cond as int] == closed[cond as int]);
            assert(c[cond as int].ops =~= Seq::<IrOp>::empty());
            assert(c[cond as int].term == Terminator::Branch { nonzero: bodyb, zero: exit });
            assert(c[exit as int].ops == extra) by {
                assert(Seq::<IrOp>::empty() + extra =~= extra);
            }
            assert(c[cur].ops.skip(ops.len() as int) =~= Seq::<IrOp>::empty());
            // walk the loop as the interpreter does, spending its budget
            lemma_sim_loop(
                n,
                blocks,
                cur,
                ops,
                c,
                extra,
                st,
                ifuel,
                tf,
                res,
            );
            let bf0 = choose|bf: nat|
                #[trigger] run_seg(c, Seq::<IrOp>::empty(), Terminator::Jump { target: cond }, st, bf)
                    == Some(out);
            assert(run_seg(c, c[cur].ops.skip(ops.len() as int), c[cur].term, st, bf0) == Some(
                out,
            ));
        },
        _ => {
            assert(c2 == cur && b2 == blocks && o2 == ops.push(crate::codegen::op_of_leaf(n)));
            let op = crate::codegen::op_of_leaf(n);
            let pend = c[cur].ops.skip(ops.len() as int);
            assert(pend =~= seq![op] + extra) by {
                assert(c[cur].ops == ops.push(op) + extra);
                assert(ops.push(op) + extra =~= (ops + seq![op]) + extra);
            }
            assert(crate::interp::step_leaf(n, st) == run_node(n, st, ifuel));
            assert(ir_step(op, st) == crate::interp::step_leaf(n, st));
            lemma_run_ops_append(seq![op], extra, st);
            assert(run_ops(seq![op], st) == ir_step(op, st)) by {
                assert(seq![op][0] == op);
                assert(seq![op].subrange(1, 1) =~= Seq::<IrOp>::empty());
                if let Ok(stm) = ir_step(op, st) {
                    assert(run_ops(Seq::<IrOp>::empty(), stm) == Ok::<_, InterpError>(stm));
                }
            }
            match run_node(n, st, ifuel) {
                Ok(st1) => {
                    assert(run_ops(pend, st) == run_ops(extra, st1));
                    assert(run_seg(c, pend, c[cur].term, st, tf) == run_seg(
                        c,
                        extra,
                        c[cur].term,
                        st1,
                        tf,
                    ));
                    assert(run_seg(c, pend, c[cur].term, st, tf) == Some(out));
                },
                Err(e) => {
                    assert(run_ops(pend, st) == Err::<MachineState, _>(e));
                    assert(run_seg(c, pend, c[cur].term, st, tf) == Some(out));
                },
            }
        },
    }
}

/// Simulation, the loop proper: positioned just before the jump into the
/// condition block, the graph repeats the body exactly as the interpreter
/// does and leaves through the exit block.
proof fn lemma_sim_loop(
    n: Node,
    blocks: Seq<BlockModel>,
    cur: int,
    ops: Seq<IrOp>,
    c: Seq<BlockModel>,
    extra: Seq<IrOp>,
    st: MachineState,
    ifuel: nat,
    tf: nat,
    res: Result<MachineState, InterpError>,
)
    requires
        n is Loop,
        0 <= cur < blocks.len(),
        blocks.len() + 3 * loop_count(n) <= usize::MAX,
        ({
            let (b2, c2, o2) = gen_node(n, blocks, cur, ops);
            &&& b2.len() <= c.len()
            &&& (forall|j: int| blocks.len() <= j < b2.len() && j != c2 ==> c[j] == b2[j])
            &&& (cur != c2 ==> c[cur] == b2[cur])
            &&& c[c2].ops == o2 + extra
        }),
        run_node(n, st, ifuel) != Err::<MachineState, _>(InterpError::OutOfFuel),
        ({
            let (b2, c2, o2) = gen_node(n, blocks, cur, ops);
            match run_node(n, st, ifuel) {
                Ok(st2) => run_seg(c, extra, c[c2].term, st2, tf) == Some(res),
                Err(_) => true,
            }
        }),
    ensures
        exists|bf: nat|
            #[trigger] run_seg(
                c,
                Seq::<IrOp>::empty(),
                Terminator::Jump { target: blocks.len() as usize },
                st,
                bf,
            ) == Some(
                match run_node(n, st, ifuel) {
                    Ok(_) => res,
                    Err(e) => Err(e),
                },
            ),
    decreases ifuel, n, 0nat,
{
    let body = n->Loop_0;
    let out = match run_node(n, st, ifuel) {
        Ok(_) => res,
        Err(e) => Err(e),
    };
    let cond = blocks.len() as usize;
    let bodyb = (blocks.len() + 1) as usize;
    let exit = (blocks.len() + 2) as usize;
    let sealed = blocks.update(cur, BlockModel { ops, term: Terminator::Jump { target: cond } });
    let opened = sealed.push(
        BlockModel {
            ops: Seq::empty(),
            term: Terminator::Branch { nonzero: bodyb, zero: exit },
        },
    ).push(open_block()).push(open_block());
    lemma_gen_nodes_frame(body, opened, bodyb as int, Seq::empty());
    let (built, last, last_ops) = gen_nodes(body, opened, bodyb as int, Seq::empty());
    let closed = built.update(
        last,
        BlockModel { ops: last_ops, term: Terminator::Jump { target: cond } },
    );
    let (b2, c2, o2) = gen_node(n, blocks, cur, ops);
    assert(b2 == closed && c2 == exit as int);
    assert(built[cond as int] == opened[cond as int] && last != cond as int);
    assert(c[cond as int].ops =~= Seq::<IrOp>::empty());
    assert(c[cond as int].term == Terminator::Branch { nonzero: bodyb, zero: exit });
    assert(c[exit as int].ops == extra) by {
        assert(Seq::<IrOp>::empty() + extra =~= extra);
    }
    assert(run_ops(Seq::<IrOp>::empty(), st) == Ok::<_, InterpError>(st));
    if st.tape[st.head] == 0 {
        // the loop is a no-op: jump to the condition block, branch to the exit
        assert(run_node(n, st, ifuel) == Ok::<_, InterpError>(st));
        assert(run_seg(c, extra, c[exit as int].term, st, tf) == Some(res));
        let bf = tf + 2;
        assert(run_seg(
            c,
            Seq::<IrOp>::empty(),
            Terminator::Jump { target: cond },
            st,
            bf,
        ) == run_seg(c, c[cond as int].ops, c[cond as int].term, st, (bf - 1) as nat));
        assert(run_seg(c, c[cond as int].ops, c[cond as int].term, st, (bf - 1) as nat)
            == run_seg(c, c[exit as int].ops, c[exit as int].term, st, tf));
        assert(run_seg(
            c,
            Seq::<IrOp>::empty(),
            Terminator::Jump { target: cond },
            st,
            bf,
        ) == Some(out));
    } else {
        // the budget cannot be exhausted, so one body run happens
        assert(ifuel > 0);
        // the completion facts the body's own generation needs
        assert(loop_count(n) == 1 + loops_count(body));
        assert(bodyb as int == blocks.len() + 1);
        assert(forall|j: int|
            opened.len() <= j < built.len() && j != last ==> c[j] == built[j]) by {
            assert forall|j: int|
                opened.len() <= j < built.len() && j != last implies c[j] == built[j] by {
                assert(c[j] == closed[j]);
            }
        }
        assert(bodyb as int != last ==> c[bodyb as int] == built[bodyb as int]);
        assert(c[last].ops == last_ops + Seq::<IrOp>::empty()) by {
            assert(c[last] == closed[last]);
            assert(last_ops + Seq::<IrOp>::empty() =~= last_ops);
        }
        assert(c[last].term == Terminator::Jump { target: cond });
        match run_nodes(body, st, ifuel) {
            Ok(st1) => {
                assert(run_node(n, st, ifuel) == run_node(n, st1, (ifuel - 1) as nat));
                // the rest of the loop from the re-checked condition
                lemma_sim_loop(
                    n,
                    blocks,
                    cur,
                    ops,
                    c,
                    extra,
                    st1,
                    (ifuel - 1) as nat,
                    tf,
                    res,
                );
                let bf1 = choose|bf: nat|
                    #[trigger] run_seg(
                        c,
                        Seq::<IrOp>::empty(),
                        Terminator::Jump { target: cond },
                        st1,
                        bf,
                    ) == Some(out);
                // the body itself, continued by that jump back
                lemma_sim_nodes(
                    body,
                    opened,
                    bodyb as int,
                    Seq::empty(),
                    c,
                    Seq::empty(),
                    st,
                    ifuel,
                    bf1,
                    out,
                );
                let bfb = choose|bf: nat|
                    #[trigger] run_seg(
                        c,
                        c[bodyb as int].ops.skip(0),
                        c[bodyb as int].term,
                        st,
                        bf,
                    ) == Some(out);
                assert(c[bodyb as int].ops.skip(0) =~= c[bodyb as int].ops);
                let bf = bfb + 2;
                assert(run_seg(
                    c,
                    Seq::<IrOp>::empty(),
                    Terminator::Jump { target: cond },
                    st,
                    bf,
                ) == run_seg(c, c[cond as int].ops, c[cond as int].term, st, (bf - 1) as nat));
                assert(run_seg(c, c[cond as int].ops, c[cond as int].term, st, (bf - 1) as nat)
                    == run_seg(c, c[bodyb as int].ops, c[bodyb as int].term, st, bfb + 0));
                lemma_run_seg_fuel_monotone(
                    c,
                    c[bodyb as int].ops,
                    c[bodyb as int].term,
                    st,
                    bfb,
                    bfb,
                );
                assert(run_seg(
                    c,
                    Seq::<IrOp>::empty(),
                    Terminator::Jump { target: cond },
                    st,
                    bf,
                ) == Some(out));
            },
            Err(e) => {
                assert(run_node(n, st, ifuel) == Err::<MachineState, _>(e));
                assert(out == Err::<MachineState, _>(e));
                lemma_sim_nodes(
                    body,
                    opened,
                    bodyb as int,
                    Seq::empty(),
                    c,
                    Seq::empty(),
                    st,
                    ifuel,
                    tf,
                    res,
                );
                let bfb = choose|bf: nat|
                    #[trigger] run_seg(
                        c,
                        c[bodyb as int].ops.skip(0),
                        c[bodyb as int].term,
                        st,
                        bf,
                    ) == Some(Err::<MachineState, _>(e));
                assert(c[bodyb as int].ops.skip(0) =~= c[bodyb as int].ops);
                let bf = bfb + 2;
                assert(run_seg(
                    c,
                    Seq::<IrOp>::empty(),
                    Terminator::Jump { target: cond },
                    st,
                    bf,
                ) == run_seg(c, c[cond as int].ops, c[cond as int].term, st, (bf - 1) as nat));
                assert(run_seg(c, c[cond as int].ops, c[cond as int].term, st, (bf - 1) as nat)
                    == run_seg(c, c[bodyb as int].ops, c[bodyb as int].term, st, bfb + 0));
                assert(run_seg(
                    c,
                    Seq::<IrOp>::empty(),
                    Terminator::Jump { target: cond },
                    st,
                    bf,
                ) == Some(out));
            },
        }
    }
}

/// Simulation, a sequence of nodes, composed left to right.
proof fn lemma_sim_nodes(
    s: Seq<Node>,
    blocks: Seq<BlockModel>,
    cur: int,
    ops: Seq<IrOp>,
    c: Seq<BlockModel>,
    extra: Seq<IrOp>,
    st: MachineState,
    ifuel: nat,
    tf: nat,
    res: Result<MachineState, InterpError>,
)
    requires
        0 <= cur < blocks.len(),
        blocks.len() + 3 * loops_count(s) <= usize::MAX,
        ({
            let (b2, c2, o2) = gen_nodes(s, blocks, cur, ops);
            &&& b2.len() <= c.len()
            &&& (forall|j: int| blocks.len() <= j < b2.len() && j != c2 ==> c[j] == b2[j])
            &&& (cur != c2 ==> c[cur] == b2[cur])
            &&& c[c2].ops == o2 + extra
        }),
        run_nodes(s, st, ifuel) != Err::<MachineState, _>(InterpError::OutOfFuel),
        ({
            let (b2, c2, o2) = gen_nodes(s, blocks, cur, ops);
            match run_nodes(s, st, ifuel) {
                Ok(st2) => run_seg(c, extra, c[c2].term, st2, tf) == Some(res),
                Err(_) => true,
            }
        }),
    ensures
        exists|bf: nat|
            #[trigger] run_seg(c, c[cur].ops.skip(ops.len() as int), c[cur].term, st, bf) == Some(
                match run_nodes(s, st, ifuel) {
                    Ok(_) => res,
                    Err(e) => Err(e),
                },
            ),
    decreases ifuel, s, 0nat,
{
    let (b2, c2, o2) = gen_nodes(s, blocks, cur, ops);
    let out = match run_nodes(s, st, ifuel) {
        Ok(_) => res,
        Err(e) => Err(e),
    };
    if s.len() == 0 {
        assert(b2 == blocks && c2 == cur && o2 == ops);
        assert(c[cur].ops.skip(ops.len() as int) =~= extra);
        assert(run_seg(c, c[cur].ops.skip(ops.len() as int), c[cur].term, st, tf) == Some(out));
    } else {
        let rest = s.subrange(1, s.len() as int);
        lemma_gen_node_frame(s[0], blocks, cur, ops);
        let (b1, c1, o1) = gen_node(s[0], blocks, cur, ops);
        lemma_gen_nodes_frame(rest, b1, c1, o1);
        // the completion facts for the first node's own generation
        let extra1 = if c2 == c1 {
            o2.skip(o1.len() as int) + extra
        } else {
            c[c1].ops.skip(o1.len() as int)
        };
        assert(c[c1].ops == o1 + extra1) by {
            if c2 == c1 {
                assert(c[c1].ops == o2 + extra);
                assert(o2.subrange(0, o1.len() as int) == o1);
                assert(o2 + extra =~= o1 + (o2.skip(o1.len() as int) + extra));
            } else {
                assert(c2 != c1);
                if c1 == cur {
                    assert(c[cur] == b2[cur]);
                } else {
                    assert(blocks.len() <= c1 < b1.len());
                    assert(c[c1] == b2[c1]);
                }
                assert(b2[c1].ops.subrange(0, o1.len() as int) == o1);
                assert(c[c1].ops =~= o1 + c[c1].ops.skip(o1.len() as int));
            }
        }
        assert(forall|j: int| blocks.len() <= j < b1.len() && j != c1 ==> c[j] == b1[j]) by {
            assert forall|j: int|
                blocks.len() <= j < b1.len() && j != c1 implies c[j] == b1[j] by {
                assert(j != c2);
                assert(c[j] == b2[j]);
                assert(b2[j] == b1[j]);
            }
        }
        assert(cur != c1 ==> c[cur] == b1[cur]) by {
            if cur != c1 {
                assert(cur != c2);
                assert(c[cur] == b2[cur]);
                assert(b2[cur] == b1[cur]);
            }
        }
        match run_node(s[0], st, ifuel) {
            Ok(st1) => {
                assert(run_nodes(s, st, ifuel) == run_nodes(rest, st1, ifuel));
                lemma_sim_nodes(rest, b1, c1, o1, c, extra, st1, ifuel, tf, res);
                let bf2 = choose|bf: nat|
                    #[trigger] run_seg(c, c[c1].ops.skip(o1.len() as int), c[c1].term, st1, bf)
                        == Some(out);
                assert(c[c1].ops.skip(o1.len() as int) =~= extra1);
                lemma_sim_node(s[0], blocks, cur, ops, c, extra1, st, ifuel, bf2, out);
            },
            Err(e) => {
                assert(run_nodes(s, st, ifuel) == Err::<MachineState, _>(e));
                lemma_sim_node(s[0], blocks, cur, ops, c, extra1, st, ifuel, tf, out);
            },
        }
    }
}

proof fn lemma_gen_nodes_frame(s: Seq<Node>, blocks: Seq<BlockModel>, cur: int, ops: Seq<IrOp>)
    requires
        0 <= cur < blocks.len(),
        blocks.len() + 3 * loops_count(s) <= usize::MAX,
    ensures
        ({
            let (b2, c2, o2) = gen_nodes(s, blocks, cur, ops);
            &&& gen_frame(blocks, b2, cur, c2, ops, o2)
            &&& b2.len() == blocks.len() + 3 * loops_count(s)
        }),
    decreases s,
{
    if s.len() == 0 {
        assert(ops.subrange(0, ops.len() as int) =~= ops);
    } else {
        lemma_gen_node_frame(s[0], blocks, cur, ops);
        let (b1, c1, o1) = gen_node(s[0], blocks, cur, ops);
        lemma_gen_nodes_frame(s.subrange(1, s.len() as int), b1, c1, o1);
        let (b2, c2, o2) = gen_nodes(s.subrange(1, s.len() as int), b1, c1, o1);
        let fin1 = if c1 == cur {
            o1
        } else {
            b1[cur].ops
        };
        let fin2 = if c2 == cur {
            o2
        } else {
            b2[cur].ops
        };
        if c1 == cur {
            assert(fin2.subrange(0, ops.len() as int) =~= fin2.subrange(0, o1.len() as int)
                .subrange(0, ops.len() as int));
        } else {
            assert(c2 != cur);
            assert(b2[cur] == b1[cur]);
            assert(fin2 == fin1);
        }
    }
}


/// Running the module from a block's start is a segment run with that block's
/// operations pending.
proof fn lemma_module_from_is_seg(blocks: Seq<BlockModel>, b: int, st: MachineState, fuel: nat)
    requires
        0 <= b < blocks.len(),
    ensures
        run_module_from(blocks, b, st, fuel) == run_seg(
            blocks,
            blocks[b].ops,
            blocks[b].term,
            st,
            fuel,
        ),
    decreases fuel,
{
    if let Ok(st1) = run_ops(blocks[b].ops, st) {
        match blocks[b].term {
            Terminator::Return => {},
            Terminator::Jump { target } => {
                if fuel > 0 && (target as int) < blocks.len() {
                    lemma_module_from_is_seg(blocks, target as int, st1, (fuel - 1) as nat);
                }
            },
            Terminator::Branch { nonzero, zero } => {
                let nxt = if st1.tape[st1.head] != 0 {
                    nonzero
                } else {
                    zero
                };
                if fuel > 0 && (nxt as int) < blocks.len() {
                    lemma_module_from_is_seg(blocks, nxt as int, st1, (fuel - 1) as nat);
                }
            },
        }
    }
}

/// Law: the code generator is correct for every program, loops included.
/// Whenever the interpreter finishes a program — with its final state, or
/// with an input or head error — executing the generated module's block
/// graph from block zero finishes, under some transition budget, with
/// exactly the same state or error. (A run that spent the interpreter's
/// iteration budget decides nothing and is excluded; the budget never
/// changes a finished run's outcome.)
pub proof fn lemma_codegen_correct(prog: Seq<Node>, st: MachineState, ifuel: nat)
    requires
        1 + 3 * loops_count(prog) <= usize::MAX,
        run_nodes(prog, st, ifuel) != Err::<MachineState, _>(InterpError::OutOfFuel),
    ensures
        exists|bf: nat|
            #[trigger] run_module_from(module_spec(prog).blocks, 0, st, bf) == Some(
                run_nodes(prog, st, ifuel),
            ),
{
    let start = seq![open_block()];
    assert(start.len() == 1 && start[0] == open_block());
    lemma_gen_nodes_frame(prog, start, 0, Seq::empty());
    let (b2, c2, o2) = gen_nodes(prog, start, 0, Seq::empty());
    let c = b2.update(c2, BlockModel { ops: o2, term: Terminator::Return });
    assert(module_spec(prog).blocks == c);
    assert(c[c2].ops == o2 + Seq::<IrOp>::empty()) by {
        assert(o2 + Seq::<IrOp>::empty() =~= o2);
    }
    let r = run_nodes(prog, st, ifuel);
    if let Ok(st2) = r {
        assert(run_ops(Seq::<IrOp>::empty(), st2) == Ok::<_, InterpError>(st2));
        assert(run_seg(c, Seq::<IrOp>::empty(), Terminator::Return, st2, 0) == Some(
            Ok::<_, InterpError>(st2),
        ));
    }
    lemma_sim_nodes(prog, start, 0, Seq::empty(), c, Seq::empty(), st, ifuel, 0, r);
    let out = match r {
        Ok(_) => r,
        Err(e) => Err(e),
    };
    assert(out == r);
    assert(Seq::<IrOp>::empty().len() as int == 0);
    let bf = choose|bf: nat|
        #[trigger] run_seg(
            c,
            c[0].ops.skip(Seq::<IrOp>::empty().len() as int),
            c[0].term,
            st,
            bf,
        ) == Some(out);
    assert(c[0].ops.skip(0) =~= c[0].ops);
    lemma_module_from_is_seg(c, 0, st, bf);
    assert(run_module_from(c, 0, st, bf) == Some(r));
}

} // verus!
