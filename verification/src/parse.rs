//! Parsing: a single linear scan over the operation sequence that collapses
//! matched bracket pairs into nested `Loop` nodes. While no bracket is open,
//! non-bracket operations map directly to leaf instructions; an opening
//! bracket starts depth tracking, and when the depth returns to zero the
//! operations strictly between the pair are parsed recursively and wrapped in
//! a `Loop`. A closing bracket with no opener is a fatal structural error,
//! reported with its position. An opening bracket that is never closed
//! silently discards the opened body: none of the operations from the
//! unmatched opener onward become instructions, and no error is raised (the
//! truncation policy this crate keeps; see `parse_from`).

use crate::ast::{inst_view, insts_view, is_leaf_op, leaf_node, lemma_insts_view_push, node_depth,
    node_leaves, nodes_depth, nodes_leaves, Instruction, Node};
use crate::lexer::Operation;
use vstd::prelude::*;

verus! {

/// A structural parse error: a closing bracket with no matching opener, at
/// this position in the operation sequence handed to `parse`.
#[derive(Clone, Copy, PartialEq, Eq, Structural, Debug)]
pub struct ParseError {
    pub position: usize,
}

/// Where the bracket open just before `i` (with `depth` brackets open in all)
/// finds its matching close: the first index in `[i, to)` at which the depth
/// returns to zero, or `None` when the scan runs off the end of the range.
pub open spec fn find_close(ops: Seq<Operation>, i: int, to: int, depth: int) -> Option<int>
    decreases to - i,
{
    if i >= to {
        None::<int>
    } else {
        match ops[i] {
            Operation::LoopOpen => find_close(ops, i + 1, to, depth + 1),
            Operation::LoopClose => if depth == 1 {
                Some(i)
            } else {
                find_close(ops, i + 1, to, depth - 1)
            },
            _ => find_close(ops, i + 1, to, depth),
        }
    }
}

pub proof fn lemma_find_close_in_range(ops: Seq<Operation>, i: int, to: int, depth: int)
    requires
        find_close(ops, i, to, depth) is Some,
    ensures
        i <= find_close(ops, i, to, depth)->0 < to,
        ops[find_close(ops, i, to, depth)->0] == Operation::LoopClose,
    decreases to - i,
{
    if i < to {
        match ops[i] {
            Operation::LoopOpen => lemma_find_close_in_range(ops, i + 1, to, depth + 1),
            Operation::LoopClose => if depth != 1 {
                lemma_find_close_in_range(ops, i + 1, to, depth - 1);
            },
            _ => lemma_find_close_in_range(ops, i + 1, to, depth),
        }
    }
}

/// What parsing the operations in `ops[i..to)` yields: the sequence of
/// top-level instruction nodes, or the position of a closing bracket that has
/// no opener. An opening bracket whose close lies beyond the range yields the
/// instructions seen before it, and nothing after it: the opened body is
/// silently discarded.
pub open spec fn parse_from(ops: Seq<Operation>, i: int, to: int) -> Result<Seq<Node>, int>
    recommends
        0 <= i <= to <= ops.len(),
    decreases to - i,
        via parse_from_decreases
{
    if i >= to {
        Ok(Seq::empty())
    } else {
        match ops[i] {
            Operation::LoopClose => Err(i),
            Operation::LoopOpen => match find_close(ops, i + 1, to, 1) {
                None => Ok(Seq::empty()),
                Some(k) => match parse_from(ops, i + 1, k) {
                    Err(p) => Err(p),
                    Ok(body) => match parse_from(ops, k + 1, to) {
                        Err(p) => Err(p),
                        Ok(rest) => Ok(seq![Node::Loop(body)] + rest),
                    },
                },
            },
            op => match parse_from(ops, i + 1, to) {
                Err(p) => Err(p),
                Ok(rest) => Ok(seq![leaf_node(op)] + rest),
            },
        }
    }
}

#[via_fn]
proof fn parse_from_decreases(ops: Seq<Operation>, i: int, to: int) {
    if i < to && ops[i] == Operation::LoopOpen && find_close(ops, i + 1, to, 1) is Some {
        lemma_find_close_in_range(ops, i + 1, to, 1);
    }
}

/// A parse result with the given nodes put in front of it: errors pass
/// through unchanged.
pub open spec fn prepend(prefix: Seq<Node>, r: Result<Seq<Node>, int>) -> Result<
    Seq<Node>,
    int,
> {
    match r {
        Ok(rest) => Ok(prefix + rest),
        Err(p) => Err(p),
    }
}

/// The leaf instruction a non-bracket operation maps to.
fn leaf_instruction(op: Operation) -> (inst: Instruction)
    ensures
        inst_view(inst) == leaf_node(op),
{
    match op {
        Operation::MoveRight => Instruction::MoveRight,
        Operation::MoveLeft => Instruction::MoveLeft,
        Operation::Inc => Instruction::Inc,
        Operation::Dec => Instruction::Dec,
        Operation::Read => Instruction::Read,
        Operation::Write => Instruction::Write,
        _ => Instruction::MoveRight,
    }
}

/// Parse the operations in `ops[from..to)`.
fn parse_range(ops: &Vec<Operation>, from: usize, to: usize) -> (r: Result<
    Vec<Instruction>,
    ParseError,
>)
    requires
        from <= to <= ops@.len(),
    ensures
        match r {
            Ok(prog) => parse_from(ops@, from as int, to as int) == Ok::<_, int>(
                insts_view(prog@),
            ),
            Err(e) => parse_from(ops@, from as int, to as int) == Err::<Seq<Node>, int>(
                e.position as int,
            ),
        },
    decreases to - from,
{
    let ghost total = parse_from(ops@, from as int, to as int);
    let mut program: Vec<Instruction> = Vec::new();
    let mut depth: usize = 0;
    let mut loop_start: usize = from;
    let mut i: usize = from;
    while i < to
        invariant
            from <= i <= to <= ops@.len(),
            total == parse_from(ops@, from as int, to as int),
            depth == 0 ==> total == prepend(
                insts_view(program@),
                parse_from(ops@, i as int, to as int),
            ),
            depth > 0 ==> {
                &&& from <= loop_start < i
                &&& ops@[loop_start as int] == Operation::LoopOpen
                &&& depth <= i - loop_start
                &&& find_close(ops@, loop_start as int + 1, to as int, 1) == find_close(
                    ops@,
                    i as int,
                    to as int,
                    depth as int,
                )
                &&& total == prepend(
                    insts_view(program@),
                    parse_from(ops@, loop_start as int, to as int),
                )
            },
        decreases to - i,
    {
        let op = ops[i];
        if depth == 0 {
            match op {
                Operation::LoopOpen => {
                    loop_start = i;
                    depth = 1;
                },
                Operation::LoopClose => {
                    proof {
                        assert(parse_from(ops@, i as int, to as int) == Err::<Seq<Node>, int>(
                            i as int,
                        ));
                    }
                    return Err(ParseError { position: i });
                },
                _ => {
                    let ghost old_program = program@;
                    let inst = leaf_instruction(op);
                    program.push(inst);
                    proof {
                        lemma_insts_view_push(old_program, inst);
                        assert(insts_view(old_program).push(leaf_node(op)) =~= insts_view(
                            old_program,
                        ) + seq![leaf_node(op)]);
                        if let Ok(rest) = parse_from(ops@, i + 1, to as int) {
                            assert(parse_from(ops@, i as int, to as int) == Ok::<_, int>(
                                seq![leaf_node(op)] + rest,
                            ));
                            assert(insts_view(old_program) + (seq![leaf_node(op)] + rest) =~= (
                            insts_view(old_program) + seq![leaf_node(op)]) + rest);
                        }
                    }
                },
            }
        } else {
            match op {
                Operation::LoopOpen => {
                    depth = depth + 1;
                },
                Operation::LoopClose => {
                    if depth == 1 {
                        proof {
                            assert(find_close(ops@, i as int, to as int, 1int) == Some(i as int));
                        }
                        let body = parse_range(ops, loop_start + 1, i);
                        match body {
                            Ok(b) => {
                                let ghost old_program = program@;
                                let ghost body_view = insts_view(b@);
                                let inst = Instruction::Loop(b);
                                program.push(inst);
                                depth = 0;
                                proof {
                                    lemma_insts_view_push(old_program, inst);
                                    assert(inst_view(inst) == Node::Loop(body_view));
                                    assert(insts_view(old_program).push(Node::Loop(body_view))
                                        =~= insts_view(old_program) + seq![Node::Loop(body_view)]);
                                    if let Ok(rest) = parse_from(ops@, i + 1, to as int) {
                                        assert(parse_from(ops@, loop_start as int, to as int)
                                            == Ok::<_, int>(seq![Node::Loop(body_view)] + rest));
                                        assert(insts_view(old_program) + (seq![
                                            Node::Loop(body_view),
                                        ] + rest) =~= (insts_view(old_program) + seq![
                                            Node::Loop(body_view),
                                        ]) + rest);
                                    }
                                }
                            },
                            Err(e) => {
                                proof {
                                    assert(parse_from(ops@, loop_start as int, to as int)
                                        == Err::<Seq<Node>, int>(e.position as int));
                                }
                                return Err(e);
                            },
                        }
                    } else {
                        depth = depth - 1;
                    }
                },
                _ => {},
            }
        }
        i = i + 1;
    }
    proof {
        assert(parse_from(ops@, to as int, to as int) == Ok::<_, int>(Seq::<Node>::empty()));
        if depth > 0 {
            assert(find_close(ops@, to as int, to as int, depth as int) is None);
            assert(parse_from(ops@, loop_start as int, to as int) == Ok::<_, int>(
                Seq::<Node>::empty(),
            ));
        }
        assert(insts_view(program@) + Seq::<Node>::empty() =~= insts_view(program@));
    }
    Ok(program)
}

/// What a bracket contributes to the running balance.
pub open spec fn bracket_delta(op: Operation) -> int {
    match op {
        Operation::LoopOpen => 1,
        Operation::LoopClose => -1,
        _ => 0,
    }
}

/// The bracket balance of `ops[from..k)`: opens minus closes.
pub open spec fn balance(ops: Seq<Operation>, from: int, k: int) -> int
    decreases k - from,
{
    if k <= from {
        0
    } else {
        balance(ops, from, k - 1) + bracket_delta(ops[k - 1])
    }
}

/// Every closing bracket in `ops[from..to)` has an opener before it: when the
/// close is reached, more brackets have opened than closed.
pub open spec fn closes_matched(ops: Seq<Operation>, from: int, to: int) -> bool {
    forall|k: int| from <= k < to && ops[k] == Operation::LoopClose ==> balance(ops, from, k) >= 1
}

/// A well-formed bracket range: every open has a matching close appearing
/// later, every close an earlier open, with valid nesting.
pub open spec fn well_formed(ops: Seq<Operation>, from: int, to: int) -> bool {
    &&& balance(ops, from, to) == 0
    &&& forall|k: int| from <= k <= to ==> balance(ops, from, k) >= 0
}

/// Balances add across a split point.
pub proof fn lemma_balance_split(ops: Seq<Operation>, from: int, mid: int, k: int)
    requires
        from <= mid <= k,
    ensures
        balance(ops, from, k) == balance(ops, from, mid) + balance(ops, mid, k),
    decreases k - mid,
{
    if k > mid {
        lemma_balance_split(ops, from, mid, k - 1);
    }
}

/// What `find_close` says about the balance: a hit is the first place the
/// scanning depth returns to zero, and a miss means it never does.
proof fn lemma_find_close_props(ops: Seq<Operation>, i: int, to: int, d: int)
    requires
        1 <= d,
        i <= to,
    ensures
        match find_close(ops, i, to, d) {
            Some(k) => {
                &&& i <= k < to
                &&& ops[k] == Operation::LoopClose
                &&& d + balance(ops, i, k) == 1
                &&& forall|m: int| i <= m <= k ==> d + balance(ops, i, m) >= 1
            },
            None => forall|m: int| i <= m <= to ==> d + balance(ops, i, m) >= 1,
        },
    decreases to - i,
{
    if i < to {
        let d2 = d + bracket_delta(ops[i]);
        if !(ops[i] == Operation::LoopClose && d == 1) {
            assert(d2 >= 1);
            lemma_find_close_props(ops, i + 1, to, d2);
            assert(forall|m: int|
                i + 1 <= m ==> #[trigger] balance(ops, i, m) == bracket_delta(ops[i]) + balance(
                    ops,
                    i + 1,
                    m,
                )) by {
                assert forall|m: int| i + 1 <= m implies #[trigger] balance(ops, i, m)
                    == bracket_delta(ops[i]) + balance(ops, i + 1, m) by {
                    lemma_balance_split(ops, i, i + 1, m);
                    assert(balance(ops, i, i + 1) == balance(ops, i, i) + bracket_delta(ops[i]));
                }
            }
            match find_close(ops, i + 1, to, d2) {
                Some(k) => {
                    assert(find_close(ops, i, to, d) == Some(k));
                    assert forall|m: int| i <= m <= k implies d + balance(ops, i, m) >= 1 by {
                        if m > i {
                            assert(d2 + balance(ops, i + 1, m) >= 1);
                        }
                    }
                },
                None => {
                    assert forall|m: int| i <= m <= to implies d + balance(ops, i, m) >= 1 by {
                        if m > i {
                            assert(d2 + balance(ops, i + 1, m) >= 1);
                        }
                    }
                },
            }
        }
    }
}

/// Law: parsing a range succeeds exactly when every closing bracket in it has
/// an opener; when it fails, the reported position is the first close that
/// has none, where the balance has fallen to zero.
pub proof fn lemma_parse_success(ops: Seq<Operation>, from: int, to: int)
    requires
        0 <= from <= to <= ops.len(),
    ensures
        parse_from(ops, from, to) is Ok <==> closes_matched(ops, from, to),
        match parse_from(ops, from, to) {
            Err(p) => from <= p < to && ops[p] == Operation::LoopClose && balance(ops, from, p)
                == 0 && closes_matched(ops, from, p),
            Ok(_) => true,
        },
    decreases to - from,
{
    if from < to {
        match ops[from] {
            Operation::LoopClose => {
                assert(balance(ops, from, from) == 0);
                assert(!closes_matched(ops, from, to));
            },
            Operation::LoopOpen => {
                lemma_find_close_props(ops, from + 1, to, 1);
                assert(forall|m: int|
                    from + 1 <= m ==> #[trigger] balance(ops, from, m) == 1 + balance(
                        ops,
                        from + 1,
                        m,
                    )) by {
                    assert forall|m: int| from + 1 <= m implies #[trigger] balance(ops, from, m)
                        == 1 + balance(ops, from + 1, m) by {
                        lemma_balance_split(ops, from, from + 1, m);
                        assert(balance(ops, from, from + 1) == balance(ops, from, from)
                            + bracket_delta(ops[from]));
                    }
                }
                match find_close(ops, from + 1, to, 1) {
                    None => {
                        assert(closes_matched(ops, from, to)) by {
                            assert forall|k: int|
                                from <= k < to && ops[k]
                                    == Operation::LoopClose implies balance(ops, from, k)
                                >= 1 by {
                                assert(1 + balance(ops, from + 1, k) >= 1);
                            }
                        }
                    },
                    Some(k) => {
                        lemma_parse_success(ops, from + 1, k);
                        assert(closes_matched(ops, from + 1, k)) by {
                            assert forall|m: int|
                                from + 1 <= m < k && ops[m]
                                    == Operation::LoopClose implies balance(ops, from + 1, m)
                                >= 1 by {
                                assert(1 + balance(ops, from + 1, m + 1) >= 1);
                                lemma_balance_split(ops, from + 1, m, m + 1);
                            }
                        }
                        assert(parse_from(ops, from + 1, k) is Ok);
                        lemma_parse_success(ops, k + 1, to);
                        assert(balance(ops, from + 1, k + 1) == -1) by {
                            lemma_balance_split(ops, from + 1, k, k + 1);
                        }
                        assert(balance(ops, from, k + 1) == 0);
                        assert(forall|m: int|
                            k + 1 <= m ==> #[trigger] balance(ops, from, m) == balance(
                                ops,
                                k + 1,
                                m,
                            )) by {
                            assert forall|m: int| k + 1 <= m implies #[trigger] balance(
                                ops,
                                from,
                                m,
                            ) == balance(ops, k + 1, m) by {
                                lemma_balance_split(ops, from, k + 1, m);
                            }
                        }
                        assert(closes_matched(ops, k + 1, to) ==> closes_matched(ops, from, to))
                            by {
                            if closes_matched(ops, k + 1, to) {
                                assert forall|m: int|
                                    from <= m < to && ops[m]
                                        == Operation::LoopClose implies balance(ops, from, m)
                                    >= 1 by {
                                    if m < k {
                                        assert(balance(ops, from + 1, m) >= 1);
                                    } else if m == k {
                                        assert(balance(ops, from, k) == 1 + balance(
                                            ops,
                                            from + 1,
                                            k,
                                        ));
                                    } else {
                                        assert(balance(ops, k + 1, m) >= 1);
                                    }
                                }
                            }
                        }
                        assert(closes_matched(ops, from, to) ==> closes_matched(ops, k + 1, to))
                            by {
                            if closes_matched(ops, from, to) {
                                assert forall|m: int|
                                    k + 1 <= m < to && ops[m]
                                        == Operation::LoopClose implies balance(ops, k + 1, m)
                                    >= 1 by {
                                    assert(balance(ops, from, m) >= 1);
                                }
                            }
                        }
                        if let Err(p) = parse_from(ops, k + 1, to) {
                            assert(closes_matched(ops, from, p)) by {
                                assert forall|m: int|
                                    from <= m < p && ops[m]
                                        == Operation::LoopClose implies balance(ops, from, m)
                                    >= 1 by {
                                    if m < k {
                                        assert(balance(ops, from + 1, m) >= 1);
                                    } else if m == k {
                                    } else {
                                        assert(balance(ops, k + 1, m) >= 1);
                                    }
                                }
                            }
                        }
                    },
                }
            },
            _ => {
                lemma_parse_success(ops, from + 1, to);
                assert(forall|m: int|
                    from + 1 <= m ==> #[trigger] balance(ops, from, m) == balance(
                        ops,
                        from + 1,
                        m,
                    )) by {
                    assert forall|m: int| from + 1 <= m implies #[trigger] balance(ops, from, m)
                        == balance(ops, from + 1, m) by {
                        lemma_balance_split(ops, from, from + 1, m);
                        assert(balance(ops, from, from + 1) == balance(ops, from, from)
                            + bracket_delta(ops[from]));
                    }
                }
                assert(closes_matched(ops, from, to) <==> closes_matched(ops, from + 1, to)) by {
                    if closes_matched(ops, from + 1, to) {
                        assert forall|m: int|
                            from <= m < to && ops[m] == Operation::LoopClose implies balance(
                            ops,
                            from,
                            m,
                        ) >= 1 by {
                            assert(m > from);
                            assert(balance(ops, from + 1, m) >= 1);
                        }
                    }
                    if closes_matched(ops, from, to) {
                        assert forall|m: int|
                            from + 1 <= m < to && ops[m] == Operation::LoopClose implies balance(
                            ops,
                            from + 1,
                            m,
                        ) >= 1 by {
                            assert(balance(ops, from, m) >= 1);
                        }
                    }
                }
                if let Err(p) = parse_from(ops, from + 1, to) {
                    assert(closes_matched(ops, from, p)) by {
                        assert forall|m: int|
                            from <= m < p && ops[m] == Operation::LoopClose implies balance(
                            ops,
                            from,
                            m,
                        ) >= 1 by {
                            assert(m > from);
                            assert(balance(ops, from + 1, m) >= 1);
                        }
                    }
                }
            },
        }
    }
}

/// Number of non-bracket operations in `ops[from..to)`.
pub open spec fn leaf_op_count(ops: Seq<Operation>, from: int, to: int) -> int
    decreases to - from,
{
    if to <= from {
        0
    } else {
        leaf_op_count(ops, from, to - 1) + if is_leaf_op(ops[to - 1]) {
            1int
        } else {
            0int
        }
    }
}

/// Leaf counts add across a split point.
pub proof fn lemma_leaf_count_split(ops: Seq<Operation>, from: int, mid: int, k: int)
    requires
        from <= mid <= k,
    ensures
        leaf_op_count(ops, from, k) == leaf_op_count(ops, from, mid) + leaf_op_count(ops, mid, k),
    decreases k - mid,
{
    if k > mid {
        lemma_leaf_count_split(ops, from, mid, k - 1);
    }
}

/// The bracket nesting depth of `ops[from..to)`: the greatest balance any
/// prefix of the range reaches.
pub open spec fn max_balance(ops: Seq<Operation>, from: int, to: int) -> int
    decreases to - from,
{
    if to <= from {
        0
    } else {
        let m = max_balance(ops, from, to - 1);
        let b = balance(ops, from, to);
        if b > m {
            b
        } else {
            m
        }
    }
}

/// The greatest prefix balance bounds every prefix balance and is itself one.
proof fn lemma_max_balance_props(ops: Seq<Operation>, from: int, to: int)
    requires
        from <= to,
    ensures
        forall|m: int| from <= m <= to ==> balance(ops, from, m) <= max_balance(ops, from, to),
        exists|m: int|
            from <= m <= to && #[trigger] balance(ops, from, m) == max_balance(ops, from, to),
    decreases to - from,
{
    if to == from {
        assert(balance(ops, from, from) == 0 && max_balance(ops, from, to) == 0);
        assert(from <= from <= to && balance(ops, from, from) == max_balance(ops, from, to));
    } else {
        lemma_max_balance_props(ops, from, to - 1);
        if balance(ops, from, to) > max_balance(ops, from, to - 1) {
            assert(from <= to <= to && balance(ops, from, to) == max_balance(ops, from, to));
        } else {
            let w = choose|m: int|
                from <= m <= to - 1 && #[trigger] balance(ops, from, m) == max_balance(
                    ops,
                    from,
                    to - 1,
                );
            assert(from <= w <= to && balance(ops, from, w) == max_balance(ops, from, to));
        }
    }
}

/// Law: on a well-formed bracket range parsing succeeds, the tree's leaf
/// count is the number of non-bracket operations, and the tree's nesting
/// depth is the bracket nesting depth of the range.
pub proof fn lemma_parse_well_formed(ops: Seq<Operation>, from: int, to: int)
    requires
        0 <= from <= to <= ops.len(),
        well_formed(ops, from, to),
    ensures
        parse_from(ops, from, to) is Ok,
        nodes_leaves(parse_from(ops, from, to)->Ok_0) == leaf_op_count(ops, from, to),
        nodes_depth(parse_from(ops, from, to)->Ok_0) == max_balance(ops, from, to),
    decreases to - from,
{
    lemma_max_balance_props(ops, from, to);
    if from == to {
        assert(nodes_leaves(Seq::<Node>::empty()) == 0);
        assert(nodes_depth(Seq::<Node>::empty()) == 0);
        assert(max_balance(ops, from, to) == 0);
    } else {
        assert(forall|m: int|
            from + 1 <= m ==> #[trigger] balance(ops, from, m) == bracket_delta(ops[from])
                + balance(ops, from + 1, m)) by {
            assert forall|m: int| from + 1 <= m implies #[trigger] balance(ops, from, m)
                == bracket_delta(ops[from]) + balance(ops, from + 1, m) by {
                lemma_balance_split(ops, from, from + 1, m);
                assert(balance(ops, from, from + 1) == balance(ops, from, from) + bracket_delta(
                    ops[from],
                ));
            }
        }
        match ops[from] {
            Operation::LoopClose => {
                assert(balance(ops, from, from + 1) == -1);
                assert(false);
            },
            Operation::LoopOpen => {
                lemma_find_close_props(ops, from + 1, to, 1);
                if find_close(ops, from + 1, to, 1) is None {
                    assert(1 + balance(ops, from + 1, to) >= 1);
                    assert(balance(ops, from, to) >= 1);
                    assert(false);
                }
                let k = find_close(ops, from + 1, to, 1)->0;
                assert(balance(ops, from + 1, k) == 0);
                assert(balance(ops, from + 1, k + 1) == -1) by {
                    lemma_balance_split(ops, from + 1, k, k + 1);
                }
                assert(balance(ops, from, k + 1) == 0);
                assert(forall|m: int|
                    k + 1 <= m ==> #[trigger] balance(ops, from, m) == balance(ops, k + 1, m))
                    by {
                    assert forall|m: int| k + 1 <= m implies #[trigger] balance(ops, from, m)
                        == balance(ops, k + 1, m) by {
                        lemma_balance_split(ops, from, k + 1, m);
                    }
                }
                assert(well_formed(ops, from + 1, k)) by {
                    assert(forall|m: int|
                        from + 1 <= m <= k ==> 1 + #[trigger] balance(ops, from + 1, m) >= 1);
                }
                assert(well_formed(ops, k + 1, to)) by {
                    assert forall|m: int| k + 1 <= m <= to implies #[trigger] balance(
                        ops,
                        k + 1,
                        m,
                    ) >= 0 by {
                        assert(balance(ops, from, m) >= 0);
                    }
                    assert(balance(ops, k + 1, to) == balance(ops, from, to));
                }
                lemma_parse_well_formed(ops, from + 1, k);
                lemma_parse_well_formed(ops, k + 1, to);
                let body = parse_from(ops, from + 1, k)->Ok_0;
                let rest = parse_from(ops, k + 1, to)->Ok_0;
                let result = seq![Node::Loop(body)] + rest;
                assert(parse_from(ops, from, to) == Ok::<_, int>(result));
                assert(result[0] == Node::Loop(body));
                assert(result.subrange(1, result.len() as int) =~= rest);
                // leaf count
                assert(nodes_leaves(result) == node_leaves(Node::Loop(body)) + nodes_leaves(rest));
                lemma_leaf_count_split(ops, from, from + 1, k + 1);
                lemma_leaf_count_split(ops, from + 1, k, k + 1);
                lemma_leaf_count_split(ops, from, k + 1, to);
                assert(leaf_op_count(ops, from, from) == 0 && leaf_op_count(ops, k, k) == 0);
                assert(leaf_op_count(ops, from, from + 1) == 0);
                assert(leaf_op_count(ops, k, k + 1) == 0);
                // nesting depth
                let d0 = node_depth(Node::Loop(body));
                let dr = nodes_depth(rest);
                assert(d0 == 1 + max_balance(ops, from + 1, k));
                assert(dr == max_balance(ops, k + 1, to));
                assert(nodes_depth(result) == if d0 >= dr {
                    d0
                } else {
                    dr
                });
                lemma_max_balance_props(ops, from + 1, k);
                lemma_max_balance_props(ops, k + 1, to);
                let big = if d0 >= dr {
                    d0 as int
                } else {
                    dr as int
                };
                assert forall|m: int| from <= m <= to implies balance(ops, from, m) <= big by {
                    if m == from {
                        assert(balance(ops, from + 1, from + 1) <= max_balance(ops, from + 1, k));
                    } else if m <= k {
                        assert(balance(ops, from + 1, m) <= max_balance(ops, from + 1, k));
                    } else if m == k + 1 {
                        assert(balance(ops, from + 1, from + 1) <= max_balance(ops, from + 1, k));
                    } else {
                        assert(balance(ops, k + 1, m) <= max_balance(ops, k + 1, to));
                    }
                }
                let w1 = choose|m: int|
                    from + 1 <= m <= k && #[trigger] balance(ops, from + 1, m) == max_balance(
                        ops,
                        from + 1,
                        k,
                    );
                let w2 = choose|m: int|
                    k + 1 <= m <= to && #[trigger] balance(ops, k + 1, m) == max_balance(
                        ops,
                        k + 1,
                        to,
                    );
                assert(balance(ops, from, w1) == d0);
                assert(balance(ops, from, w2) == dr);
                assert(balance(ops, from, w1) <= max_balance(ops, from, to));
                assert(balance(ops, from, w2) <= max_balance(ops, from, to));
                let wm = choose|m: int|
                    from <= m <= to && #[trigger] balance(ops, from, m) == max_balance(
                        ops,
                        from,
                        to,
                    );
                assert(balance(ops, from, wm) <= big);
                assert(nodes_depth(result) == max_balance(ops, from, to));
            },
            _ => {
                assert(well_formed(ops, from + 1, to)) by {
                    assert forall|m: int| from + 1 <= m <= to implies #[trigger] balance(
                        ops,
                        from + 1,
                        m,
                    ) >= 0 by {
                        assert(balance(ops, from, m) >= 0);
                    }
                    assert(balance(ops, from + 1, to) == balance(ops, from, to));
                }
                lemma_parse_well_formed(ops, from + 1, to);
                let rest = parse_from(ops, from + 1, to)->Ok_0;
                let result = seq![leaf_node(ops[from])] + rest;
                assert(parse_from(ops, from, to) == Ok::<_, int>(result));
                assert(result[0] == leaf_node(ops[from]));
                assert(result.subrange(1, result.len() as int) =~= rest);
                // leaf count
                assert(node_leaves(leaf_node(ops[from])) == 1);
                assert(nodes_leaves(result) == 1 + nodes_leaves(rest));
                lemma_leaf_count_split(ops, from, from + 1, to);
                assert(leaf_op_count(ops, from, from) == 0);
                assert(leaf_op_count(ops, from, from + 1) == 1);
                // nesting depth
                assert(node_depth(leaf_node(ops[from])) == 0);
                assert(nodes_depth(result) == nodes_depth(rest));
                lemma_max_balance_props(ops, from + 1, to);
                assert forall|m: int| from <= m <= to implies balance(ops, from, m)
                    <= max_balance(ops, from + 1, to) by {
                    if m == from {
                        assert(balance(ops, from + 1, from + 1) <= max_balance(ops, from + 1, to));
                    } else {
                        assert(balance(ops, from + 1, m) <= max_balance(ops, from + 1, to));
                    }
                }
                let w1 = choose|m: int|
                    from + 1 <= m <= to && #[trigger] balance(ops, from + 1, m) == max_balance(
                        ops,
                        from + 1,
                        to,
                    );
                assert(balance(ops, from, w1) == max_balance(ops, from + 1, to));
                assert(balance(ops, from, w1) <= max_balance(ops, from, to));
                let wm = choose|m: int|
                    from <= m <= to && #[trigger] balance(ops, from, m) == max_balance(
                        ops,
                        from,
                        to,
                    );
                assert(balance(ops, from, wm) <= max_balance(ops, from + 1, to));
                assert(nodes_depth(result) == max_balance(ops, from, to));
            },
        }
    }
}

/// Convert an ordered operation sequence into the ordered sequence of
/// top-level instructions, with loop nodes fully resolved. A closing bracket
/// with no matching opener is a fatal structural error carrying its position;
/// an opening bracket with no close silently discards the opened body.
pub fn parse(opcodes: Vec<Operation>) -> (r: Result<Vec<Instruction>, ParseError>)
    ensures
        match r {
            Ok(prog) => parse_from(opcodes@, 0, opcodes@.len() as int) == Ok::<_, int>(
                insts_view(prog@),
            ),
            Err(e) => parse_from(opcodes@, 0, opcodes@.len() as int) == Err::<Seq<Node>, int>(
                e.position as int,
            ),
        },
{
    let n = opcodes.len();
    parse_range(&opcodes, 0, n)
}

} // verus!
