//! The direct interpreter: executes an instruction tree immediately against
//! an in-memory tape and a movable head. Arithmetic wraps modulo 256; `Read`
//! takes the next byte of the given input, and exhausting the input is fatal;
//! `Write` appends the byte at the head to the output; a loop re-executes its
//! body for as long as the byte at the head is non-zero. Every verified
//! function must terminate, so execution carries an explicit iteration
//! budget: each re-entry into a loop body spends one unit, and spending the
//! budget before the program finishes is an error.

use crate::ast::{inst_view, insts_view, lemma_insts_view_index, lemma_insts_view_len, Instruction,
    Node};
use vstd::prelude::*;

verus! {

broadcast use vstd::std_specs::vec::group_vec_axioms;

/// Number of cells on the tape.
pub const TAPE_LEN: usize = 1024;

/// Where the head starts: the tape's center.
pub const HEAD_START: usize = 512;

/// Why execution stopped short of completing the program.
#[derive(Clone, Copy, PartialEq, Eq, Structural, Debug)]
pub enum InterpError {
    /// The input was exhausted before a `Read` obtained one byte.
    InputExhausted,
    /// The head was moved off either end of the tape.
    HeadOutOfRange,
    /// The iteration budget was spent before the program finished.
    OutOfFuel,
}

/// The mathematical state of the machine: the tape, the head, the input
/// stream with the position of its next unread byte, and the output so far.
#[verifier::ext_equal]
pub struct MachineState {
    pub tape: Seq<u8>,
    pub head: int,
    pub input: Seq<u8>,
    pub pos: int,
    pub output: Seq<u8>,
}

/// What one leaf instruction does to the machine.
pub open spec fn step_leaf(n: Node, st: MachineState) -> Result<MachineState, InterpError> {
    match n {
        Node::MoveRight => if st.head + 1 < TAPE_LEN as int {
            Ok(MachineState { head: st.head + 1, ..st })
        } else {
            Err(InterpError::HeadOutOfRange)
        },
        Node::MoveLeft => if st.head >= 1 {
            Ok(MachineState { head: st.head - 1, ..st })
        } else {
            Err(InterpError::HeadOutOfRange)
        },
        Node::Inc => Ok(
            MachineState {
                tape: st.tape.update(st.head, (((st.tape[st.head] + 1) % 256) as u8)),
                ..st
            },
        ),
        Node::Dec => Ok(
            MachineState {
                tape: st.tape.update(st.head, (((st.tape[st.head] + 255) % 256) as u8)),
                ..st
            },
        ),
        Node::Write => Ok(MachineState { output: st.output.push(st.tape[st.head]), ..st }),
        Node::Read => if st.pos < st.input.len() {
            Ok(
                MachineState {
                    tape: st.tape.update(st.head, st.input[st.pos]),
                    pos: st.pos + 1,
                    ..st
                },
            )
        } else {
            Err(InterpError::InputExhausted)
        },
        Node::Loop(_) => Ok(st),
    }
}

/// What executing one node does to the machine, given an iteration budget: a
/// loop whose cell is zero is a no-op, and otherwise each re-entry into its
/// body costs one unit of budget.
pub open spec fn run_node(n: Node, st: MachineState, fuel: nat) -> Result<
    MachineState,
    InterpError,
>
    decreases fuel, n,
{
    match n {
        Node::Loop(body) => if st.tape[st.head] == 0 {
            Ok(st)
        } else if fuel == 0 {
            Err(InterpError::OutOfFuel)
        } else {
            match run_nodes(body, st, fuel) {
                Ok(st2) => run_node(n, st2, (fuel - 1) as nat),
                Err(e) => Err(e),
            }
        },
        _ => step_leaf(n, st),
    }
}

/// What executing a sequence of nodes in order does to the machine.
pub open spec fn run_nodes(s: Seq<Node>, st: MachineState, fuel: nat) -> Result<
    MachineState,
    InterpError,
>
    decreases fuel, s,
{
    if s.len() == 0 {
        Ok(st)
    } else {
        match run_node(s[0], st, fuel) {
            Ok(st1) => run_nodes(s.subrange(1, s.len() as int), st1, fuel),
            Err(e) => Err(e),
        }
    }
}

/// The machine a program starts in: a zeroed tape, the head at the center,
/// nothing read, nothing written.
pub open spec fn init_state(input: Seq<u8>) -> MachineState {
    MachineState {
        tape: Seq::new(TAPE_LEN as nat, |i: int| 0u8),
        head: HEAD_START as int,
        input: input,
        pos: 0,
        output: Seq::empty(),
    }
}

/// The executable machine: an owned mutable tape, the head index, the input
/// with a cursor, and the output gathered so far.
#[derive(Debug)]
pub struct Machine {
    pub tape: Vec<u8>,
    pub head: usize,
    pub input: Vec<u8>,
    pub pos: usize,
    pub output: Vec<u8>,
}

impl View for Machine {
    type V = MachineState;

    open spec fn view(&self) -> MachineState {
        MachineState {
            tape: self.tape@,
            head: self.head as int,
            input: self.input@,
            pos: self.pos as int,
            output: self.output@,
        }
    }
}

impl Machine {
    /// The machine's internal invariant: the tape has its fixed length, the
    /// head is on it, and the cursor is within the input.
    pub open spec fn wf(&self) -> bool {
        &&& self.tape@.len() == TAPE_LEN
        &&& self.head < TAPE_LEN
        &&& self.pos <= self.input@.len()
    }
}

/// Execute the instructions in order against the machine, spending one unit
/// of `fuel` for each re-entry into a loop body.
#[verifier::loop_isolation(false)]
fn run_insts(insts: &Vec<Instruction>, m: &mut Machine, fuel: u64) -> (r: Result<
    (),
    InterpError,
>)
    requires
        old(m).wf(),
    ensures
        final(m).wf(),
        match r {
            Ok(_) => run_nodes(insts_view(insts@), old(m)@, fuel as nat) == Ok::<
                _,
                InterpError,
            >(final(m)@),
            Err(e) => run_nodes(insts_view(insts@), old(m)@, fuel as nat) == Err::<
                MachineState,
                _,
            >(e),
        },
    decreases fuel, insts,
{
    proof {
        lemma_insts_view_len(insts@);
    }
    let ghost nodes = insts_view(insts@);
    let n = insts.len();
    proof {
        assert(nodes.subrange(0, n as int) =~= nodes);
    }
    let mut j: usize = 0;
    while j < n
        invariant
            old(m).wf(),
            m.wf(),
            j <= n == insts@.len(),
            nodes == insts_view(insts@),
            nodes.len() == n,
            run_nodes(nodes, old(m)@, fuel as nat) == run_nodes(
                nodes.subrange(j as int, n as int),
                m@,
                fuel as nat,
            ),
        decreases n - j,
    {
        let ghost st_j = m@;
        let ghost sub_j = nodes.subrange(j as int, n as int);
        proof {
            lemma_insts_view_index(insts@, j as int);
            assert(sub_j[0] == inst_view(insts@[j as int]));
            assert(sub_j.subrange(1, sub_j.len() as int) =~= nodes.subrange(
                j as int + 1,
                n as int,
            ));
        }
        let ghost node_j = sub_j[0];
        let inst = &insts[j];
        match inst {
            Instruction::MoveRight => {
                if m.head + 1 < TAPE_LEN {
                    m.head = m.head + 1;
                    proof {
                        assert(m@ =~= MachineState { head: st_j.head + 1, ..st_j });
                    }
                } else {
                    proof {
                        assert(run_node(node_j, st_j, fuel as nat) == Err::<MachineState, _>(
                            InterpError::HeadOutOfRange,
                        ));
                    }
                    return Err(InterpError::HeadOutOfRange);
                }
            },
            Instruction::MoveLeft => {
                if m.head >= 1 {
                    m.head = m.head - 1;
                    proof {
                        assert(m@ =~= MachineState { head: st_j.head - 1, ..st_j });
                    }
                } else {
                    proof {
                        assert(run_node(node_j, st_j, fuel as nat) == Err::<MachineState, _>(
                            InterpError::HeadOutOfRange,
                        ));
                    }
                    return Err(InterpError::HeadOutOfRange);
                }
            },
            Instruction::Inc => {
                let h = m.head;
                let v = m.tape[h];
                let nv = if v == 255 {
                    0
                } else {
                    v + 1
                };
                m.tape[h] = nv;
                proof {
                    assert(nv == (((st_j.tape[st_j.head] + 1) % 256) as u8));
                    assert(m@ =~= MachineState {
                        tape: st_j.tape.update(
                            st_j.head,
                            (((st_j.tape[st_j.head] + 1) % 256) as u8),
                        ),
                        ..st_j
                    });
                }
            },
            Instruction::Dec => {
                let h = m.head;
                let v = m.tape[h];
                let nv = if v == 0 {
                    255
                } else {
                    v - 1
                };
                m.tape[h] = nv;
                proof {
                    assert(nv == (((st_j.tape[st_j.head] + 255) % 256) as u8));
                    assert(m@ =~= MachineState {
                        tape: st_j.tape.update(
                            st_j.head,
                            (((st_j.tape[st_j.head] + 255) % 256) as u8),
                        ),
                        ..st_j
                    });
                }
            },
            Instruction::Write => {
                let h = m.head;
                let b = m.tape[h];
                m.output.push(b);
                proof {
                    assert(m@ =~= MachineState {
                        output: st_j.output.push(st_j.tape[st_j.head]),
                        ..st_j
                    });
                }
            },
            Instruction::Read => {
                if m.pos < m.input.len() {
                    let h = m.head;
                    let b = m.input[m.pos];
                    m.tape[h] = b;
                    m.pos = m.pos + 1;
                    proof {
                        assert(m@ =~= MachineState {
                            tape: st_j.tape.update(st_j.head, st_j.input[st_j.pos]),
                            pos: st_j.pos + 1,
                            ..st_j
                        });
                    }
                } else {
                    proof {
                        assert(run_node(node_j, st_j, fuel as nat) == Err::<MachineState, _>(
                            InterpError::InputExhausted,
                        ));
                    }
                    return Err(InterpError::InputExhausted);
                }
            },
            Instruction::Loop(body) => {
                let ghost loop_node = node_j;
                proof {
                    assert(loop_node == Node::Loop(insts_view(body@)));
                }
                let ghost st0 = m@;
                let mut f = fuel;
                while m.tape[m.head] != 0
                    invariant
                        m.wf(),
                        f <= fuel,
                        run_node(loop_node, st0, fuel as nat) == run_node(
                            loop_node,
                            m@,
                            f as nat,
                        ),
                    decreases f,
                {
                    if f == 0 {
                        proof {
                            assert(run_node(loop_node, m@, 0) == Err::<MachineState, _>(
                                InterpError::OutOfFuel,
                            ));
                            assert(run_nodes(sub_j, st_j, fuel as nat) == Err::<MachineState, _>(
                                InterpError::OutOfFuel,
                            ));
                        }
                        return Err(InterpError::OutOfFuel);
                    }
                    let ghost st_pre = m@;
                    proof {
                        assert(decreases_to!(insts => insts@[j as int]));
                        assert(decreases_to!(insts@[j as int] => *body));
                    }
                    let res = run_insts(body, m, f);
                    match res {
                        Ok(_) => {
                            proof {
                                assert(run_node(loop_node, st_pre, f as nat) == run_node(
                                    loop_node,
                                    m@,
                                    (f - 1) as nat,
                                ));
                            }
                            f = f - 1;
                        },
                        Err(e) => {
                            proof {
                                assert(run_node(loop_node, st_pre, f as nat) == Err::<
                                    MachineState,
                                    _,
                                >(e));
                                assert(run_nodes(sub_j, st_j, fuel as nat) == Err::<
                                    MachineState,
                                    _,
                                >(e));
                            }
                            return Err(e);
                        },
                    }
                }
                proof {
                    assert(run_node(loop_node, m@, f as nat) == Ok::<_, InterpError>(m@));
                }
            },
        }
        proof {
            assert(run_node(node_j, st_j, fuel as nat) == Ok::<_, InterpError>(m@));
            assert(run_nodes(sub_j, st_j, fuel as nat) == run_nodes(
                nodes.subrange(j as int + 1, n as int),
                m@,
                fuel as nat,
            ));
        }
        j = j + 1;
    }
    proof {
        assert(nodes.subrange(n as int, n as int) =~= Seq::<Node>::empty());
    }
    Ok(())
}

/// Law: the iteration budget decides only whether execution finishes, never
/// what it computes: a run of one node that did not spend its budget returns
/// the same outcome under any larger budget.
pub proof fn lemma_run_node_fuel_monotone(n: Node, st: MachineState, f1: nat, f2: nat)
    requires
        f1 <= f2,
        run_node(n, st, f1) != Err::<MachineState, _>(InterpError::OutOfFuel),
    ensures
        run_node(n, st, f2) == run_node(n, st, f1),
    decreases f1, n,
{
    match n {
        Node::Loop(body) => {
            if st.tape[st.head] != 0 {
                match run_nodes(body, st, f1) {
                    Ok(st2) => {
                        lemma_run_nodes_fuel_monotone(body, st, f1, f2);
                        lemma_run_node_fuel_monotone(n, st2, (f1 - 1) as nat, (f2 - 1) as nat);
                    },
                    Err(_) => {
                        lemma_run_nodes_fuel_monotone(body, st, f1, f2);
                    },
                }
            }
        },
        _ => {},
    }
}

/// Law: as `lemma_run_node_fuel_monotone`, for a sequence of nodes.
pub proof fn lemma_run_nodes_fuel_monotone(s: Seq<Node>, st: MachineState, f1: nat, f2: nat)
    requires
        f1 <= f2,
        run_nodes(s, st, f1) != Err::<MachineState, _>(InterpError::OutOfFuel),
    ensures
        run_nodes(s, st, f2) == run_nodes(s, st, f1),
    decreases f1, s,
{
    if s.len() > 0 {
        match run_node(s[0], st, f1) {
            Ok(st1) => {
                lemma_run_node_fuel_monotone(s[0], st, f1, f2);
                lemma_run_nodes_fuel_monotone(s.subrange(1, s.len() as int), st1, f1, f2);
            },
            Err(_) => {
                lemma_run_node_fuel_monotone(s[0], st, f1, f2);
            },
        }
    }
}

/// Law: an `Inc` followed by a `Dec`, or a `Dec` followed by an `Inc`,
/// leaves the machine exactly as it was: adding and subtracting one with
/// 8-bit wraparound cancel at every cell value.
pub proof fn lemma_inc_dec_cancel(st: MachineState, fuel: nat)
    requires
        0 <= st.head < st.tape.len(),
    ensures
        run_nodes(seq![Node::Inc, Node::Dec], st, fuel) == Ok::<_, InterpError>(st),
        run_nodes(seq![Node::Dec, Node::Inc], st, fuel) == Ok::<_, InterpError>(st),
{
    let h = st.head;
    let v = st.tape[h];
    let up = (((v + 1) % 256) as u8);
    let down = (((v + 255) % 256) as u8);
    assert((((up + 255) % 256) as u8) == v);
    assert((((down + 1) % 256) as u8) == v);
    let st_up = MachineState { tape: st.tape.update(h, up), ..st };
    let st_down = MachineState { tape: st.tape.update(h, down), ..st };
    assert(st_up.tape.update(h, v) =~= st.tape);
    assert(st_down.tape.update(h, v) =~= st.tape);
    let inc_dec = seq![Node::Inc, Node::Dec];
    let dec_inc = seq![Node::Dec, Node::Inc];
    assert(inc_dec.subrange(1, 2) =~= seq![Node::Dec]);
    assert(dec_inc.subrange(1, 2) =~= seq![Node::Inc]);
    assert(seq![Node::Dec].subrange(1, 1) =~= Seq::<Node>::empty());
    assert(seq![Node::Inc].subrange(1, 1) =~= Seq::<Node>::empty());
    assert(step_leaf(Node::Inc, st) == Ok::<_, InterpError>(st_up));
    assert(step_leaf(Node::Dec, st) == Ok::<_, InterpError>(st_down));
    assert(st_up.tape[h] == up && st_down.tape[h] == down);
    assert(MachineState { tape: st_up.tape.update(h, v), ..st_up } =~= st);
    assert(step_leaf(Node::Dec, st_up) == Ok::<_, InterpError>(st));
    assert(MachineState { tape: st_down.tape.update(h, v), ..st_down } =~= st);
    assert(step_leaf(Node::Inc, st_down) == Ok::<_, InterpError>(st));
    assert(run_node(Node::Inc, st, fuel) == step_leaf(Node::Inc, st));
    assert(run_node(Node::Dec, st_up, fuel) == step_leaf(Node::Dec, st_up));
    assert(run_node(Node::Dec, st, fuel) == step_leaf(Node::Dec, st));
    assert(run_node(Node::Inc, st_down, fuel) == step_leaf(Node::Inc, st_down));
    assert(inc_dec[0] == Node::Inc && dec_inc[0] == Node::Dec);
    assert(seq![Node::Dec][0] == Node::Dec && seq![Node::Inc][0] == Node::Inc);
    assert(run_nodes(Seq::<Node>::empty(), st, fuel) == Ok::<_, InterpError>(st));
    assert(run_nodes(seq![Node::Dec], st_up, fuel) == Ok::<_, InterpError>(st));
    assert(run_nodes(inc_dec, st, fuel) == Ok::<_, InterpError>(st));
    assert(run_nodes(seq![Node::Inc], st_down, fuel) == Ok::<_, InterpError>(st));
    assert(run_nodes(dec_inc, st, fuel) == Ok::<_, InterpError>(st));
}

/// Execute the program against a fresh machine: a zeroed tape, the head at
/// the center, reading from `input`. `fuel` bounds how many times loop bodies
/// may be re-entered in all; spending it is an error, as is exhausting the
/// input on a `Read` or moving the head off the tape.
pub fn interpret(program: &Vec<Instruction>, input: Vec<u8>, fuel: u64) -> (r: Result<
    Machine,
    InterpError,
>)
    ensures
        match r {
            Ok(m) => m.wf() && run_nodes(insts_view(program@), init_state(input@), fuel as nat)
                == Ok::<_, InterpError>(m@),
            Err(e) => run_nodes(insts_view(program@), init_state(input@), fuel as nat) == Err::<
                MachineState,
                _,
            >(e),
        },
{
    let mut tape: Vec<u8> = Vec::new();
    let mut i: usize = 0;
    while i < TAPE_LEN
        invariant
            i <= TAPE_LEN,
            tape@.len() == i,
            forall|k: int| 0 <= k < i ==> tape@[k] == 0u8,
        decreases TAPE_LEN - i,
    {
        tape.push(0u8);
        i = i + 1;
    }
    let mut m = Machine { tape, head: HEAD_START, input, pos: 0, output: Vec::new() };
    proof {
        assert(m@.tape =~= init_state(m@.input).tape);
        assert(m@ == init_state(m@.input));
    }
    let r = run_insts(program, &mut m, fuel);
    match r {
        Ok(_) => Ok(m),
        Err(e) => Err(e),
    }
}

} // verus!
