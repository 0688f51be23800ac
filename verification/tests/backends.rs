//! Both backends side by side: execute the generated block module with a
//! plain walker and compare its tape, head and output with the direct
//! interpreter's on the same program and input.

use bfc::codegen::generate;
use bfc::interp::{interpret, HEAD_START, TAPE_LEN};
use bfc::ir::{IrOp, Module, Terminator};
use bfc::lexer::lex;
use bfc::parse::parse;

struct Walked {
    tape: Vec<u8>,
    head: usize,
    output: Vec<u8>,
}

/// Execute the module's block graph: start at block zero with the head at
/// `start`, run each block's operations, follow its terminator, stop at the
/// return.
fn walk(m: &Module, start: usize, input: &[u8]) -> Walked {
    let mut tape = vec![0u8; m.tape_len];
    let mut head = start;
    let mut pos = 0usize;
    let mut output = Vec::new();
    let mut block = 0usize;
    loop {
        let b = &m.blocks[block];
        for op in &b.ops {
            match op {
                IrOp::HeadRight => head += 1,
                IrOp::HeadLeft => head -= 1,
                IrOp::CellInc => tape[head] = tape[head].wrapping_add(1),
                IrOp::CellDec => tape[head] = tape[head].wrapping_sub(1),
                IrOp::CallGetchar => {
                    tape[head] = input[pos];
                    pos += 1;
                }
                IrOp::CallPutchar => output.push(tape[head]),
            }
        }
        match b.term {
            Terminator::Return => return Walked { tape, head, output },
            Terminator::Jump { target } => block = target,
            Terminator::Branch { nonzero, zero } => {
                block = if tape[head] != 0 { nonzero } else { zero };
            }
        }
    }
}

fn agree(source: &str, input: Vec<u8>) {
    let program = parse(lex(source)).expect("program must parse");
    let m = interpret(&program, input.clone(), 1 << 20).expect("interpreter must finish");
    let module = generate(&program);
    // start the walker where the interpreter starts, so the tapes line up
    let w = walk(&module, HEAD_START, &input);
    assert_eq!(w.tape, m.tape);
    assert_eq!(w.head, m.head);
    assert_eq!(w.output, m.output);
}

#[test]
fn backends_agree_on_arithmetic_and_moves() {
    agree("+>++>+++<<-", vec![]);
    agree("+-", vec![]);
    agree("-+", vec![]);
    agree("", vec![]);
}

#[test]
fn backends_agree_on_loops() {
    agree("+++[->+<]", vec![]);
    agree("[[+]]", vec![]);
    agree("++++++++[>++++[>++>+++>+++>+<<<<-]>+>+>->>+[<]<-]>>.>---.+++++++..+++.", vec![]);
}

#[test]
fn backends_agree_on_io() {
    agree(",.", vec![65]);
    agree(",>,<.>.", vec![7, 9]);
}

#[test]
fn module_walk_of_greeting_prints_hello() {
    let program = parse(lex(
        "++++++++[>++++[>++>+++>+++>+<<<<-]>+>+>->>+[<]<-]>>.>---.+++++++..+++.",
    ))
    .unwrap();
    let module = generate(&program);
    assert_eq!(HEAD_START, TAPE_LEN / 2);
    let w = walk(&module, HEAD_START, &[]);
    assert_eq!(w.output, b"Hello".to_vec());
}
