use bfc::ast::Instruction;
use bfc::codegen::generate;
use bfc::interp::{interpret, InterpError, HEAD_START, TAPE_LEN};
use bfc::ir::{IrOp, Terminator};
use bfc::lexer::{lex, Operation};
use bfc::parse::parse;

const FUEL: u64 = 1 << 20;

fn run(source: &str, input: Vec<u8>) -> Result<bfc::interp::Machine, InterpError> {
    let program = parse(lex(source)).expect("program must parse");
    interpret(&program, input, FUEL)
}

#[test]
fn lex_keeps_all_eight_symbols_in_order() {
    let ops = lex("><+-,.[]");
    assert_eq!(
        ops,
        vec![
            Operation::MoveRight,
            Operation::MoveLeft,
            Operation::Inc,
            Operation::Dec,
            Operation::Read,
            Operation::Write,
            Operation::LoopOpen,
            Operation::LoopClose,
        ]
    );
}

#[test]
fn lex_drops_comment_text() {
    let ops = lex("say + hello - to the [world]!");
    assert_eq!(
        ops,
        vec![
            Operation::Inc,
            Operation::Dec,
            Operation::LoopOpen,
            Operation::LoopClose,
        ]
    );
    assert!(ops.len() <= "say + hello - to the [world]!".len());
}

#[test]
fn lex_of_pure_comment_is_empty() {
    assert_eq!(lex("no symbols here"), vec![]);
    assert_eq!(lex(""), vec![]);
}

#[test]
fn parse_maps_leaves_in_order() {
    let prog = parse(lex("+-><.,")).unwrap();
    assert_eq!(
        prog,
        vec![
            Instruction::Inc,
            Instruction::Dec,
            Instruction::MoveRight,
            Instruction::MoveLeft,
            Instruction::Write,
            Instruction::Read,
        ]
    );
}

#[test]
fn parse_empty_loop_is_loop_with_zero_children() {
    let prog = parse(lex("[]")).unwrap();
    assert_eq!(prog, vec![Instruction::Loop(vec![])]);
}

#[test]
fn parse_nested_loops() {
    let prog = parse(lex("+[>[-]<]")).unwrap();
    assert_eq!(
        prog,
        vec![
            Instruction::Inc,
            Instruction::Loop(vec![
                Instruction::MoveRight,
                Instruction::Loop(vec![Instruction::Dec]),
                Instruction::MoveLeft,
            ]),
        ]
    );
}

#[test]
fn parse_lone_close_is_fatal_at_position_zero() {
    let err = parse(lex("]")).unwrap_err();
    assert_eq!(err.position, 0);
}

#[test]
fn parse_close_after_leaves_reports_its_position() {
    let err = parse(lex("+->]")).unwrap_err();
    assert_eq!(err.position, 3);
}

#[test]
fn parse_close_after_matched_pair_reports_its_position() {
    let err = parse(lex("[]]")).unwrap_err();
    assert_eq!(err.position, 2);
}

#[test]
fn parse_lone_open_silently_discards_the_loop_body() {
    // The unmatched opener and everything after it vanish: zero instructions.
    let prog = parse(lex("[")).unwrap();
    assert_eq!(prog, vec![]);
    let prog = parse(lex("[+++>")).unwrap();
    assert_eq!(prog, vec![]);
    // Instructions before the unmatched opener survive.
    let prog = parse(lex("+[+++")).unwrap();
    assert_eq!(prog, vec![Instruction::Inc]);
}

#[test]
fn interpret_greeting_program_prints_hello() {
    let source = "++++++++[>++++[>++>+++>+++>+<<<<-]>+>+>->>+[<]<-]>>.>---.+++++++..+++.";
    let m = run(source, vec![]).unwrap();
    assert_eq!(m.output, b"Hello".to_vec());
}

#[test]
fn interpret_echo_one_byte() {
    let m = run(",.", vec![65]).unwrap();
    assert_eq!(m.output, vec![65]);
}

#[test]
fn interpret_inc_dec_leaves_cell_unchanged() {
    let m = run("+-", vec![]).unwrap();
    assert_eq!(m.tape, vec![0u8; TAPE_LEN]);
    assert_eq!(m.head, HEAD_START);
    assert_eq!(m.output, vec![]);
    let m = run("-+", vec![]).unwrap();
    assert_eq!(m.tape, vec![0u8; TAPE_LEN]);
}

#[test]
fn interpret_wraps_cell_arithmetic_modulo_256() {
    let m = run("-.", vec![]).unwrap();
    assert_eq!(m.output, vec![255]);
}

#[test]
fn interpret_moves_head_and_writes_cells() {
    let m = run("+>++>+++", vec![]).unwrap();
    assert_eq!(m.tape[HEAD_START], 1);
    assert_eq!(m.tape[HEAD_START + 1], 2);
    assert_eq!(m.tape[HEAD_START + 2], 3);
    assert_eq!(m.head, HEAD_START + 2);
}

#[test]
fn interpret_loop_runs_until_cell_is_zero() {
    // put 3 in the cell, then count it down while bumping the next cell
    let m = run("+++[->+<]>.", vec![]).unwrap();
    assert_eq!(m.output, vec![3]);
    assert_eq!(m.tape[HEAD_START], 0);
}

#[test]
fn interpret_read_past_end_of_input_is_fatal() {
    let err = run(",", vec![]).unwrap_err();
    assert_eq!(err, InterpError::InputExhausted);
    let err = run(",,", vec![65]).unwrap_err();
    assert_eq!(err, InterpError::InputExhausted);
}

#[test]
fn interpret_running_off_the_tape_is_fatal() {
    let right = ">".repeat(TAPE_LEN);
    let err = run(&right, vec![]).unwrap_err();
    assert_eq!(err, InterpError::HeadOutOfRange);
    let left = "<".repeat(HEAD_START + 1);
    let err = run(&left, vec![]).unwrap_err();
    assert_eq!(err, InterpError::HeadOutOfRange);
}

#[test]
fn interpret_spending_the_budget_is_fatal() {
    let err = run("+[]", vec![]).unwrap_err();
    assert_eq!(err, InterpError::OutOfFuel);
}

#[test]
fn generate_straight_line_program_is_one_block() {
    let program = parse(lex("+>-<.,")).unwrap();
    let m = generate(&program);
    assert_eq!(m.tape_len, TAPE_LEN);
    assert_eq!(m.blocks.len(), 1);
    assert_eq!(
        m.blocks[0].ops,
        vec![
            IrOp::CellInc,
            IrOp::HeadRight,
            IrOp::CellDec,
            IrOp::HeadLeft,
            IrOp::CallPutchar,
            IrOp::CallGetchar,
        ]
    );
    assert_eq!(m.blocks[0].term, Terminator::Return);
}

#[test]
fn generate_loop_emits_condition_body_and_exit_blocks() {
    let program = parse(lex("[-]")).unwrap();
    let m = generate(&program);
    assert_eq!(m.blocks.len(), 4);
    // entry jumps into the condition block
    assert_eq!(m.blocks[0].ops, vec![]);
    assert_eq!(m.blocks[0].term, Terminator::Jump { target: 1 });
    // the condition block branches on the byte at the head
    assert_eq!(m.blocks[1].ops, vec![]);
    assert_eq!(m.blocks[1].term, Terminator::Branch { nonzero: 2, zero: 3 });
    // the body block runs the children and loops back
    assert_eq!(m.blocks[2].ops, vec![IrOp::CellDec]);
    assert_eq!(m.blocks[2].term, Terminator::Jump { target: 1 });
    // generation continues at the exit block, sealed by the final return
    assert_eq!(m.blocks[3].ops, vec![]);
    assert_eq!(m.blocks[3].term, Terminator::Return);
}

#[test]
fn generate_nested_loops_nest_block_triples() {
    let program = parse(lex("[[+]]")).unwrap();
    let m = generate(&program);
    assert_eq!(m.blocks.len(), 7);
    assert_eq!(m.blocks[0].term, Terminator::Jump { target: 1 });
    assert_eq!(m.blocks[1].term, Terminator::Branch { nonzero: 2, zero: 3 });
    // the outer body opens the inner triple
    assert_eq!(m.blocks[2].term, Terminator::Jump { target: 4 });
    assert_eq!(m.blocks[4].term, Terminator::Branch { nonzero: 5, zero: 6 });
    assert_eq!(m.blocks[5].ops, vec![IrOp::CellInc]);
    assert_eq!(m.blocks[5].term, Terminator::Jump { target: 4 });
    // the inner exit loops back to the outer condition
    assert_eq!(m.blocks[6].term, Terminator::Jump { target: 1 });
    assert_eq!(m.blocks[3].term, Terminator::Return);
}

#[test]
fn generate_after_loop_continues_in_exit_block() {
    let program = parse(lex("+[-]+")).unwrap();
    let m = generate(&program);
    assert_eq!(m.blocks.len(), 4);
    assert_eq!(m.blocks[0].ops, vec![IrOp::CellInc]);
    assert_eq!(m.blocks[3].ops, vec![IrOp::CellInc]);
    assert_eq!(m.blocks[3].term, Terminator::Return);
}

#[test]
fn empty_program_generates_one_empty_returning_block() {
    let program = parse(lex("")).unwrap();
    let m = generate(&program);
    assert_eq!(m.blocks.len(), 1);
    assert_eq!(m.blocks[0].ops, vec![]);
    assert_eq!(m.blocks[0].term, Terminator::Return);
}
