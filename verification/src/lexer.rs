//! Lexing: filter a character sequence down to the eight recognized operation
//! symbols, in source order; every other character is comment text and is
//! dropped. The empty output is valid: there is no error condition.

use vstd::prelude::*;
use vstd::string::StrSliceExecFns;

verus! {

/// One lexical token of the eight-symbol language.
#[derive(Clone, Copy, PartialEq, Eq, Structural, Debug)]
pub enum Operation {
    MoveRight,
    MoveLeft,
    Inc,
    Dec,
    Read,
    Write,
    LoopOpen,
    LoopClose,
}

/// Whether a character is one of the eight recognized operation symbols.
pub open spec fn is_op_char(c: char) -> bool {
    c == '>' || c == '<' || c == '+' || c == '-' || c == ',' || c == '.' || c == '[' || c == ']'
}

/// The operation a recognized symbol stands for.
pub open spec fn op_of_char(c: char) -> Operation
    recommends
        is_op_char(c),
{
    if c == '>' {
        Operation::MoveRight
    } else if c == '<' {
        Operation::MoveLeft
    } else if c == '+' {
        Operation::Inc
    } else if c == '-' {
        Operation::Dec
    } else if c == ',' {
        Operation::Read
    } else if c == '.' {
        Operation::Write
    } else if c == '[' {
        Operation::LoopOpen
    } else {
        Operation::LoopClose
    }
}

/// What lexing a character sequence yields: the operations for the recognized
/// symbols, in source order; every other character contributes nothing.
pub open spec fn lex_spec(s: Seq<char>) -> Seq<Operation>
    decreases s.len(),
{
    if s.len() == 0 {
        Seq::empty()
    } else {
        let rest = lex_spec(s.drop_last());
        if is_op_char(s.last()) {
            rest.push(op_of_char(s.last()))
        } else {
            rest
        }
    }
}

/// Turn source text into the ordered sequence of operations it spells.
pub fn lex(source: &str) -> (ops: Vec<Operation>)
    ensures
        ops@ == lex_spec(source@),
{
    let n = source.unicode_len();
    let mut ops: Vec<Operation> = Vec::new();
    let mut i: usize = 0;
    while i < n
        invariant
            n == source@.len(),
            i <= n,
            ops@ == lex_spec(source@.take(i as int)),
        decreases n - i,
    {
        let c = source.get_char(i);
        if c == '>' {
            ops.push(Operation::MoveRight);
        } else if c == '<' {
            ops.push(Operation::MoveLeft);
        } else if c == '+' {
            ops.push(Operation::Inc);
        } else if c == '-' {
            ops.push(Operation::Dec);
        } else if c == ',' {
            ops.push(Operation::Read);
        } else if c == '.' {
            ops.push(Operation::Write);
        } else if c == '[' {
            ops.push(Operation::LoopOpen);
        } else if c == ']' {
            ops.push(Operation::LoopClose);
        }
        proof {
            let t = source@.take(i + 1);
            assert(t.drop_last() =~= source@.take(i as int));
            assert(t.last() == source@[i as int]);
        }
        i = i + 1;
    }
    proof {
        assert(source@.take(n as int) =~= source@);
    }
    ops
}

/// Law: the lexer's output is never longer than its input, and it is exactly
/// the recognized symbols of the input, kept in source order and each mapped
/// to its one operation.
pub proof fn lemma_lex_filters(s: Seq<char>)
    ensures
        lex_spec(s).len() <= s.len(),
        lex_spec(s) == s.filter(|c: char| is_op_char(c)).map_values(|c: char| op_of_char(c)),
    decreases s.len(),
{
    reveal(Seq::filter);
    if s.len() == 0 {
        assert(lex_spec(s) =~= s.filter(|c: char| is_op_char(c)).map_values(
            |c: char| op_of_char(c),
        ));
    } else {
        lemma_lex_filters(s.drop_last());
        let f = s.drop_last().filter(|c: char| is_op_char(c));
        if is_op_char(s.last()) {
            assert(lex_spec(s) =~= f.push(s.last()).map_values(|c: char| op_of_char(c)));
        } else {
            assert(lex_spec(s) =~= s.filter(|c: char| is_op_char(c)).map_values(
                |c: char| op_of_char(c),
            ));
        }
    }
}

} // verus!
