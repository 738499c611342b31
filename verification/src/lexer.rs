//! Lexical filtering of source text into the eight-symbol command alphabet.

use vstd::prelude::*;

verus! {

/// One of the eight command symbols of the language.
#[derive(Clone, Copy, Debug, PartialEq, Eq, Structural)]
pub enum OpCode {
    IncrementPtr,
    DecrementPtr,
    Increment,
    Decrement,
    Write,
    Read,
    LoopStart,
    LoopEnd,
}

/// The command symbol denoted by a source character, if it denotes one.
pub open spec fn char_to_op(c: char) -> Option<OpCode> {
    match c {
        '>' => Some(OpCode::IncrementPtr),
        '<' => Some(OpCode::DecrementPtr),
        '+' => Some(OpCode::Increment),
        '-' => Some(OpCode::Decrement),
        '.' => Some(OpCode::Write),
        ',' => Some(OpCode::Read),
        '[' => Some(OpCode::LoopStart),
        ']' => Some(OpCode::LoopEnd),
        _ => None,
    }
}

/// The command symbols of `s`, in source order; every character that is not
/// a command symbol is dropped.
pub open spec fn lex(s: Seq<char>) -> Seq<OpCode>
    decreases s.len(),
{
    if s.len() == 0 {
        Seq::empty()
    } else {
        lex(s.drop_last()) + (match char_to_op(s.last()) {
            Some(op) => seq![op],
            None => Seq::empty(),
        })
    }
}

/// The executable counterpart of [`char_to_op`].
pub fn classify(c: char) -> (op: Option<OpCode>)
    ensures
        op == char_to_op(c),
{
    match c {
        '>' => Some(OpCode::IncrementPtr),
        '<' => Some(OpCode::DecrementPtr),
        '+' => Some(OpCode::Increment),
        '-' => Some(OpCode::Decrement),
        '.' => Some(OpCode::Write),
        ',' => Some(OpCode::Read),
        '[' => Some(OpCode::LoopStart),
        ']' => Some(OpCode::LoopEnd),
        _ => None,
    }
}

/// Translate source text into the sequence of command symbols it contains,
/// in source order, skipping every other character.
pub fn trans(source: String) -> (ops: Vec<OpCode>)
    ensures
        ops@ == lex(source@),
{
    let mut ops: Vec<OpCode> = Vec::new();
    let n: usize = source.as_str().unicode_len();
    let mut i: usize = 0;
    while i < n
        invariant
            n == source@.len(),
            0 <= i <= n,
            ops@ == lex(source@.take(i as int)),
        decreases n - i,
    {
        let c = source.as_str().get_char(i);
        match classify(c) {
            Some(op) => ops.push(op),
            None => (),
        }
        proof {
            let pre = source@.take(i + 1);
            assert(pre.drop_last() =~= source@.take(i as int));
            assert(pre.last() == source@[i as int]);
        }
        i = i + 1;
    }
    proof {
        assert(source@.take(n as int) =~= source@);
    }
    ops
}

} // verus!
