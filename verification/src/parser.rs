//! Structural parsing: command sequences become trees of instructions, with
//! matched bracket pairs collapsed into nested [`Instruction::Loop`] nodes.

use crate::lexer::OpCode;
use vstd::prelude::*;

verus! {

/// A node of the executable tree: one of the six direct commands, or a loop
/// whose payload is the ordered sequence of instructions of its body.
#[derive(Debug, PartialEq, Eq)]
pub enum Instruction {
    IncrementPtr,
    DecrementPtr,
    Increment,
    Decrement,
    Write,
    Read,
    Loop(Vec<Instruction>),
}

/// The two structural errors: a loop-end with no open loop, and a loop-start
/// that is never closed. Each carries the index of the offending symbol.
#[derive(Clone, Copy, Debug, PartialEq, Eq, Structural)]
pub enum ParseError {
    UnmatchedLoopEnd { pos: usize },
    UnmatchedLoopStart { pos: usize },
}

/// How a symbol changes the bracket nesting depth.
pub open spec fn op_delta(op: OpCode) -> int {
    match op {
        OpCode::LoopStart => 1,
        OpCode::LoopEnd => -1,
        _ => 0,
    }
}

/// Number of loop-starts minus number of loop-ends in `s`.
pub open spec fn nesting(s: Seq<OpCode>) -> int
    decreases s.len(),
{
    if s.len() == 0 {
        0
    } else {
        nesting(s.drop_last()) + op_delta(s.last())
    }
}

/// No prefix of `s` closes more loops than it has opened.
pub open spec fn prefixes_ok(s: Seq<OpCode>) -> bool {
    forall|j: int| 0 <= j <= s.len() ==> nesting(#[trigger] s.take(j)) >= 0
}

/// Every loop-end matches an earlier loop-start and every loop-start is
/// eventually closed.
pub open spec fn balanced(s: Seq<OpCode>) -> bool {
    prefixes_ok(s) && nesting(s) == 0
}

/// `pos` is the first loop-end of `s` that has no open loop to close.
pub open spec fn end_error_at(s: Seq<OpCode>, pos: int) -> bool {
    &&& 0 <= pos < s.len()
    &&& s[pos] == OpCode::LoopEnd
    &&& nesting(s.take(pos)) == 0
    &&& forall|j: int| 0 <= j <= pos ==> nesting(#[trigger] s.take(j)) >= 0
}

/// `pos` is the last loop-start of `s` standing at nesting depth zero, and
/// the scan ends with that loop still open.
pub open spec fn start_error_at(s: Seq<OpCode>, pos: int) -> bool {
    &&& prefixes_ok(s)
    &&& nesting(s) > 0
    &&& 0 <= pos < s.len()
    &&& s[pos] == OpCode::LoopStart
    &&& nesting(s.take(pos)) == 0
    &&& forall|j: int| pos < j < s.len() ==> !(#[trigger] s[j] == OpCode::LoopStart
        && nesting(s.take(j)) == 0)
}

/// The command sequence that an instruction stands for: a loop prints as its
/// body between a matched loop-start / loop-end pair.
pub open spec fn flatten_instr(i: Instruction) -> Seq<OpCode>
    decreases i,
{
    match i {
        Instruction::IncrementPtr => seq![OpCode::IncrementPtr],
        Instruction::DecrementPtr => seq![OpCode::DecrementPtr],
        Instruction::Increment => seq![OpCode::Increment],
        Instruction::Decrement => seq![OpCode::Decrement],
        Instruction::Write => seq![OpCode::Write],
        Instruction::Read => seq![OpCode::Read],
        Instruction::Loop(body) => seq![OpCode::LoopStart] + flatten(body@) + seq![OpCode::LoopEnd],
    }
}

/// The command sequence that an instruction sequence stands for.
pub open spec fn flatten(s: Seq<Instruction>) -> Seq<OpCode>
    decreases s,
{
    if s.len() == 0 {
        Seq::empty()
    } else {
        flatten_instr(s[0]) + flatten(s.subrange(1, s.len() as int))
    }
}

/// Extending a prefix by one symbol changes its nesting by that symbol's delta.
pub proof fn lemma_nesting_take_step(s: Seq<OpCode>, j: int)
    requires
        0 <= j < s.len(),
    ensures
        nesting(s.take(j + 1)) == nesting(s.take(j)) + op_delta(s[j]),
{
    let p = s.take(j + 1);
    assert(p.drop_last() =~= s.take(j));
    assert(p.last() == s[j]);
}

/// Nesting of a slice is the difference of the nestings of the two prefixes
/// that bound it.
pub proof fn lemma_nesting_offset(s: Seq<OpCode>, a: int, b: int)
    requires
        0 <= a <= b <= s.len(),
    ensures
        nesting(s.subrange(a, b)) == nesting(s.take(b)) - nesting(s.take(a)),
    decreases b - a,
{
    if a == b {
        assert(s.subrange(a, b) =~= Seq::<OpCode>::empty());
        assert(s.take(b) =~= s.take(a));
    } else {
        lemma_nesting_offset(s, a, b - 1);
        assert(s.subrange(a, b).drop_last() =~= s.subrange(a, b - 1));
        assert(s.subrange(a, b).last() == s[b - 1]);
        lemma_nesting_take_step(s, b - 1);
    }
}

/// Flattening an instruction appended at the end appends its commands.
pub proof fn lemma_flatten_push(s: Seq<Instruction>, x: Instruction)
    ensures
        flatten(s.push(x)) == flatten(s) + flatten_instr(x),
    decreases s.len(),
{
    let p = s.push(x);
    if s.len() == 0 {
        assert(p[0] == x);
        assert(p.subrange(1, p.len() as int) =~= Seq::<Instruction>::empty());
        assert(flatten(Seq::<Instruction>::empty()) =~= Seq::<OpCode>::empty());
        assert(flatten(p) =~= flatten(s) + flatten_instr(x));
    } else {
        let rest = s.subrange(1, s.len() as int);
        assert(p[0] == s[0]);
        assert(p.subrange(1, p.len() as int) =~= rest.push(x));
        lemma_flatten_push(rest, x);
        assert(flatten(p) =~= flatten(s) + flatten_instr(x));
    }
}

/// Appending one non-loop instruction extends the flattened image by its
/// single command.
proof fn lemma_push_basic(code0: Seq<Instruction>, x: Instruction, ops: Seq<OpCode>, i: int)
    requires
        0 <= i < ops.len(),
        flatten(code0) == ops.take(i),
        flatten_instr(x) == seq![ops[i]],
    ensures
        flatten(code0.push(x)) == ops.take(i + 1),
{
    lemma_flatten_push(code0, x);
    assert(ops.take(i + 1) =~= ops.take(i) + seq![ops[i]]);
}

/// Build the opcode sub-sequence strictly between two positions.
fn copy_range(opcodes: &Vec<OpCode>, from: usize, to: usize) -> (inner: Vec<OpCode>)
    requires
        from <= to <= opcodes@.len(),
    ensures
        inner@ == opcodes@.subrange(from as int, to as int),
{
    let mut inner: Vec<OpCode> = Vec::new();
    let mut k: usize = from;
    while k < to
        invariant
            from <= k <= to <= opcodes@.len(),
            inner@ =~= opcodes@.subrange(from as int, k as int),
        decreases to - k,
    {
        inner.push(opcodes[k]);
        proof {
            assert(inner@ =~= opcodes@.subrange(from as int, k + 1));
        }
        k = k + 1;
    }
    inner
}

/// Parse a command sequence into the ordered sequence of its top-level
/// instructions.
///
/// On success the result prints back, via [`flatten`], to exactly the input,
/// and the input is balanced. On failure the input is unbalanced and the
/// error names the offending symbol index: the first unmatched loop-end, or
/// the recorded position of the last unclosed top-level loop-start.
pub fn parse(opcodes: Vec<OpCode>) -> (r: Result<Vec<Instruction>, ParseError>)
    ensures
        (match r {
            Ok(code) => balanced(opcodes@) && flatten(code@) == opcodes@,
            Err(ParseError::UnmatchedLoopEnd { pos }) => end_error_at(opcodes@, pos as int),
            Err(ParseError::UnmatchedLoopStart { pos }) => start_error_at(opcodes@, pos as int),
        }),
    decreases opcodes@.len(),
{
    let ghost ops = opcodes@;
    let mut code: Vec<Instruction> = Vec::new();
    let mut loop_begin: usize = 0;
    let mut loop_stack: usize = 0;
    let mut i: usize = 0;

    while i < opcodes.len()
        invariant
            ops == opcodes@,
            0 <= i <= ops.len(),
            loop_stack <= i,
            forall|j: int| 0 <= j <= i ==> nesting(#[trigger] ops.take(j)) >= 0,
            loop_stack == 0 ==> {
                &&& flatten(code@) == ops.take(i as int)
                &&& nesting(ops.take(i as int)) == 0
            },
            loop_stack > 0 ==> {
                &&& loop_begin < i
                &&& ops[loop_begin as int] == OpCode::LoopStart
                &&& nesting(ops.take(loop_begin as int)) == 0
                &&& flatten(code@) == ops.take(loop_begin as int)
                &&& loop_stack == nesting(ops.take(i as int))
                &&& forall|j: int| loop_begin < j <= i ==> nesting(#[trigger] ops.take(j)) >= 1
            },
        decreases ops.len() - i,
    {
        let op = opcodes[i];
        proof {
            lemma_nesting_take_step(ops, i as int);
        }
        if loop_stack == 0 {
            match op {
                OpCode::IncrementPtr => {
                    let ghost code0 = code@;
                    code.push(Instruction::IncrementPtr);
                    proof {
                        lemma_push_basic(code0, Instruction::IncrementPtr, ops, i as int);
                    }
                }
                OpCode::DecrementPtr => {
                    let ghost code0 = code@;
                    code.push(Instruction::DecrementPtr);
                    proof {
                        lemma_push_basic(code0, Instruction::DecrementPtr, ops, i as int);
                    }
                }
                OpCode::Increment => {
                    let ghost code0 = code@;
                    code.push(Instruction::Increment);
                    proof {
                        lemma_push_basic(code0, Instruction::Increment, ops, i as int);
                    }
                }
                OpCode::Decrement => {
                    let ghost code0 = code@;
                    code.push(Instruction::Decrement);
                    proof {
                        lemma_push_basic(code0, Instruction::Decrement, ops, i as int);
                    }
                }
                OpCode::Write => {
                    let ghost code0 = code@;
                    code.push(Instruction::Write);
                    proof {
                        lemma_push_basic(code0, Instruction::Write, ops, i as int);
                    }
                }
                OpCode::Read => {
                    let ghost code0 = code@;
                    code.push(Instruction::Read);
                    proof {
                        lemma_push_basic(code0, Instruction::Read, ops, i as int);
                    }
                }
                OpCode::LoopStart => {
                    loop_begin = i;
                    loop_stack = 1;
                }
                OpCode::LoopEnd => {
                    return Err(ParseError::UnmatchedLoopEnd { pos: i });
                }
            }
        } else {
            match op {
                OpCode::LoopStart => {
                    loop_stack = loop_stack + 1;
                }
                OpCode::LoopEnd => {
                    loop_stack = loop_stack - 1;
                    if loop_stack == 0 {
                        let inner = copy_range(&opcodes, loop_begin + 1, i);
                        let ghost inner_s = inner@;
                        proof {
                            lemma_nesting_take_step(ops, loop_begin as int);
                            assert forall|k: int| 0 <= k <= inner_s.len() implies nesting(
                                #[trigger] inner_s.take(k),
                            ) >= 0 by {
                                assert(inner_s.take(k) =~= ops.subrange(
                                    loop_begin + 1,
                                    loop_begin + 1 + k,
                                ));
                                lemma_nesting_offset(ops, loop_begin + 1, loop_begin + 1 + k);
                            }
                            lemma_nesting_offset(ops, loop_begin + 1, i as int);
                            assert(inner_s.take(inner_s.len() as int) =~= inner_s);
                            assert(nesting(inner_s) == 0);
                        }
                        match parse(inner) {
                            Ok(body) => {
                                let ghost b = body@;
                                let ghost code0 = code@;
                                code.push(Instruction::Loop(body));
                                proof {
                                    let x = code@.last();
                                    lemma_flatten_push(code0, x);
                                    assert(code@ == code0.push(x));
                                    assert(flatten_instr(x) == seq![OpCode::LoopStart] + flatten(
                                        b,
                                    ) + seq![OpCode::LoopEnd]);
                                    assert(flatten(b) == inner_s);
                                    assert(flatten(code@) =~= ops.take(i + 1));
                                }
                            }
                            Err(e) => {
                                proof {
                                    match e {
                                        ParseError::UnmatchedLoopEnd { pos } => {
                                            lemma_nesting_take_step(inner_s, pos as int);
                                            assert(false);
                                        }
                                        ParseError::UnmatchedLoopStart { pos } => {
                                            assert(false);
                                        }
                                    }
                                }
                                return Err(e);
                            }
                        }
                    }
                }
                _ => {}
            }
        }
        i = i + 1;
    }

    if loop_stack != 0 {
        proof {
            assert(ops.take(ops.len() as int) =~= ops);
        }
        return Err(ParseError::UnmatchedLoopStart { pos: loop_begin });
    }
    proof {
        assert(ops.take(ops.len() as int) =~= ops);
    }
    Ok(code)
}

/// At most one position can be the first unmatched loop-end: the reported
/// index is determined by the input alone.
pub proof fn lemma_end_error_unique(s: Seq<OpCode>, pa: int, pb: int)
    requires
        end_error_at(s, pa),
        end_error_at(s, pb),
    ensures
        pa == pb,
{
    if pa < pb {
        lemma_nesting_take_step(s, pa);
        assert(nesting(s.take(pa + 1)) < 0);
    }
    if pb < pa {
        lemma_nesting_take_step(s, pb);
        assert(nesting(s.take(pb + 1)) < 0);
    }
}

/// At most one position can be the last unclosed top-level loop-start: the
/// reported index is determined by the input alone.
pub proof fn lemma_start_error_unique(s: Seq<OpCode>, pa: int, pb: int)
    requires
        start_error_at(s, pa),
        start_error_at(s, pb),
    ensures
        pa == pb,
{
}

/// A flattened instruction never prints to the empty sequence.
pub proof fn lemma_flatten_instr_len(i: Instruction)
    ensures
        flatten_instr(i).len() >= 1,
{
    match i {
        Instruction::Loop(body) => {},
        _ => {},
    }
}

/// The concatenation of two balanced sequences is balanced.
pub proof fn lemma_balanced_concat(x: Seq<OpCode>, y: Seq<OpCode>)
    requires
        balanced(x),
        balanced(y),
    ensures
        balanced(x + y),
{
    let c = x + y;
    assert(c.take(x.len() as int) =~= x);
    assert(c.take(c.len() as int) =~= c);
    lemma_nesting_offset(c, x.len() as int, c.len() as int);
    assert(c.subrange(x.len() as int, c.len() as int) =~= y);
    assert forall|j: int| 0 <= j <= c.len() implies nesting(#[trigger] c.take(j)) >= 0 by {
        if j <= x.len() {
            assert(c.take(j) =~= x.take(j));
        } else {
            lemma_nesting_offset(c, x.len() as int, j);
            assert(c.subrange(x.len() as int, j) =~= y.take(j - x.len()));
        }
    }
}

/// What one instruction prints is balanced.
pub proof fn lemma_flatten_instr_balanced(i: Instruction)
    ensures
        balanced(flatten_instr(i)),
    decreases i,
{
    let f = flatten_instr(i);
    assert(nesting(Seq::<OpCode>::empty()) == 0);
    match i {
        Instruction::Loop(body) => {
            lemma_flatten_balanced(body@);
            let inner = flatten(body@);
            let il = inner.len() as int;
            assert(seq![OpCode::LoopStart].drop_last() =~= Seq::<OpCode>::empty());
            assert(nesting(seq![OpCode::LoopStart]) == 1);
            assert(seq![OpCode::LoopEnd].drop_last() =~= Seq::<OpCode>::empty());
            assert(nesting(seq![OpCode::LoopEnd]) == -1);
            assert(f.take(1) =~= seq![OpCode::LoopStart]);
            assert(nesting(f) == 0) by {
                lemma_nesting_offset(f, 1, 1 + il);
                assert(f.subrange(1, 1 + il) =~= inner);
                lemma_nesting_offset(f, 1 + il, f.len() as int);
                assert(f.subrange(1 + il, f.len() as int) =~= seq![OpCode::LoopEnd]);
                assert(f.take(1) =~= seq![OpCode::LoopStart]);
                assert(f.take(f.len() as int) =~= f);
            }
            assert forall|j: int| 0 <= j <= f.len() implies nesting(#[trigger] f.take(j)) >= 0 by {
                if j == 0 {
                    assert(f.take(0) =~= Seq::<OpCode>::empty());
                } else if j <= 1 + il {
                    lemma_nesting_offset(f, 1, j);
                    assert(f.subrange(1, j) =~= inner.take(j - 1));
                } else {
                    assert(f.take(j) =~= f);
                }
            }
        },
        _ => {
            assert(f.len() == 1);
            assert(op_delta(f[0]) == 0);
            assert(f.drop_last() =~= Seq::<OpCode>::empty());
            assert(nesting(f) == 0);
            assert forall|j: int| 0 <= j <= f.len() implies nesting(#[trigger] f.take(j)) >= 0 by {
                if j == 0 {
                    assert(f.take(0) =~= Seq::<OpCode>::empty());
                } else {
                    assert(f.take(j) =~= f);
                }
            }
        },
    }
}

/// What an instruction sequence prints is balanced.
pub proof fn lemma_flatten_balanced(s: Seq<Instruction>)
    ensures
        balanced(flatten(s)),
    decreases s,
{
    if s.len() == 0 {
        assert(Seq::<OpCode>::empty().take(0) =~= Seq::<OpCode>::empty());
        assert(forall|j: int| 0 <= j <= 0 ==> nesting(#[trigger] Seq::<OpCode>::empty().take(j))
            >= 0);
    } else {
        lemma_flatten_instr_balanced(s[0]);
        lemma_flatten_balanced(s.subrange(1, s.len() as int));
        lemma_balanced_concat(flatten_instr(s[0]), flatten(s.subrange(1, s.len() as int)));
    }
}

/// The shape of an instruction tree: the same tree with loop bodies held as
/// ghost sequences instead of vectors. Two instruction trees with the same
/// shape are the same program.
pub enum Shape {
    IncrementPtr,
    DecrementPtr,
    Increment,
    Decrement,
    Write,
    Read,
    Loop(Seq<Shape>),
}

/// The shape of one instruction.
pub open spec fn shape_of(i: Instruction) -> Shape
    decreases i,
{
    match i {
        Instruction::IncrementPtr => Shape::IncrementPtr,
        Instruction::DecrementPtr => Shape::DecrementPtr,
        Instruction::Increment => Shape::Increment,
        Instruction::Decrement => Shape::Decrement,
        Instruction::Write => Shape::Write,
        Instruction::Read => Shape::Read,
        Instruction::Loop(body) => Shape::Loop(shapes_of(body@)),
    }
}

/// The shapes of an instruction sequence, in order.
pub open spec fn shapes_of(s: Seq<Instruction>) -> Seq<Shape>
    decreases s,
{
    if s.len() == 0 {
        Seq::empty()
    } else {
        seq![shape_of(s[0])] + shapes_of(s.subrange(1, s.len() as int))
    }
}

/// Where the pieces of a flattened loop followed by more commands sit inside
/// the concatenation.
proof fn lemma_loop_parts(inner: Seq<OpCode>, rest: Seq<OpCode>)
    ensures
        ({
            let x = seq![OpCode::LoopStart] + inner + seq![OpCode::LoopEnd] + rest;
            &&& x.len() == inner.len() + 2 + rest.len()
            &&& x[0] == OpCode::LoopStart
            &&& x.subrange(1, 1 + inner.len() as int) == inner
            &&& x[1 + inner.len() as int] == OpCode::LoopEnd
            &&& x.subrange(2 + inner.len() as int, x.len() as int) == rest
        }),
{
    let x = seq![OpCode::LoopStart] + inner + seq![OpCode::LoopEnd] + rest;
    assert(x.subrange(1, 1 + inner.len() as int) =~= inner);
    assert(x.subrange(2 + inner.len() as int, x.len() as int) =~= rest);
}

/// Two balanced segments that start at the same position of one sequence
/// and are each followed there by a loop-end are the same segment: the
/// shorter one would put a loop-end where the longer is still open.
proof fn lemma_matched_segment_unique(x: Seq<OpCode>, ia: Seq<OpCode>, ib: Seq<OpCode>)
    requires
        balanced(ia),
        balanced(ib),
        1 + ia.len() < x.len(),
        1 + ib.len() < x.len(),
        x.subrange(1, 1 + ia.len() as int) == ia,
        x[1 + ia.len() as int] == OpCode::LoopEnd,
        x.subrange(1, 1 + ib.len() as int) == ib,
        x[1 + ib.len() as int] == OpCode::LoopEnd,
    ensures
        ia == ib,
{
    let la = ia.len() as int;
    let lb = ib.len() as int;
    if la < lb {
        assert(ib.take(la) =~= ia);
        assert(ib[la] == x[1 + la]);
        lemma_nesting_take_step(ib, la);
        assert(nesting(ib.take(la + 1)) < 0);
        assert(false);
    }
    if lb < la {
        assert(ia.take(lb) =~= ib);
        assert(ia[lb] == x[1 + lb]);
        lemma_nesting_take_step(ia, lb);
        assert(nesting(ia.take(lb + 1)) < 0);
        assert(false);
    }
    assert(ia =~= ib);
}

/// A non-loop instruction prints to one command, and that command is not a
/// structural marker.
proof fn lemma_basic_flatten(i: Instruction)
    requires
        !(i matches Instruction::Loop(_)),
    ensures
        flatten_instr(i).len() == 1,
        op_delta(flatten_instr(i)[0]) == 0,
{
}

/// The shape a non-structural command stands for.
spec fn basic_shape(op: OpCode) -> Shape {
    match op {
        OpCode::IncrementPtr => Shape::IncrementPtr,
        OpCode::DecrementPtr => Shape::DecrementPtr,
        OpCode::Increment => Shape::Increment,
        OpCode::Decrement => Shape::Decrement,
        OpCode::Write => Shape::Write,
        OpCode::Read => Shape::Read,
        _ => Shape::Loop(Seq::empty()),
    }
}

/// The shape of a non-loop instruction is determined by the one command it
/// prints to.
proof fn lemma_basic_shape_of(i: Instruction)
    requires
        !(i matches Instruction::Loop(_)),
    ensures
        shape_of(i) == basic_shape(flatten_instr(i)[0]),
{
    match i {
        Instruction::IncrementPtr => {
            assert(flatten_instr(i)[0] == OpCode::IncrementPtr);
        },
        Instruction::DecrementPtr => {
            assert(flatten_instr(i)[0] == OpCode::DecrementPtr);
        },
        Instruction::Increment => {
            assert(flatten_instr(i)[0] == OpCode::Increment);
        },
        Instruction::Decrement => {
            assert(flatten_instr(i)[0] == OpCode::Decrement);
        },
        Instruction::Write => {
            assert(flatten_instr(i)[0] == OpCode::Write);
        },
        Instruction::Read => {
            assert(flatten_instr(i)[0] == OpCode::Read);
        },
        Instruction::Loop(_) => {},
    }
}

/// Two non-loop instructions that print to the same command have the same
/// shape.
proof fn lemma_basic_shape(i: Instruction, j: Instruction)
    requires
        !(i matches Instruction::Loop(_)),
        !(j matches Instruction::Loop(_)),
        flatten_instr(i) == flatten_instr(j),
    ensures
        shape_of(i) == shape_of(j),
{
    lemma_basic_shape_of(i);
    lemma_basic_shape_of(j);
}

/// Concatenation with a common first part is left-cancellative.
proof fn lemma_tail_eq(h: Seq<OpCode>, t1: Seq<OpCode>, t2: Seq<OpCode>)
    requires
        h + t1 == h + t2,
    ensures
        t1 == t2,
{
    assert((h + t1).len() == h.len() + t1.len());
    assert((h + t2).len() == h.len() + t2.len());
    assert forall|k: int| 0 <= k < t1.len() implies t1[k] == t2[k] by {
        assert(t1[k] == (h + t1)[h.len() + k]);
        assert(t2[k] == (h + t2)[h.len() + k]);
    }
    assert(t1 =~= t2);
}

/// Two loops that open the same command sequence enclose the same body and
/// are followed by the same commands.
proof fn lemma_loop_heads_eq(
    f: Seq<OpCode>,
    ia: Seq<OpCode>,
    ib: Seq<OpCode>,
    ta: Seq<OpCode>,
    tb: Seq<OpCode>,
)
    requires
        balanced(ia),
        balanced(ib),
        f == seq![OpCode::LoopStart] + ia + seq![OpCode::LoopEnd] + ta,
        f == seq![OpCode::LoopStart] + ib + seq![OpCode::LoopEnd] + tb,
    ensures
        ia == ib,
        ta == tb,
{
    lemma_loop_parts(ia, ta);
    lemma_loop_parts(ib, tb);
    lemma_matched_segment_unique(f, ia, ib);
    assert(ta =~= tb);
}

/// Flattening loses nothing: two instruction sequences that print to the
/// same command sequence have the same shape. Together with the contract of
/// [`parse`], the parse result is determined by its input.
pub proof fn lemma_flatten_determines_shape(a: Seq<Instruction>, b: Seq<Instruction>)
    requires
        flatten(a) == flatten(b),
    ensures
        shapes_of(a) == shapes_of(b),
    decreases a,
{
    if a.len() == 0 {
        if b.len() > 0 {
            lemma_flatten_instr_len(b[0]);
            assert(false);
        }
        assert(shapes_of(a) =~= shapes_of(b));
    } else if b.len() == 0 {
        lemma_flatten_instr_len(a[0]);
        assert(false);
    } else {
        let ha = a[0];
        let hb = b[0];
        let ra = a.subrange(1, a.len() as int);
        let rb = b.subrange(1, b.len() as int);
        let fa = flatten_instr(ha);
        let fb = flatten_instr(hb);
        let ta = flatten(ra);
        let tb = flatten(rb);
        let f = flatten(a);
        assert(f == fa + ta);
        assert(f == fb + tb);
        match (ha, hb) {
            (Instruction::Loop(ba), Instruction::Loop(bb)) => {
                let ia = flatten(ba@);
                let ib = flatten(bb@);
                lemma_flatten_balanced(ba@);
                lemma_flatten_balanced(bb@);
                assert(f == seq![OpCode::LoopStart] + ia + seq![OpCode::LoopEnd] + ta);
                assert(f == seq![OpCode::LoopStart] + ib + seq![OpCode::LoopEnd] + tb);
                lemma_loop_heads_eq(f, ia, ib, ta, tb);
                lemma_flatten_determines_shape(ba@, bb@);
                lemma_flatten_determines_shape(ra, rb);
                assert(shape_of(ha) == shape_of(hb));
            },
            (Instruction::Loop(ba), _) => {
                lemma_loop_parts(flatten(ba@), ta);
                assert(f == seq![OpCode::LoopStart] + flatten(ba@) + seq![OpCode::LoopEnd] + ta);
                lemma_basic_flatten(hb);
                assert(fb[0] == f[0]);
                assert(false);
            },
            (_, Instruction::Loop(bb)) => {
                lemma_loop_parts(flatten(bb@), tb);
                assert(f == seq![OpCode::LoopStart] + flatten(bb@) + seq![OpCode::LoopEnd] + tb);
                lemma_basic_flatten(ha);
                assert(fa[0] == f[0]);
                assert(false);
            },
            _ => {
                lemma_basic_flatten(ha);
                lemma_basic_flatten(hb);
                assert(fa[0] == f[0]);
                assert(fb[0] == f[0]);
                assert(fa =~= fb);
                lemma_basic_shape(ha, hb);
                lemma_tail_eq(fa, ta, tb);
                lemma_flatten_determines_shape(ra, rb);
            },
        }
        assert(shapes_of(a) == seq![shape_of(a[0])] + shapes_of(ra));
        assert(shapes_of(b) == seq![shape_of(b[0])] + shapes_of(rb));
    }
}

/// A command sequence with no structural markers parses to a flat program:
/// as many instructions as commands, none of them a loop, each printing back
/// to exactly its own command.
pub proof fn lemma_flat_round_trip(instrs: Seq<Instruction>, ops: Seq<OpCode>)
    requires
        flatten(instrs) == ops,
        forall|j: int| 0 <= j < ops.len() ==> op_delta(#[trigger] ops[j]) == 0,
    ensures
        instrs.len() == ops.len(),
        forall|j: int| 0 <= j < instrs.len() ==> !(#[trigger] instrs[j] matches Instruction::Loop(_))
            && flatten_instr(instrs[j]) == seq![ops[j]],
    decreases instrs.len(),
{
    if instrs.len() == 0 {
        assert(ops.len() == 0);
    } else {
        let head = instrs[0];
        let rest = instrs.subrange(1, instrs.len() as int);
        match head {
            Instruction::Loop(body) => {
                assert(flatten_instr(head) == seq![OpCode::LoopStart] + flatten(body@)
                    + seq![OpCode::LoopEnd]);
                assert(flatten_instr(head)[0] == OpCode::LoopStart);
                assert(ops[0] == flatten_instr(head)[0]);
                assert(op_delta(ops[0]) == 1);
                assert(false);
            }
            _ => {}
        }
        assert(flatten_instr(head).len() == 1);
        assert(ops[0] == flatten_instr(head)[0]);
        let tail = ops.subrange(1, ops.len() as int);
        assert(tail =~= flatten(rest));
        lemma_flat_round_trip(rest, tail);
        assert(flatten_instr(instrs[0]) =~= seq![ops[0]]);
        assert forall|j: int| 0 < j < instrs.len() implies !(#[trigger] instrs[j] matches Instruction::Loop(_))
            && flatten_instr(instrs[j]) == seq![ops[j]] by {
            assert(instrs[j] == rest[j - 1]);
            assert(ops[j] == tail[j - 1]);
        }
    }
}

} // verus!
