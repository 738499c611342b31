//! Tree-walking execution of an instruction sequence against a machine,
//! specified by a fuel-indexed big-step interpreter.
//!
//! Each loop iteration costs one unit of fuel, so every run provably stops:
//! with the machine's final value, with a tape-bounds fault, or with the
//! budget exhausted. The bounds policy is a fixed-size fault: a pointer
//! motion that would leave the tape stops the run.

use crate::machine::{byte_dec, byte_inc, dec_byte, inc_byte, Machine, MachineView};
use crate::parser::Instruction;
use vstd::prelude::*;

verus! {

/// Why a run stopped early: the data pointer was about to leave the tape, or
/// the step budget ran out.
#[derive(Clone, Copy, Debug, PartialEq, Eq, Structural)]
pub enum ExecError {
    OutOfBounds,
    OutOfFuel,
}

/// The result of the specification interpreter: a finished machine together
/// with the unspent fuel, a tape-bounds fault, or an exhausted budget.
pub enum Outcome {
    Done(MachineView, nat),
    Fault,
    OutOfFuel,
}

/// The number of instruction nodes in one tree, loop bodies included.
pub open spec fn instr_size(i: Instruction) -> nat
    decreases i,
{
    match i {
        Instruction::Loop(body) => 1 + seq_size(body@),
        _ => 1,
    }
}

/// The number of instruction nodes in a sequence of trees.
pub open spec fn seq_size(s: Seq<Instruction>) -> nat
    decreases s,
{
    if s.len() == 0 {
        0
    } else {
        instr_size(s[0]) + seq_size(s.subrange(1, s.len() as int))
    }
}

/// The machine after one non-structural command: pointer motion (a motion
/// that would leave the tape is the fault case, `None`), wrapping cell
/// arithmetic, one byte of output, or one byte of input with the
/// end-of-input no-op.
pub open spec fn step_basic(i: Instruction, m: MachineView) -> Option<MachineView> {
    match i {
        Instruction::IncrementPtr => if m.ptr + 1 < m.tape.len() {
            Some((MachineView { ptr: m.ptr + 1, ..m }))
        } else {
            None
        },
        Instruction::DecrementPtr => if m.ptr > 0 {
            Some((MachineView { ptr: (m.ptr - 1) as nat, ..m }))
        } else {
            None
        },
        Instruction::Increment => Some(
            (MachineView { tape: m.tape.update(m.ptr as int, inc_byte(m.tape[m.ptr as int])), ..m }),
        ),
        Instruction::Decrement => Some(
            (MachineView { tape: m.tape.update(m.ptr as int, dec_byte(m.tape[m.ptr as int])), ..m }),
        ),
        Instruction::Write => Some(
            (MachineView { output: m.output.push(m.tape[m.ptr as int]), ..m }),
        ),
        Instruction::Read => if m.in_pos < m.input.len() {
            Some(
                (MachineView {
                    tape: m.tape.update(m.ptr as int, m.input[m.in_pos as int]),
                    in_pos: m.in_pos + 1,
                    ..m
                }),
            )
        } else {
            Some(m)
        },
        Instruction::Loop(_) => None,
    }
}

/// Big-step execution of one instruction. A loop re-runs its body while the
/// pointed-to cell is nonzero at the start of an iteration; each iteration
/// costs one unit of fuel.
///
/// The `f1 < fuel` test only keeps the recursion visibly decreasing: a run
/// never returns more fuel than it was given ([`lemma_run_seq_fuel`]), so
/// the branch that yields [`Outcome::OutOfFuel`] there is never the value.
pub open spec fn run_instr(i: Instruction, m: MachineView, fuel: nat) -> Outcome
    decreases fuel, i,
{
    match i {
        Instruction::Loop(body) => {
            if m.tape[m.ptr as int] == 0 {
                Outcome::Done(m, fuel)
            } else if fuel == 0 {
                Outcome::OutOfFuel
            } else {
                match run_seq(body@, m, (fuel - 1) as nat) {
                    Outcome::Done(m1, f1) => if f1 < fuel {
                        run_instr(i, m1, f1)
                    } else {
                        Outcome::OutOfFuel
                    },
                    o => o,
                }
            }
        },
        _ => match step_basic(i, m) {
            Some(m1) => Outcome::Done(m1, fuel),
            None => Outcome::Fault,
        },
    }
}

/// Big-step execution of an instruction sequence, in order, threading the
/// machine and the remaining fuel.
pub open spec fn run_seq(s: Seq<Instruction>, m: MachineView, fuel: nat) -> Outcome
    decreases fuel, s,
{
    if s.len() == 0 {
        Outcome::Done(m, fuel)
    } else {
        match run_instr(s[0], m, fuel) {
            Outcome::Done(m1, f1) => if f1 <= fuel {
                run_seq(s.subrange(1, s.len() as int), m1, f1)
            } else {
                Outcome::OutOfFuel
            },
            o => o,
        }
    }
}

/// A run never returns more fuel than it was given.
pub proof fn lemma_run_instr_fuel(i: Instruction, m: MachineView, fuel: nat)
    ensures
        run_instr(i, m, fuel) matches Outcome::Done(m1, f1) ==> f1 <= fuel,
    decreases fuel, i,
{
    match i {
        Instruction::Loop(body) => {
            if m.tape[m.ptr as int] != 0 && fuel > 0 {
                lemma_run_seq_fuel(body@, m, (fuel - 1) as nat);
                match run_seq(body@, m, (fuel - 1) as nat) {
                    Outcome::Done(m1, f1) => {
                        lemma_run_instr_fuel(i, m1, f1);
                    },
                    _ => {},
                }
            }
        },
        _ => {},
    }
}

/// A run of a sequence never returns more fuel than it was given.
pub proof fn lemma_run_seq_fuel(s: Seq<Instruction>, m: MachineView, fuel: nat)
    ensures
        run_seq(s, m, fuel) matches Outcome::Done(m1, f1) ==> f1 <= fuel,
    decreases fuel, s,
{
    if s.len() > 0 {
        lemma_run_instr_fuel(s[0], m, fuel);
        match run_instr(s[0], m, fuel) {
            Outcome::Done(m1, f1) => {
                lemma_run_seq_fuel(s.subrange(1, s.len() as int), m1, f1);
            },
            _ => {},
        }
    }
}

/// Running a concatenation runs the first part, then the second from where
/// the first stopped.
pub proof fn lemma_run_seq_append(
    s1: Seq<Instruction>,
    s2: Seq<Instruction>,
    m: MachineView,
    fuel: nat,
)
    ensures
        run_seq(s1 + s2, m, fuel) == (match run_seq(s1, m, fuel) {
            Outcome::Done(m1, f1) => run_seq(s2, m1, f1),
            o => o,
        }),
    decreases s1.len(),
{
    if s1.len() == 0 {
        assert(s1 + s2 =~= s2);
    } else {
        assert((s1 + s2)[0] == s1[0]);
        lemma_run_instr_fuel(s1[0], m, fuel);
        match run_instr(s1[0], m, fuel) {
            Outcome::Done(m1, f1) => {
                assert((s1 + s2).subrange(1, (s1 + s2).len() as int) =~= s1.subrange(
                    1,
                    s1.len() as int,
                ) + s2);
                lemma_run_seq_append(s1.subrange(1, s1.len() as int), s2, m1, f1);
            },
            _ => {},
        }
    }
}

/// Running a single instruction as a sequence is running the instruction.
pub proof fn lemma_run_seq_one(i: Instruction, m: MachineView, fuel: nat)
    ensures
        run_seq(seq![i], m, fuel) == run_instr(i, m, fuel),
{
    let s = seq![i];
    assert(s[0] == i);
    lemma_run_instr_fuel(i, m, fuel);
    match run_instr(i, m, fuel) {
        Outcome::Done(m1, f1) => {
            assert(s.subrange(1, 1) =~= Seq::<Instruction>::empty());
            assert(run_seq(s.subrange(1, 1), m1, f1) == Outcome::Done(m1, f1));
        },
        _ => {},
    }
}

/// Running one more instruction of a prefix: run the shorter prefix, then
/// its last instruction.
pub proof fn lemma_run_seq_take_step(s: Seq<Instruction>, j: int, m: MachineView, fuel: nat)
    requires
        0 <= j < s.len(),
    ensures
        run_seq(s.take(j + 1), m, fuel) == (match run_seq(s.take(j), m, fuel) {
            Outcome::Done(m1, f1) => run_instr(s[j], m1, f1),
            o => o,
        }),
{
    assert(s.take(j + 1) =~= s.take(j) + seq![s[j]]);
    lemma_run_seq_append(s.take(j), seq![s[j]], m, fuel);
    match run_seq(s.take(j), m, fuel) {
        Outcome::Done(m1, f1) => {
            lemma_run_seq_one(s[j], m1, f1);
        },
        _ => {},
    }
}

/// A prefix that stops with a fault or with exhausted fuel decides the
/// whole run.
pub proof fn lemma_run_seq_prefix_stops(s: Seq<Instruction>, j: int, m: MachineView, fuel: nat)
    requires
        0 <= j <= s.len(),
        !(run_seq(s.take(j), m, fuel) matches Outcome::Done(m1, f1)),
    ensures
        run_seq(s, m, fuel) == run_seq(s.take(j), m, fuel),
{
    assert(s =~= s.take(j) + s.subrange(j, s.len() as int));
    lemma_run_seq_append(s.take(j), s.subrange(j, s.len() as int), m, fuel);
}

/// Every element counts no more nodes than its whole sequence.
pub proof fn lemma_seq_size_elem(s: Seq<Instruction>, j: int)
    requires
        0 <= j < s.len(),
    ensures
        instr_size(s[j]) <= seq_size(s),
    decreases j,
{
    let rest = s.subrange(1, s.len() as int);
    if j == 0 {
    } else {
        lemma_seq_size_elem(rest, j - 1);
        assert(s[j] == rest[j - 1]);
    }
}

/// A loop whose guard cell is zero at entry runs zero iterations: the
/// machine and the fuel are left unchanged.
pub proof fn lemma_loop_guard_zero(body: Vec<Instruction>, m: MachineView, fuel: nat)
    requires
        m.tape[m.ptr as int] == 0,
    ensures
        run_instr(Instruction::Loop(body), m, fuel) == Outcome::Done(m, fuel),
{
}

/// An input command executed after the input stream is exhausted leaves the
/// machine unchanged: the pointed-to cell keeps its pre-instruction value.
pub proof fn lemma_read_at_end_of_input(m: MachineView, fuel: nat)
    requires
        m.in_pos == m.input.len(),
    ensures
        run_instr(Instruction::Read, m, fuel) == Outcome::Done(m, fuel),
{
}

/// Cell arithmetic wraps at the 8-bit boundary: incrementing 255 gives 0,
/// decrementing 0 gives 255, and every other value moves by one.
pub proof fn lemma_wrap_around()
    ensures
        inc_byte(255) == 0,
        dec_byte(0) == 255,
        forall|b: u8| b < 255 ==> #[trigger] inc_byte(b) == b + 1,
        forall|b: u8| b > 0 ==> #[trigger] dec_byte(b) == b - 1,
{
}

/// Execute every instruction in order against the machine, recursing into
/// loop bodies, with `fuel` bounding the number of loop iterations.
///
/// The outcome and the machine's new value are exactly those of the
/// specification interpreter [`run_seq`] on the machine's old value.
pub fn brainfuck(instructions: &Vec<Instruction>, m: &mut Machine, fuel: &mut u64) -> (r: Result<
    (),
    ExecError,
>)
    requires
        old(m)@.wf(),
    ensures
        final(m)@.wf(),
        (match r {
            Ok(()) => run_seq(instructions@, old(m)@, *old(fuel) as nat) == Outcome::Done(
                final(m)@,
                *final(fuel) as nat,
            ),
            Err(ExecError::OutOfBounds) => run_seq(instructions@, old(m)@, *old(fuel) as nat)
                == Outcome::Fault,
            Err(ExecError::OutOfFuel) => run_seq(instructions@, old(m)@, *old(fuel) as nat)
                == Outcome::OutOfFuel,
        }),
    decreases seq_size(instructions@),
{
    let ghost s = instructions@;
    let ghost m0 = old(m)@;
    let ghost f0 = *old(fuel) as nat;
    let mut idx: usize = 0;
    while idx < instructions.len()
        invariant
            old(m)@ == m0,
            *old(fuel) as nat == f0,
            s == instructions@,
            m@.wf(),
            idx <= s.len(),
            run_seq(s.take(idx as int), m0, f0) == Outcome::Done(m@, *fuel as nat),
        decreases s.len() - idx,
    {
        proof {
            lemma_run_seq_take_step(s, idx as int, m0, f0);
        }
        match &instructions[idx] {
            Instruction::IncrementPtr => {
                let len: usize = m.tape.len();
                if m.ptr + 1 < len {
                    m.ptr = m.ptr + 1;
                } else {
                    proof {
                        lemma_run_seq_prefix_stops(s, idx as int + 1, m0, f0);
                    }
                    return Err(ExecError::OutOfBounds);
                }
            },
            Instruction::DecrementPtr => {
                if m.ptr > 0 {
                    m.ptr = m.ptr - 1;
                } else {
                    proof {
                        lemma_run_seq_prefix_stops(s, idx as int + 1, m0, f0);
                    }
                    return Err(ExecError::OutOfBounds);
                }
            },
            Instruction::Increment => {
                let v: u8 = m.tape[m.ptr];
                let w: u8 = byte_inc(v);
                m.tape.set(m.ptr, w);
            },
            Instruction::Decrement => {
                let v: u8 = m.tape[m.ptr];
                let w: u8 = byte_dec(v);
                m.tape.set(m.ptr, w);
            },
            Instruction::Write => {
                let v: u8 = m.tape[m.ptr];
                m.output.push(v);
            },
            Instruction::Read => {
                if m.in_pos < m.input.len() {
                    let b: u8 = m.input[m.in_pos];
                    m.tape.set(m.ptr, b);
                    m.in_pos = m.in_pos + 1;
                }
            },
            Instruction::Loop(body) => {
                proof {
                    assert(s[idx as int] == Instruction::Loop(*body));
                    lemma_seq_size_elem(s, idx as int);
                }
                while m.tape[m.ptr] != 0
                    invariant
                        old(m)@ == m0,
                        *old(fuel) as nat == f0,
                        s == instructions@,
                        m@.wf(),
                        0 <= idx < s.len(),
                        s[idx as int] == Instruction::Loop(*body),
                        seq_size(body@) < seq_size(s),
                        run_seq(s.take(idx as int + 1), m0, f0) == run_instr(
                            s[idx as int],
                            m@,
                            *fuel as nat,
                        ),
                    decreases *fuel,
                {
                    if *fuel == 0 {
                        proof {
                            lemma_run_seq_prefix_stops(s, idx as int + 1, m0, f0);
                        }
                        return Err(ExecError::OutOfFuel);
                    }
                    let ghost m_it = m@;
                    let ghost f_cur = *fuel as nat;
                    *fuel = *fuel - 1;
                    match brainfuck(body, m, fuel) {
                        Ok(()) => {
                            proof {
                                lemma_run_seq_fuel(body@, m_it, (f_cur - 1) as nat);
                                assert(run_instr(s[idx as int], m_it, f_cur) == run_instr(
                                    s[idx as int],
                                    m@,
                                    *fuel as nat,
                                ));
                            }
                        },
                        Err(e) => {
                            proof {
                                assert(run_seq(s.take(idx as int + 1), m0, f0) == run_instr(
                                    s[idx as int],
                                    m_it,
                                    f_cur,
                                ));
                                lemma_run_seq_prefix_stops(s, idx as int + 1, m0, f0);
                            }
                            return Err(e);
                        },
                    }
                }
                proof {
                    assert(run_instr(s[idx as int], m@, *fuel as nat) == Outcome::Done(
                        m@,
                        *fuel as nat,
                    ));
                }
            },
        }
        idx = idx + 1;
    }
    proof {
        assert(s.take(s.len() as int) =~= s);
    }
    Ok(())
}

} // verus!
