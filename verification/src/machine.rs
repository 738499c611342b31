//! The execution context: a fixed-size byte tape, a data pointer, and the
//! input and output streams carried as in-memory byte sequences.

use vstd::prelude::*;

verus! {

/// The mathematical value of a [`Machine`].
pub struct MachineView {
    pub tape: Seq<u8>,
    pub ptr: nat,
    pub input: Seq<u8>,
    pub in_pos: nat,
    pub output: Seq<u8>,
}

impl MachineView {
    /// The data pointer is on the tape and the input cursor is within the
    /// input stream.
    pub open spec fn wf(self) -> bool {
        self.ptr < self.tape.len() && self.in_pos <= self.input.len()
    }
}

/// One run's mutable execution context: the byte tape, the data pointer, the
/// input stream with a cursor marking how much is consumed, and the output
/// emitted so far.
pub struct Machine {
    pub tape: Vec<u8>,
    pub ptr: usize,
    pub input: Vec<u8>,
    pub in_pos: usize,
    pub output: Vec<u8>,
}

impl View for Machine {
    type V = MachineView;

    open spec fn view(&self) -> MachineView {
        MachineView {
            tape: self.tape@,
            ptr: self.ptr as nat,
            input: self.input@,
            in_pos: self.in_pos as nat,
            output: self.output@,
        }
    }
}

impl Machine {
    /// A fresh machine: `tape_len` zeroed cells, the pointer at `start`, the
    /// given input, nothing consumed and nothing written yet.
    pub fn new(tape_len: usize, start: usize, input: Vec<u8>) -> (m: Machine)
        requires
            start < tape_len,
        ensures
            m@.wf(),
            m@.tape.len() == tape_len,
            forall|j: int| 0 <= j < tape_len ==> m@.tape[j] == 0u8,
            m@.ptr == start,
            m@.input == input@,
            m@.in_pos == 0,
            m@.output == Seq::<u8>::empty(),
    {
        let mut tape: Vec<u8> = Vec::new();
        let mut k: usize = 0;
        while k < tape_len
            invariant
                k <= tape_len,
                tape@.len() == k,
                forall|j: int| 0 <= j < k ==> tape@[j] == 0u8,
            decreases tape_len - k,
        {
            tape.push(0);
            k = k + 1;
        }
        Machine { tape, ptr: start, input, in_pos: 0, output: Vec::new() }
    }
}

/// A cell value after an 8-bit modular (wrap-around) increment.
pub open spec fn inc_byte(b: u8) -> u8 {
    ((b + 1) % 256) as u8
}

/// A cell value after an 8-bit modular (wrap-around) decrement.
pub open spec fn dec_byte(b: u8) -> u8 {
    ((b + 255) % 256) as u8
}

/// Wrapping increment: 255 wraps to 0.
pub fn byte_inc(b: u8) -> (r: u8)
    ensures
        r == inc_byte(b),
{
    if b == 255 {
        0
    } else {
        b + 1
    }
}

/// Wrapping decrement: 0 wraps to 255.
pub fn byte_dec(b: u8) -> (r: u8)
    ensures
        r == dec_byte(b),
{
    if b == 0 {
        255
    } else {
        b - 1
    }
}

} // verus!
