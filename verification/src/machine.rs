//! The abstract machine that both interpreters implement, and the byte
//! source that programs read from.

use vstd::prelude::*;

verus! {

/// Number of cells on the tape.
pub const TAPE_LEN: usize = 30000;

/// The whole observable state of a running program.
pub struct Machine {
    /// Index of the next instruction.
    pub pc: int,
    /// Index of the current cell.
    pub pointer: int,
    /// The tape, `TAPE_LEN` cells.
    pub cells: Seq<u8>,
    /// The bytes that the program has not read yet.
    pub input: Seq<u8>,
    /// The bytes that the program has written so far.
    pub output: Seq<u8>,
}

impl Machine {
    /// The state before the first instruction: a zeroed tape, nothing written.
    pub open spec fn initial(input: Seq<u8>) -> Machine {
        Machine {
            pc: 0,
            pointer: 0,
            cells: Seq::new(TAPE_LEN as nat, |i: int| 0u8),
            input,
            output: Seq::empty(),
        }
    }

    /// The tape has its full length and the pointer is on it.
    pub open spec fn wf(self) -> bool {
        &&& self.pc >= 0
        &&& self.cells.len() == TAPE_LEN
        &&& 0 <= self.pointer < TAPE_LEN
    }

    /// The value of the current cell.
    pub open spec fn cell(self) -> u8
        recommends
            self.wf(),
    {
        self.cells[self.pointer]
    }

    /// The machine with the next instruction skipped.
    pub open spec fn advance(self) -> Machine {
        Machine { pc: self.pc + 1, ..self }
    }

    /// The machine after a jump to `pc`.
    pub open spec fn jump(self, pc: int) -> Machine {
        Machine { pc, ..self }
    }

    /// The machine after moving the pointer by `delta` cells.
    pub open spec fn shift(self, delta: int) -> Machine {
        Machine { pc: self.pc + 1, pointer: self.pointer + delta, ..self }
    }

    /// The machine after adding `delta` to the current cell, modulo 256.
    pub open spec fn bump(self, delta: int) -> Machine {
        Machine {
            pc: self.pc + 1,
            cells: self.cells.update(self.pointer, wrap_cell(self.cell() + delta)),
            ..self
        }
    }

    /// The machine after writing the current cell to the output.
    pub open spec fn emit(self) -> Machine {
        Machine { pc: self.pc + 1, output: self.output.push(self.cell()), ..self }
    }

    /// The machine after reading one byte into the current cell. At the end
    /// of the input the cell becomes zero.
    pub open spec fn absorb(self) -> Machine {
        if self.input.len() > 0 {
            Machine {
                pc: self.pc + 1,
                cells: self.cells.update(self.pointer, self.input[0]),
                input: self.input.skip(1),
                ..self
            }
        } else {
            Machine { pc: self.pc + 1, cells: self.cells.update(self.pointer, 0u8), ..self }
        }
    }
}

/// The byte that stands for `value` in a cell: `value` modulo 256.
pub open spec fn wrap_cell(value: int) -> u8 {
    (value % 256) as u8
}

/// A finite source of input bytes, read front to back.
pub struct Input {
    bytes: Vec<u8>,
    cursor: usize,
}

impl View for Input {
    type V = Seq<u8>;

    /// The bytes that have not been read yet.
    closed spec fn view(&self) -> Seq<u8> {
        self.bytes@.skip(self.cursor as int)
    }
}

impl Input {
    /// The cursor has not passed the end of the bytes.
    #[verifier::type_invariant]
    closed spec fn inv(&self) -> bool {
        self.cursor <= self.bytes@.len()
    }

    /// A source that yields `bytes` in order.
    pub fn new(bytes: Vec<u8>) -> (input: Input)
        ensures
            input@ == bytes@,
    {
        Input { bytes, cursor: 0 }
    }

    /// The number of bytes left.
    pub fn remaining(&self) -> (n: usize)
        ensures
            n == self@.len(),
    {
        proof {
            use_type_invariant(self);
        }
        self.bytes.len() - self.cursor
    }

    /// Takes the next byte, or returns `None` at the end of the input.
    pub fn read(&mut self) -> (byte: Option<u8>)
        ensures
            old(self)@.len() > 0 ==> byte == Some(old(self)@[0]) && final(self)@ == old(self)@.skip(1),
            old(self)@.len() == 0 ==> byte.is_none() && final(self)@ == old(self)@,
    {
        proof {
            use_type_invariant(&*self);
        }
        if self.cursor < self.bytes.len() {
            let byte = self.bytes[self.cursor];
            self.cursor = self.cursor + 1;
            assert(self.bytes@.skip(self.cursor as int) =~= old(self).bytes@.skip(
                old(self).cursor as int,
            ).skip(1));
            Some(byte)
        } else {
            None
        }
    }
}

} // verus!
