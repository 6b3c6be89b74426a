//! The eight primitive instructions, their parser, and an interpreter that
//! executes them one by one.

use crate::machine::{Input, Machine, TAPE_LEN};
use crate::nesting::{closer, depth, lemma_depth_bounds, lemma_depth_split, matched, opener, Bracket};
use vstd::prelude::*;

verus! {

/// The eight Brainfuck instructions.
#[derive(Debug, PartialEq, Eq, Clone, Copy, Structural)]
pub enum Instruction {
    /// Moves the data pointer one cell to the right.
    IncrementPointer,
    /// Moves the data pointer one cell to the left.
    DecrementPointer,
    /// Adds one to the current cell.
    IncrementByte,
    /// Subtracts one from the current cell.
    DecrementByte,
    /// Writes the current cell to the output.
    OutputByte,
    /// Reads one byte of input into the current cell.
    ReadByte,
    /// Jumps to the matching `JumpBackwardsIfNotZero` if the current cell is zero.
    JumpForwardsIfZero,
    /// Jumps to the matching `JumpForwardsIfZero` if the current cell is not zero.
    JumpBackwardsIfNotZero,
}

/// The instruction that a source byte stands for, if it stands for one.
pub open spec fn decode(byte: u8) -> Option<Instruction> {
    if byte == 0x3e {
        Some(Instruction::IncrementPointer)
    } else if byte == 0x3c {
        Some(Instruction::DecrementPointer)
    } else if byte == 0x2b {
        Some(Instruction::IncrementByte)
    } else if byte == 0x2d {
        Some(Instruction::DecrementByte)
    } else if byte == 0x2e {
        Some(Instruction::OutputByte)
    } else if byte == 0x2c {
        Some(Instruction::ReadByte)
    } else if byte == 0x5b {
        Some(Instruction::JumpForwardsIfZero)
    } else if byte == 0x5d {
        Some(Instruction::JumpBackwardsIfNotZero)
    } else {
        None
    }
}

/// Whether a source byte is one of the eight instruction characters.
pub open spec fn in_alphabet(byte: u8) -> bool {
    decode(byte).is_some()
}

/// The program that a source text denotes: its instruction characters in
/// order, everything else dropped.
pub open spec fn parsed(source: Seq<u8>) -> Seq<Instruction> {
    source.filter_map(|byte: u8| decode(byte))
}

fn decode_byte(byte: u8) -> (instruction: Option<Instruction>)
    ensures
        instruction == decode(byte),
{
    match byte {
        0x3e => Some(Instruction::IncrementPointer),
        0x3c => Some(Instruction::DecrementPointer),
        0x2b => Some(Instruction::IncrementByte),
        0x2d => Some(Instruction::DecrementByte),
        0x2e => Some(Instruction::OutputByte),
        0x2c => Some(Instruction::ReadByte),
        0x5b => Some(Instruction::JumpForwardsIfZero),
        0x5d => Some(Instruction::JumpBackwardsIfNotZero),
        _ => None,
    }
}

/// Parses Brainfuck source text. Bytes outside the alphabet are comments.
pub fn parse(stream: &[u8]) -> (program: Vec<Instruction>)
    ensures
        program@ == parsed(stream@),
{
    let mut program: Vec<Instruction> = Vec::new();
    let mut i: usize = 0;
    while i < stream.len()
        invariant
            i <= stream.len(),
            program@ == parsed(stream@.take(i as int)),
        decreases stream.len() - i,
    {
        proof {
            stream@.lemma_filter_map_take_succ(|byte: u8| decode(byte), i as int);
        }
        match decode_byte(stream[i]) {
            Some(instruction) => program.push(instruction),
            None => {},
        }
        i = i + 1;
    }
    assert(stream@.take(i as int) =~= stream@);
    program
}

/// Parsing sees only the instruction characters: a source text and the same
/// text with every other byte removed denote the same program.
pub proof fn lemma_parse_ignores_comments(source: Seq<u8>)
    ensures
        parsed(source.filter(|byte: u8| in_alphabet(byte))) == parsed(source),
    decreases source.len(),
{
    let keep = |byte: u8| in_alphabet(byte);
    reveal(Seq::filter);
    if source.len() > 0 {
        let front = source.drop_last();
        lemma_parse_ignores_comments(front);
        if in_alphabet(source.last()) {
            let kept = front.filter(keep).push(source.last());
            assert(kept.drop_last() =~= front.filter(keep));
        }
    }
}

/// The role of an instruction in the loop structure.
pub open spec fn bracket(instruction: Instruction) -> Bracket {
    match instruction {
        Instruction::JumpForwardsIfZero => Bracket::Open,
        Instruction::JumpBackwardsIfNotZero => Bracket::Close,
        _ => Bracket::Neither,
    }
}

/// The loop structure of a program.
pub open spec fn shape(program: Seq<Instruction>) -> Seq<Bracket> {
    Seq::new(program.len(), |i: int| bracket(program[i]))
}

/// Why the interpreter stopped before the end of the program.
#[derive(Debug, PartialEq, Eq, Clone, Copy, Structural)]
pub enum VmError {
    /// A jump was to be taken whose bracket has no partner.
    NoMatchingJump,
    /// The data pointer was to be moved off the tape.
    PointerOutOfBounds,
}

/// Whether the machine has run past the last instruction.
pub open spec fn halted(program: Seq<Instruction>, m: Machine) -> bool {
    m.pc >= program.len()
}

/// What one instruction does to the machine, or the error that stops it.
pub open spec fn step_of(program: Seq<Instruction>, m: Machine) -> Result<Machine, VmError>
    recommends
        m.wf(),
        !halted(program, m),
{
    match program[m.pc] {
        Instruction::IncrementPointer => if m.pointer + 1 < TAPE_LEN {
            Ok(m.shift(1))
        } else {
            Err(VmError::PointerOutOfBounds)
        },
        Instruction::DecrementPointer => if m.pointer >= 1 {
            Ok(m.shift(-1))
        } else {
            Err(VmError::PointerOutOfBounds)
        },
        Instruction::IncrementByte => Ok(m.bump(1)),
        Instruction::DecrementByte => Ok(m.bump(-1)),
        Instruction::OutputByte => Ok(m.emit()),
        Instruction::ReadByte => Ok(m.absorb()),
        Instruction::JumpForwardsIfZero => if m.cell() != 0 {
            Ok(m.advance())
        } else {
            match closer(shape(program), m.pc) {
                Some(close) => Ok(m.jump(close)),
                None => Err(VmError::NoMatchingJump),
            }
        },
        Instruction::JumpBackwardsIfNotZero => if m.cell() == 0 {
            Ok(m.advance())
        } else {
            match opener(shape(program), m.pc) {
                Some(open) => Ok(m.jump(open)),
                None => Err(VmError::NoMatchingJump),
            }
        },
    }
}

/// Where a run of at most `fuel` instructions leaves the machine.
pub struct Outcome {
    /// The state after the last instruction that was executed.
    pub machine: Machine,
    /// The error that stopped the run, if one did.
    pub error: Option<VmError>,
}

/// The run of a program from `m`: it ends when the program has halted, when
/// an instruction fails, or after `fuel` instructions.
pub open spec fn run(program: Seq<Instruction>, m: Machine, fuel: nat) -> Outcome
    decreases fuel,
{
    if fuel == 0 || halted(program, m) {
        Outcome { machine: m, error: None }
    } else {
        match step_of(program, m) {
            Ok(next) => run(program, next, (fuel - 1) as nat),
            Err(error) => Outcome { machine: m, error: Some(error) },
        }
    }
}

/// An interpreter of primitive instructions. It finds the partner of a
/// bracket by scanning the program each time a jump is taken.
pub struct Vm {
    program: Vec<Instruction>,
    program_counter: usize,
    cells: [u8; 30000],
    data_pointer: usize,
}

impl Vm {
    /// The data pointer is on the tape.
    #[verifier::type_invariant]
    closed spec fn inv(&self) -> bool {
        self.data_pointer < TAPE_LEN
    }

    /// The program that this interpreter runs.
    pub closed spec fn program(&self) -> Seq<Instruction> {
        self.program@
    }

    /// Index of the next instruction.
    pub closed spec fn pc(&self) -> int {
        self.program_counter as int
    }

    /// Index of the current cell.
    pub closed spec fn pointer(&self) -> int {
        self.data_pointer as int
    }

    /// The tape.
    pub closed spec fn tape(&self) -> Seq<u8> {
        self.cells@
    }

    /// The state of the machine, given what is left of the input and what
    /// has been written.
    pub open spec fn machine(&self, input: Seq<u8>, output: Seq<u8>) -> Machine {
        Machine { pc: self.pc(), pointer: self.pointer(), cells: self.tape(), input, output }
    }

    /// An interpreter at the start of `program`, with a zeroed tape.
    pub fn new(program: Vec<Instruction>) -> (vm: Vm)
        ensures
            vm.program() == program@,
            forall|input: Seq<u8>| #[trigger]
                vm.machine(input, Seq::empty()) == Machine::initial(input),
    {
        let vm = Vm { program, program_counter: 0, cells: [0u8; 30000], data_pointer: 0 };
        assert(vm.cells@ =~= Machine::initial(Seq::empty()).cells);
        vm
    }

    /// Whether the program has run to its end.
    pub fn halted(&self) -> (done: bool)
        ensures
            done == (self.pc() >= self.program().len()),
    {
        self.program_counter >= self.program.len()
    }

    /// Whether the next instruction reads a byte of input.
    pub fn wants_input(&self) -> (wanted: bool)
        ensures
            wanted == (0 <= self.pc() < self.program().len() && self.program()[self.pc()]
                == Instruction::ReadByte),
    {
        self.program_counter < self.program.len() && self.program[self.program_counter]
            == Instruction::ReadByte
    }

    /// The cells of the tape.
    pub fn cells(&self) -> (cells: &[u8; 30000])
        ensures
            cells@ == self.tape(),
    {
        &self.cells
    }

    /// The index of the closing bracket of the loop that opens at the
    /// program counter.
    fn scan_forwards(&self) -> (found: Option<usize>)
        requires
            self.program_counter < self.program@.len(),
            self.program@[self.program_counter as int] == Instruction::JumpForwardsIfZero,
        ensures
            found.is_some() ==> closer(shape(self.program@), self.program_counter as int) == Some(
                found.unwrap() as int,
            ),
            found.is_none() ==> closer(shape(self.program@), self.program_counter as int).is_none(),
    {
        let ghost sh = shape(self.program@);
        let ghost pc = self.program_counter as int;
        let len = self.program.len();
        let mut opened: usize = 1;
        let mut jump: usize = self.program_counter;
        assert(depth(sh, pc, pc + 1) == 1) by {
            assert(depth(sh, pc, pc) == 0);
        }
        loop
            invariant
                sh == shape(self.program@),
                pc == self.program_counter,
                pc <= jump < self.program@.len() == len,
                opened == depth(sh, pc, jump + 1),
                sh[pc] == Bracket::Open,
                forall|k: int| pc < k <= jump + 1 ==> depth(sh, pc, k) > 0,
            decreases self.program@.len() - jump,
        {
            jump = jump + 1;
            if jump >= len {
                proof {
                    reveal(matched);
                    assert forall|close: int| !matched(sh, pc, close) by {
                        if matched(sh, pc, close) {
                            assert(depth(sh, pc, close + 1) > 0);
                        }
                    }
                }
                return None;
            }
            proof {
                lemma_depth_bounds(sh, pc, jump as int);
            }
            match self.program[jump] {
                Instruction::JumpForwardsIfZero => {
                    opened = opened + 1;
                },
                Instruction::JumpBackwardsIfNotZero => {
                    opened = opened - 1;
                },
                _ => {},
            }
            if opened == 0 {
                proof {
                    reveal(matched);
                    crate::nesting::lemma_closer_is(sh, pc, jump as int);
                }
                return Some(jump);
            }
        }
    }

    /// The index of the opening bracket of the loop that closes at the
    /// program counter.
    fn scan_backwards(&self) -> (found: Option<usize>)
        requires
            self.program_counter < self.program@.len(),
            self.program@[self.program_counter as int] == Instruction::JumpBackwardsIfNotZero,
        ensures
            found.is_some() ==> opener(shape(self.program@), self.program_counter as int) == Some(
                found.unwrap() as int,
            ),
            found.is_none() ==> opener(shape(self.program@), self.program_counter as int).is_none(),
    {
        let ghost sh = shape(self.program@);
        let ghost pc = self.program_counter as int;
        let ghost end = pc + 1;
        let len = self.program.len();
        let mut closed: usize = 1;
        let mut jump: usize = self.program_counter;
        assert(depth(sh, pc, pc + 1) == -1) by {
            assert(depth(sh, pc, pc) == 0);
        }
        loop
            invariant
                sh == shape(self.program@),
                pc == self.program_counter,
                end == pc + 1,
                0 <= jump <= pc < self.program@.len() == len,
                closed == -depth(sh, jump as int, pc + 1),
                sh[pc] == Bracket::Close,
                forall|k: int| jump <= k <= pc ==> depth(sh, k, end) < 0,
            decreases jump,
        {
            if jump == 0 {
                proof {
                    reveal(matched);
                    assert forall|open: int| !matched(sh, open, pc) by {
                        if matched(sh, open, pc) {
                            assert(depth(sh, open, pc + 1) < 0);
                        }
                    }
                }
                return None;
            }
            jump = jump - 1;
            proof {
                lemma_depth_bounds(sh, jump + 1, pc + 1);
                lemma_depth_split(sh, jump as int, jump + 1, pc + 1);
                assert(depth(sh, jump as int, jump + 1) == weight_at(sh, jump as int)) by {
                    assert(depth(sh, jump as int, jump as int) == 0);
                }
            }
            match self.program[jump] {
                Instruction::JumpForwardsIfZero => {
                    closed = closed - 1;
                },
                Instruction::JumpBackwardsIfNotZero => {
                    closed = closed + 1;
                },
                _ => {},
            }
            if closed == 0 {
                proof {
                    reveal(matched);
                    assert forall|k: int| jump < k <= pc implies depth(sh, jump as int, k) > 0 by {
                        lemma_depth_split(sh, jump as int, k, pc + 1);
                    }
                    crate::nesting::lemma_opener_is(sh, jump as int, pc);
                }
                return Some(jump);
            }
        }
    }

    /// Executes one instruction. On an error nothing changes.
    pub fn step(&mut self, input: &mut Input, output: &mut Vec<u8>) -> (result: Result<
        (),
        VmError,
    >)
        requires
            !halted(old(self).program(), old(self).machine(old(input)@, old(output)@)),
        ensures
            final(self).program() == old(self).program(),
            match step_of(old(self).program(), old(self).machine(old(input)@, old(output)@)) {
                Ok(next) => result is Ok && final(self).machine(final(input)@, final(output)@)
                    == next,
                Err(error) => result == Err::<(), VmError>(error) && final(self).machine(
                    final(input)@,
                    final(output)@,
                ) == old(self).machine(old(input)@, old(output)@),
            },
    {
        proof {
            use_type_invariant(&*self);
        }
        let len = self.program.len();
        let instruction = self.program[self.program_counter];
        match instruction {
            Instruction::IncrementPointer => {
                if self.data_pointer + 1 >= TAPE_LEN {
                    return Err(VmError::PointerOutOfBounds);
                }
                self.data_pointer = self.data_pointer + 1;
                self.program_counter = self.program_counter + 1;
            },
            Instruction::DecrementPointer => {
                if self.data_pointer == 0 {
                    return Err(VmError::PointerOutOfBounds);
                }
                self.data_pointer = self.data_pointer - 1;
                self.program_counter = self.program_counter + 1;
            },
            Instruction::IncrementByte => {
                let byte = self.cells[self.data_pointer];
                self.cells[self.data_pointer] = byte.wrapping_add(1);
                self.program_counter = self.program_counter + 1;
            },
            Instruction::DecrementByte => {
                let byte = self.cells[self.data_pointer];
                self.cells[self.data_pointer] = byte.wrapping_sub(1);
                self.program_counter = self.program_counter + 1;
            },
            Instruction::OutputByte => {
                output.push(self.cells[self.data_pointer]);
                self.program_counter = self.program_counter + 1;
            },
            Instruction::ReadByte => {
                let byte = match input.read() {
                    Some(byte) => byte,
                    None => 0,
                };
                self.cells[self.data_pointer] = byte;
                self.program_counter = self.program_counter + 1;
            },
            Instruction::JumpForwardsIfZero => {
                if self.cells[self.data_pointer] == 0 {
                    match self.scan_forwards() {
                        Some(jump) => {
                            self.program_counter = jump;
                        },
                        None => {
                            return Err(VmError::NoMatchingJump);
                        },
                    }
                } else {
                    self.program_counter = self.program_counter + 1;
                }
            },
            Instruction::JumpBackwardsIfNotZero => {
                if self.cells[self.data_pointer] != 0 {
                    match self.scan_backwards() {
                        Some(jump) => {
                            self.program_counter = jump;
                        },
                        None => {
                            return Err(VmError::NoMatchingJump);
                        },
                    }
                } else {
                    self.program_counter = self.program_counter + 1;
                }
            },
        }
        Ok(())
    }

    /// Runs the program until it halts or fails, but for at most `max_steps`
    /// instructions. A failing instruction leaves the machine as it was
    /// before it. Whether the program has halted is what `halted` tells.
    pub fn vm_loop(&mut self, input: &mut Input, output: &mut Vec<u8>, max_steps: u64) -> (result:
        Result<(), VmError>)
        ensures
            final(self).program() == old(self).program(),
            ({
                let outcome = run(
                    old(self).program(),
                    old(self).machine(old(input)@, old(output)@),
                    max_steps as nat,
                );
                &&& final(self).machine(final(input)@, final(output)@) == outcome.machine
                &&& match outcome.error {
                    Some(error) => result == Err::<(), VmError>(error),
                    None => result is Ok,
                }
            }),
    {
        let ghost program = self.program();
        let ghost start = self.machine(input@, output@);
        let mut steps: u64 = 0;
        while steps < max_steps && !self.halted()
            invariant
                steps <= max_steps,
                self.program() == program,
                program == old(self).program(),
                start == old(self).machine(old(input)@, old(output)@),
                run(program, start, max_steps as nat) == run(
                    program,
                    self.machine(input@, output@),
                    (max_steps - steps) as nat,
                ),
            decreases max_steps - steps,
        {
            match self.step(input, output) {
                Ok(()) => {},
                Err(error) => {
                    return Err(error);
                },
            }
            steps = steps + 1;
        }
        Ok(())
    }
}

spec fn weight_at(shape: Seq<Bracket>, i: int) -> int {
    crate::nesting::weight(shape[i])
}

} // verus!
