//! The x86_64 code generator: it turns a program of the intermediate
//! representation into the bytes of a native function.
//!
//! The function follows the System V calling convention. It takes the tape
//! in `rdi`, the output routine and its argument in `rsi` and `rdx`, the
//! input routine and its argument in `rcx` and `r8`. `rdi` is the data
//! pointer throughout.

pub mod layout;
pub mod x86;

use crate::ir::{lemma_partner, well_formed, Instruction};
use layout::{
    call_out_code, code_end, code_len, delta_code, displacement_of, epilogue, filled_from, fits,
    instruction_code, is_jump, jump_site, laid_out, lemma_code_len, lemma_image_complete,
    lemma_code_of, lemma_frame_laid_out, lemma_frame_len, lemma_jump_patched,
    lemma_offsets_increase, lemma_overwritten_twice, lemma_region_appended, lemma_tail_appended, native_image, offset_of, partial_rel, partner, prologue, rel_bits, rel_of,
    step_code, steps_code, MAX_STEP, PLACEHOLDER,
};
use std::collections::BTreeMap;
use vstd::prelude::*;
use x86::{compare_code, je_code, jne_code, le_bytes, overwritten, to_le_bytes, Emitter, Register};

verus! {

/// The size of a page of memory.
pub const PAGE_SIZE: usize = 4096;

/// The number of pages that `transform` gives a program.
pub const PROGRAM_PAGES: usize = 8;

/// The byte that fills the unused part of a program: a `ret`, so that code
/// which runs off its end returns.
pub const FILL: u8 = 0xc3;

/// What may be done with the pages of a program.
#[derive(Debug, PartialEq, Eq, Clone, Copy, Structural)]
pub enum Protection {
    /// Nothing: the pages can be neither read nor written nor run.
    Locked,
    /// The pages can be read and written.
    Writable,
    /// The pages can be read and run.
    Executable,
}

impl Protection {
    /// Whether the pages may be read.
    pub open spec fn allows_read(self) -> bool {
        self != Protection::Locked
    }

    /// Whether the pages may be written.
    pub open spec fn allows_write(self) -> bool {
        self == Protection::Writable
    }

    /// Whether the pages may be run.
    pub open spec fn allows_execute(self) -> bool {
        self == Protection::Executable
    }

    /// Whether the pages may be read.
    pub fn readable(self) -> (allowed: bool)
        ensures
            allowed == self.allows_read(),
    {
        match self {
            Protection::Locked => false,
            Protection::Writable => true,
            Protection::Executable => true,
        }
    }

    /// Whether the pages may be written.
    pub fn writable(self) -> (allowed: bool)
        ensures
            allowed == self.allows_write(),
    {
        match self {
            Protection::Locked => false,
            Protection::Writable => true,
            Protection::Executable => false,
        }
    }

    /// Whether the pages may be run.
    pub fn executable(self) -> (allowed: bool)
        ensures
            allowed == self.allows_execute(),
    {
        match self {
            Protection::Locked => false,
            Protection::Writable => false,
            Protection::Executable => true,
        }
    }
}

/// No pages are writable and executable at once.
pub proof fn lemma_write_xor_execute(protection: Protection)
    ensures
        !(protection.allows_write() && protection.allows_execute()),
{
}

/// The memory of a native program while nobody may touch it. To write to it
/// turn it into a `SliceableProgram`, to run it into a `CallableProgram`:
/// each takes the program over, so it is never writable and executable at
/// once.
pub struct Program {
    contents: Vec<u8>,
}

impl View for Program {
    type V = Seq<u8>;

    /// The bytes of the program.
    closed spec fn view(&self) -> Seq<u8> {
        self.contents@
    }
}

impl Program {
    /// A program of `size` pages, every byte a `ret`.
    pub fn new(size: usize) -> (program: Program)
        requires
            size * PAGE_SIZE <= usize::MAX,
        ensures
            program@.len() == size * PAGE_SIZE,
            forall|i: int| 0 <= i < program@.len() ==> program@[i] == FILL,
    {
        let size = size * PAGE_SIZE;
        Program { contents: vec![FILL; size] }
    }

    /// The protection that the pages of the program have: none.
    pub fn protection(&self) -> (protection: Protection)
        ensures
            protection == Protection::Locked,
    {
        Protection::Locked
    }

    /// Makes the program writable.
    pub fn into_sliceable(self) -> (sliceable: SliceableProgram)
        ensures
            sliceable@ == self@,
    {
        SliceableProgram::new(self)
    }

    /// Makes the program executable.
    pub fn into_callable(self) -> (callable: CallableProgram)
        ensures
            callable@ == self@,
    {
        CallableProgram::new(self)
    }
}

/// A native program that can be read and written, and not run.
pub struct SliceableProgram {
    program: Program,
}

impl View for SliceableProgram {
    type V = Seq<u8>;

    /// The bytes of the program.
    closed spec fn view(&self) -> Seq<u8> {
        self.program@
    }
}

impl SliceableProgram {
    /// Makes `program` writable.
    pub fn new(program: Program) -> (sliceable: SliceableProgram)
        ensures
            sliceable@ == program@,
    {
        SliceableProgram { program }
    }

    /// The protection that the pages of the program have: read and write.
    pub fn protection(&self) -> (protection: Protection)
        ensures
            protection == Protection::Writable,
    {
        Protection::Writable
    }

    /// The bytes of the program.
    pub fn as_slice(&self) -> (slice: &[u8])
        ensures
            slice@ == self@,
    {
        self.program.contents.as_slice()
    }

    /// The bytes of the program, to be written to.
    pub fn as_mut_slice(&mut self) -> (slice: &mut [u8])
        ensures
            slice@ == old(self)@,
            final(self)@ == final(slice)@,
    {
        self.program.contents.as_mut_slice()
    }

    /// Takes the write access away again.
    pub fn lock(self) -> (program: Program)
        ensures
            program@ == self@,
    {
        self.program
    }
}

/// A native program that can be run, and not written.
pub struct CallableProgram {
    program: Program,
}

impl View for CallableProgram {
    type V = Seq<u8>;

    /// The bytes of the program.
    closed spec fn view(&self) -> Seq<u8> {
        self.program@
    }
}

impl CallableProgram {
    /// Makes `program` executable.
    pub fn new(program: Program) -> (callable: CallableProgram)
        ensures
            callable@ == program@,
    {
        CallableProgram { program }
    }

    /// The protection that the pages of the program have: read and execute.
    pub fn protection(&self) -> (protection: Protection)
        ensures
            protection == Protection::Executable,
    {
        Protection::Executable
    }

    /// The machine code, for the loader.
    pub fn code(&self) -> (code: &[u8])
        ensures
            code@ == self@,
    {
        self.program.contents.as_slice()
    }

    /// Takes the right to run the program away again.
    pub fn lock(self) -> (program: Program)
        ensures
            program@ == self@,
    {
        self.program
    }
}

/// Why a program cannot be turned into machine code.
#[derive(Debug, PartialEq, Eq, Clone, Copy, Structural)]
pub enum TransformError {
    /// The machine code does not fit the memory of the program.
    EmitterOverflow,
    /// A jump is too long for a displacement of 32 bits.
    DisplacementOverflow,
}

/// Pieces written one behind the other amount to their concatenation.
proof fn lemma_append_more(
    origin: Seq<u8>,
    start: usize,
    done: Seq<u8>,
    before: Seq<u8>,
    at: usize,
    after: Seq<u8>,
    index: usize,
    piece: Seq<u8>,
)
    requires
        before == overwritten(origin, start as int, done),
        at == start + done.len(),
        Emitter::appended(before, at, after, index, piece),
        index <= origin.len(),
    ensures
        Emitter::appended(origin, start, after, index, done + piece),
{
    lemma_overwritten_twice(origin, start as int, done, piece);
}

/// Appends the additions or subtractions that amount to `delta`.
fn emit_steps(emitter: &mut Emitter<'_>, delta: i32, pointer: bool) -> (result: Result<
    (),
    TransformError,
>)
    requires
        old(emitter).room() >= 0,
    ensures
        match result {
            Ok(()) => Emitter::appended(
                old(emitter).buffer@,
                old(emitter).index,
                final(emitter).buffer@,
                final(emitter).index,
                delta_code(delta as int, pointer),
            ),
            Err(error) => {
                &&& error == TransformError::EmitterOverflow
                &&& delta_code(delta as int, pointer).len() > old(emitter).room()
            },
        },
        final(emitter).buffer@.len() == old(emitter).buffer@.len(),
        final(emitter).room() >= 0,
        final(final(emitter).buffer)@ == final(old(emitter).buffer)@,
{
    let negative = delta < 0;
    let magnitude: i64 = if negative {
        -(delta as i64)
    } else {
        delta as i64
    };
    let size: i64 = if pointer {
        4
    } else {
        3
    };
    let count: i64 = (magnitude + MAX_STEP - 1) / MAX_STEP;
    let room = emitter.remaining();
    proof {
        lemma_steps_len(magnitude as int, negative, pointer);
    }
    if (count * size) as usize > room {
        return Err(TransformError::EmitterOverflow);
    }
    let ghost origin = emitter.buffer@;
    let ghost start = emitter.index;
    let ghost done = Seq::<u8>::empty();
    let mut left: i64 = magnitude;
    assert(done + steps_code(left as int, negative, pointer) =~= steps_code(
        magnitude as int,
        negative,
        pointer,
    ));
    while left > 0
        invariant
            0 <= left <= magnitude,
            size == if pointer {
                4int
            } else {
                3int
            },
            origin == old(emitter).buffer@,
            start == old(emitter).index,
            emitter.buffer@ == overwritten(origin, start as int, done),
            emitter.index == start + done.len(),
            done + steps_code(left as int, negative, pointer) == steps_code(
                magnitude as int,
                negative,
                pointer,
            ),
            start + steps_code(magnitude as int, negative, pointer).len() <= origin.len(),
            final(emitter.buffer)@ == final(old(emitter).buffer)@,
        decreases left,
    {
        let step: i64 = if left > MAX_STEP {
            MAX_STEP
        } else {
            left
        };
        let ghost before = emitter.buffer@;
        let ghost at = emitter.index;
        let ghost piece = step_code(step as u8, negative, pointer);
        proof {
            assert(steps_code(left as int, negative, pointer) == piece + steps_code(
                left - step,
                negative,
                pointer,
            ));
        }
        if pointer {
            if negative {
                emitter.subu8_reg(Register::Rdi, step as u8);
            } else {
                emitter.addu8_reg(Register::Rdi, step as u8);
            }
        } else {
            if negative {
                emitter.subu8_ptr(Register::Rdi, step as u8);
            } else {
                emitter.addu8_ptr(Register::Rdi, step as u8);
            }
        }
        proof {
            lemma_append_more(
                origin,
                start,
                done,
                before,
                at,
                emitter.buffer@,
                emitter.index,
                piece,
            );
            assert((done + piece) + steps_code(left - step, negative, pointer) =~= done + (piece
                + steps_code(left - step, negative, pointer)));
            done = done + piece;
        }
        left = left - step;
    }
    proof {
        assert(done + Seq::<u8>::empty() =~= done);
    }
    Ok(())
}

/// The additions or subtractions that amount to `left` take one
/// instruction for every `MAX_STEP`, and one for what is left over.
proof fn lemma_steps_len(left: int, negative: bool, pointer: bool)
    requires
        0 <= left,
    ensures
        steps_code(left, negative, pointer).len() == ((left + MAX_STEP - 1) / (MAX_STEP as int)) * (
        if pointer {
            4int
        } else {
            3int
        }),
    decreases left,
{
    if left > 0 {
        let step = if left > MAX_STEP {
            MAX_STEP as int
        } else {
            left
        };
        lemma_steps_len(left - step, negative, pointer);
    }
}

/// Appends a call of `routine` with the current cell's address and
/// `argument`.
fn emit_call_out(emitter: &mut Emitter<'_>, argument: Register, routine: Register) -> (result:
    Result<(), TransformError>)
    requires
        old(emitter).room() >= 0,
    ensures
        match result {
            Ok(()) => Emitter::appended(
                old(emitter).buffer@,
                old(emitter).index,
                final(emitter).buffer@,
                final(emitter).index,
                call_out_code(argument, routine),
            ),
            Err(error) => {
                &&& error == TransformError::EmitterOverflow
                &&& call_out_code(argument, routine).len() > old(emitter).room()
            },
        },
        final(emitter).buffer@.len() == old(emitter).buffer@.len(),
        final(emitter).room() >= 0,
        final(final(emitter).buffer)@ == final(old(emitter).buffer)@,
{
    let needed: usize = if routine.code() >= 8 {
        10
    } else {
        9
    };
    if emitter.remaining() < needed {
        return Err(TransformError::EmitterOverflow);
    }
    let ghost origin = emitter.buffer@;
    let ghost start = emitter.index;
    emitter.mov64_reg(Register::Rsi, argument);
    let ghost first = x86::mov_code(Register::Rsi, argument);
    let ghost before = emitter.buffer@;
    let ghost at = emitter.index;
    emitter.push(Register::Rdi);
    let ghost second = first + x86::push_code(Register::Rdi);
    proof {
        lemma_append_more(
            origin,
            start,
            first,
            before,
            at,
            emitter.buffer@,
            emitter.index,
            x86::push_code(Register::Rdi),
        );
    }
    let ghost before = emitter.buffer@;
    let ghost at = emitter.index;
    emitter.call64(routine);
    let ghost third = second + x86::call_code(routine);
    proof {
        lemma_append_more(
            origin,
            start,
            second,
            before,
            at,
            emitter.buffer@,
            emitter.index,
            x86::call_code(routine),
        );
    }
    let ghost before = emitter.buffer@;
    let ghost at = emitter.index;
    emitter.pop(Register::Rdi);
    proof {
        lemma_append_more(
            origin,
            start,
            third,
            before,
            at,
            emitter.buffer@,
            emitter.index,
            x86::pop_code(Register::Rdi),
        );
    }
    Ok(())
}

/// Appends the test of the current cell and a conditional jump with a
/// placeholder for its displacement. Returns where the jump begins.
fn emit_branch(emitter: &mut Emitter<'_>, forward: bool) -> (result: Result<usize, TransformError>)
    requires
        old(emitter).room() >= 0,
    ensures
        match result {
            Ok(site) => {
                &&& site == old(emitter).index + 3
                &&& Emitter::appended(
                    old(emitter).buffer@,
                    old(emitter).index,
                    final(emitter).buffer@,
                    final(emitter).index,
                    compare_code(Register::Rdi, 0) + if forward {
                        je_code(PLACEHOLDER)
                    } else {
                        jne_code(PLACEHOLDER)
                    },
                )
            },
            Err(error) => {
                &&& error == TransformError::EmitterOverflow
                &&& 9 > old(emitter).room()
            },
        },
        final(emitter).buffer@.len() == old(emitter).buffer@.len(),
        final(emitter).room() >= 0,
        final(final(emitter).buffer)@ == final(old(emitter).buffer)@,
{
    if emitter.remaining() < 9 {
        return Err(TransformError::EmitterOverflow);
    }
    let ghost origin = emitter.buffer@;
    let ghost start = emitter.index;
    emitter.cmpu8_ptr(Register::Rdi, 0);
    let ghost first = compare_code(Register::Rdi, 0);
    let ghost before = emitter.buffer@;
    let site = emitter.index;
    if forward {
        emitter.jeu32(PLACEHOLDER);
        proof {
            lemma_append_more(
                origin,
                start,
                first,
                before,
                site,
                emitter.buffer@,
                emitter.index,
                je_code(PLACEHOLDER),
            );
        }
    } else {
        emitter.jneu32(PLACEHOLDER);
        proof {
            lemma_append_more(
                origin,
                start,
                first,
                before,
                site,
                emitter.buffer@,
                emitter.index,
                jne_code(PLACEHOLDER),
            );
        }
    }
    Ok(site)
}

/// Appends the code that saves the registers which the program uses and
/// moves the two routines and their arguments into them.
fn emit_prologue(emitter: &mut Emitter<'_>) -> (result: Result<(), TransformError>)
    requires
        old(emitter).room() >= 0,
    ensures
        match result {
            Ok(()) => Emitter::appended(
                old(emitter).buffer@,
                old(emitter).index,
                final(emitter).buffer@,
                final(emitter).index,
                prologue(),
            ),
            Err(error) => {
                &&& error == TransformError::EmitterOverflow
                &&& prologue().len() > old(emitter).room()
            },
        },
        final(emitter).buffer@.len() == old(emitter).buffer@.len(),
        final(emitter).room() >= 0,
        final(final(emitter).buffer)@ == final(old(emitter).buffer)@,
{
    proof {
        reveal(prologue);
    }
    if emitter.remaining() < 23 {
        return Err(TransformError::EmitterOverflow);
    }
    let ghost origin = emitter.buffer@;
    let ghost start = emitter.index;
    emitter.push(Register::Rbp);
    let ghost done = x86::push_code(Register::Rbp);

    let ghost before = emitter.buffer@;
    let ghost at = emitter.index;
    emitter.push(Register::R12);
    let ghost piece = x86::push_code(Register::R12);
    proof {
        lemma_append_more(origin, start, done, before, at, emitter.buffer@, emitter.index, piece);
    }
    let ghost done = done + piece;

    let ghost before = emitter.buffer@;
    let ghost at = emitter.index;
    emitter.push(Register::R13);
    let ghost piece = x86::push_code(Register::R13);
    proof {
        lemma_append_more(origin, start, done, before, at, emitter.buffer@, emitter.index, piece);
    }
    let ghost done = done + piece;

    let ghost before = emitter.buffer@;
    let ghost at = emitter.index;
    emitter.push(Register::R14);
    let ghost piece = x86::push_code(Register::R14);
    proof {
        lemma_append_more(origin, start, done, before, at, emitter.buffer@, emitter.index, piece);
    }
    let ghost done = done + piece;

    let ghost before = emitter.buffer@;
    let ghost at = emitter.index;
    emitter.mov64_reg(Register::Rbp, Register::Rsi);
    let ghost piece = x86::mov_code(Register::Rbp, Register::Rsi);
    proof {
        lemma_append_more(origin, start, done, before, at, emitter.buffer@, emitter.index, piece);
    }
    let ghost done = done + piece;

    let ghost before = emitter.buffer@;
    let ghost at = emitter.index;
    emitter.mov64_reg(Register::R12, Register::Rdx);
    let ghost piece = x86::mov_code(Register::R12, Register::Rdx);
    proof {
        lemma_append_more(origin, start, done, before, at, emitter.buffer@, emitter.index, piece);
    }
    let ghost done = done + piece;

    let ghost before = emitter.buffer@;
    let ghost at = emitter.index;
    emitter.mov64_reg(Register::R13, Register::Rcx);
    let ghost piece = x86::mov_code(Register::R13, Register::Rcx);
    proof {
        lemma_append_more(origin, start, done, before, at, emitter.buffer@, emitter.index, piece);
    }
    let ghost done = done + piece;

    let ghost before = emitter.buffer@;
    let ghost at = emitter.index;
    emitter.mov64_reg(Register::R14, Register::R8);
    let ghost piece = x86::mov_code(Register::R14, Register::R8);
    proof {
        lemma_append_more(origin, start, done, before, at, emitter.buffer@, emitter.index, piece);
    }
    Ok(())
}

/// Appends the code that restores the saved registers.
fn emit_epilogue(emitter: &mut Emitter<'_>) -> (result: Result<(), TransformError>)
    requires
        old(emitter).room() >= 0,
    ensures
        match result {
            Ok(()) => Emitter::appended(
                old(emitter).buffer@,
                old(emitter).index,
                final(emitter).buffer@,
                final(emitter).index,
                epilogue(),
            ),
            Err(error) => {
                &&& error == TransformError::EmitterOverflow
                &&& epilogue().len() > old(emitter).room()
            },
        },
        final(emitter).buffer@.len() == old(emitter).buffer@.len(),
        final(emitter).room() >= 0,
        final(final(emitter).buffer)@ == final(old(emitter).buffer)@,
{
    proof {
        reveal(epilogue);
    }
    if emitter.remaining() < 11 {
        return Err(TransformError::EmitterOverflow);
    }
    let ghost origin = emitter.buffer@;
    let ghost start = emitter.index;
    emitter.pop(Register::R14);
    let ghost done = x86::pop_code(Register::R14);

    let ghost before = emitter.buffer@;
    let ghost at = emitter.index;
    emitter.pop(Register::R13);
    let ghost piece = x86::pop_code(Register::R13);
    proof {
        lemma_append_more(origin, start, done, before, at, emitter.buffer@, emitter.index, piece);
    }
    let ghost done = done + piece;

    let ghost before = emitter.buffer@;
    let ghost at = emitter.index;
    emitter.pop(Register::R12);
    let ghost piece = x86::pop_code(Register::R12);
    proof {
        lemma_append_more(origin, start, done, before, at, emitter.buffer@, emitter.index, piece);
    }
    let ghost done = done + piece;

    let ghost before = emitter.buffer@;
    let ghost at = emitter.index;
    emitter.pop(Register::Rbp);
    let ghost piece = x86::pop_code(Register::Rbp);
    proof {
        lemma_append_more(origin, start, done, before, at, emitter.buffer@, emitter.index, piece);
    }
    Ok(())
}

/// What the patch pass needs to know of a jump.
#[derive(Debug, Clone, Copy)]
struct JumpInfo {
    /// Where the jump begins in the machine code.
    asm_offset: usize,
    /// The index of the instruction that the jump leads to.
    target: usize,
}

/// The map holds the jumps among the first `n` instructions, and of each
/// where it lies and where it leads.
#[verifier::opaque]
spec fn recorded(jumps: Map<usize, JumpInfo>, program: Seq<Instruction>, n: int) -> bool {
    forall|i: usize|
        {
            &&& #[trigger] jumps.contains_key(i) <==> (i < n && i < program.len() && is_jump(
                program[i as int],
            ))
            &&& jumps.contains_key(i) ==> {
                &&& jumps[i].asm_offset == jump_site(program, i as int)
                &&& jumps[i].target == partner(program, i as int)
            }
        }
}

/// Puts a jump on record.
fn record(jumps: &mut BTreeMap<usize, JumpInfo>, index: usize, info: JumpInfo)
    ensures
        final(jumps)@ == old(jumps)@.insert(index, info),
{
    broadcast use vstd::laws_cmp::group_laws_cmp;

    jumps.insert(index, info);
}

/// Looks up the jump of an instruction.
fn lookup(jumps: &BTreeMap<usize, JumpInfo>, index: usize) -> (found: Option<JumpInfo>)
    ensures
        found == if jumps@.contains_key(index) {
            Some(jumps@[index])
        } else {
            None
        },
{
    broadcast use vstd::laws_cmp::group_laws_cmp;
    broadcast use vstd::std_specs::btree::group_btree_axioms;

    match jumps.get(&index) {
        Some(info) => Some(*info),
        None => None,
    }
}

/// Appends the code of one instruction, a jump with a placeholder for its
/// displacement. Returns where the jump begins, if the instruction is one.
fn emit_instruction(emitter: &mut Emitter<'_>, instruction: Instruction) -> (result: Result<
    Option<usize>,
    TransformError,
>)
    requires
        old(emitter).room() >= 0,
    ensures
        match result {
            Ok(site) => {
                &&& Emitter::appended(
                    old(emitter).buffer@,
                    old(emitter).index,
                    final(emitter).buffer@,
                    final(emitter).index,
                    instruction_code(instruction, PLACEHOLDER),
                )
                &&& is_jump(instruction) ==> site == Some((old(emitter).index + 3) as usize)
                &&& !is_jump(instruction) ==> site.is_none()
            },
            Err(error) => {
                &&& error == TransformError::EmitterOverflow
                &&& code_len(instruction) > old(emitter).room()
            },
        },
        final(emitter).buffer@.len() == old(emitter).buffer@.len(),
        final(emitter).room() >= 0,
        final(final(emitter).buffer)@ == final(old(emitter).buffer)@,
{
    proof {
        lemma_code_of(instruction, PLACEHOLDER);
    }
    match instruction {
        Instruction::IncrementPointer(inc) => match emit_steps(emitter, inc, true) {
            Ok(()) => Ok(None),
            Err(error) => Err(error),
        },
        Instruction::IncrementByte(inc) => match emit_steps(emitter, inc, false) {
            Ok(()) => Ok(None),
            Err(error) => Err(error),
        },
        Instruction::OutputByte => match emit_call_out(emitter, Register::R12, Register::Rbp) {
            Ok(()) => Ok(None),
            Err(error) => Err(error),
        },
        Instruction::ReadByte => match emit_call_out(emitter, Register::R14, Register::R13) {
            Ok(()) => Ok(None),
            Err(error) => Err(error),
        },
        Instruction::JumpBackwardsIfNotZero(_) => match emit_branch(emitter, false) {
            Ok(site) => Ok(Some(site)),
            Err(error) => Err(error),
        },
        Instruction::JumpForwardsIfZero(_) => match emit_branch(emitter, true) {
            Ok(site) => Ok(Some(site)),
            Err(error) => Err(error),
        },
    }
}

/// The instruction that the jump of instruction `idx` leads to.
fn target_of(instructions: &[Instruction], idx: usize) -> (target: usize)
    requires
        well_formed(instructions@),
        idx < instructions@.len(),
    ensures
        target == partner(instructions@, idx as int),
{
    proof {
        lemma_partner(instructions@, idx as int);
    }
    match instructions[idx] {
        Instruction::JumpBackwardsIfNotZero(jmp) => idx - jmp,
        Instruction::JumpForwardsIfZero(jmp) => idx + jmp,
        _ => idx,
    }
}

/// One jump more on record.
proof fn lemma_recorded_more(
    known: Map<usize, JumpInfo>,
    program: Seq<Instruction>,
    here: usize,
    site: Option<usize>,
    jumps: Map<usize, JumpInfo>,
)
    requires
        recorded(known, program, here as int),
        here < program.len(),
        match site {
            Some(site) => is_jump(program[here as int]) && site == jump_site(program, here as int)
                && jumps == known.insert(
                here,
                JumpInfo { asm_offset: site, target: partner(program, here as int) as usize },
            ) && 0 <= partner(program, here as int) <= usize::MAX,
            None => !is_jump(program[here as int]) && jumps == known,
        },
    ensures
        recorded(jumps, program, here + 1),
{
    reveal(recorded);
    assert forall|i: usize|
        {
            &&& #[trigger] jumps.contains_key(i) <==> (i < here + 1 && i < program.len()
                && is_jump(program[i as int]))
            &&& jumps.contains_key(i) ==> {
                &&& jumps[i].asm_offset == jump_site(program, i as int)
                &&& jumps[i].target == partner(program, i as int)
            }
        } by {
        assert(known.contains_key(i) <==> (i < here && i < program.len() && is_jump(
            program[i as int],
        )));
    }
}

/// The first pass: writes the prologue, the code of every instruction and
/// the epilogue into `buffer`. Every jump gets a placeholder for its
/// displacement and goes on record.
#[verifier::loop_isolation(false)]
fn emit_program(buffer: &mut [u8], instructions: &[Instruction]) -> (result: Result<
    BTreeMap<usize, JumpInfo>,
    TransformError,
>)
    requires
        well_formed(instructions@),
        filled_from(old(buffer)@, 0),
    ensures
        final(buffer)@.len() == old(buffer)@.len(),
        match result {
            Ok(jumps) => {
                &&& code_end(instructions@) <= old(buffer)@.len()
                &&& laid_out(
                    final(buffer)@,
                    instructions@,
                    instructions@.len() as int,
                    partial_rel(instructions@, 0),
                )
                &&& final(buffer)@.subrange(
                    offset_of(instructions@, instructions@.len() as int),
                    code_end(instructions@),
                ) == epilogue()
                &&& filled_from(final(buffer)@, code_end(instructions@))
                &&& recorded(jumps@, instructions@, instructions@.len() as int)
            },
            Err(error) => {
                &&& error == TransformError::EmitterOverflow
                &&& code_end(instructions@) > old(buffer)@.len()
            },
        },
{
    let ghost program = instructions@;
    let ghost rel = partial_rel(program, 0);
    let ghost size = buffer@.len();
    let ghost goal = final(buffer)@;
    let ghost blank = buffer@;
    let count = instructions.len();
    let mut emitter = Emitter::new(buffer);
    match emit_prologue(&mut emitter) {
        Ok(()) => {},
        Err(error) => {
            proof {
                lemma_offsets_increase(program, 0, count as int);
            }
            return Err(error);
        },
    }
    let mut jumps: BTreeMap<usize, JumpInfo> = BTreeMap::new();
    let mut idx: usize = 0;
    proof {
        lemma_frame_laid_out(blank, program, emitter.buffer@, rel);
        reveal(recorded);
    }
    while idx < count
        invariant
            idx <= count == program.len(),
            program == instructions@,
            well_formed(program),
            rel == partial_rel(program, 0),
            size == old(buffer)@.len(),
            emitter.buffer@.len() == size,
            emitter.index <= size,
            emitter.index == offset_of(program, idx as int),
            laid_out(emitter.buffer@, program, idx as int, rel),
            filled_from(emitter.buffer@, emitter.index as int),
            recorded(jumps@, program, idx as int),
            final(emitter.buffer)@ == goal,
        decreases count - idx,
    {
        let ghost before = emitter.buffer@;
        let ghost known = jumps@;
        let ghost here = idx as int;
        proof {
            lemma_code_len(program[here], PLACEHOLDER);
            lemma_offsets_increase(program, here + 1, count as int);
        }
        let site = match emit_instruction(&mut emitter, instructions[idx]) {
            Ok(site) => site,
            Err(error) => {
                return Err(error);
            },
        };
        match site {
            Some(site) => {
                let target = target_of(instructions, idx);
                record(&mut jumps, idx, JumpInfo { target, asm_offset: site });
            },
            None => {},
        }
        proof {
            lemma_region_appended(before, program, here, emitter.buffer@, rel);
            lemma_recorded_more(known, program, idx, site, jumps@);
        }
        idx = idx + 1;
    }
    let ghost before = emitter.buffer@;
    match emit_epilogue(&mut emitter) {
        Ok(()) => {},
        Err(error) => {
            return Err(error);
        },
    }
    proof {
        lemma_tail_appended(before, program, count as int, emitter.buffer@, epilogue(), rel);
    }
    Ok(jumps)
}

/// The displacement that takes a jump which begins at `from` to `to`.
pub fn displacement(from: usize, to: usize) -> (result: Result<i32, TransformError>)
    ensures
        match result {
            Ok(rel) => rel == displacement_of(from as int, to as int),
            Err(error) => {
                &&& error == TransformError::DisplacementOverflow
                &&& !fits(displacement_of(from as int, to as int))
            },
        },
{
    let rel: i128 = to as i128 - (from as i128 + 6);
    if rel < -0x8000_0000 || rel > 0x7fff_ffff {
        Err(TransformError::DisplacementOverflow)
    } else {
        Ok(rel as i32)
    }
}

/// The 32 bits that stand for a displacement.
fn twos_complement(rel: i32) -> (bits: u32)
    ensures
        bits == rel_bits(rel as int),
{
    if rel < 0 {
        (rel as i64 + 0x1_0000_0000) as u32
    } else {
        rel as u32
    }
}

/// The second pass: gives every jump the displacement to the jump of its
/// partner.
fn patch_jumps(
    buffer: &mut [u8],
    instructions: &[Instruction],
    jumps: &BTreeMap<usize, JumpInfo>,
) -> (result: Result<(), TransformError>)
    requires
        well_formed(instructions@),
        recorded(jumps@, instructions@, instructions@.len() as int),
        laid_out(
            old(buffer)@,
            instructions@,
            instructions@.len() as int,
            partial_rel(instructions@, 0),
        ),
        code_end(instructions@) <= old(buffer)@.len(),
    ensures
        final(buffer)@.len() == old(buffer)@.len(),
        forall|k: int|
            offset_of(instructions@, instructions@.len() as int) <= k < old(buffer)@.len()
                ==> final(buffer)@[k] == old(buffer)@[k],
        match result {
            Ok(()) => {
                &&& laid_out(
                    final(buffer)@,
                    instructions@,
                    instructions@.len() as int,
                    partial_rel(instructions@, instructions@.len() as int),
                )
                &&& forall|i: int|
                    0 <= i < instructions@.len() && is_jump(#[trigger] instructions@[i]) ==> fits(
                        rel_of(instructions@, i),
                    )
            },
            Err(error) => {
                &&& error == TransformError::DisplacementOverflow
                &&& exists|i: int|
                    0 <= i < instructions@.len() && is_jump(#[trigger] instructions@[i]) && !fits(
                        rel_of(instructions@, i),
                    )
            },
        },
{
    let ghost program = instructions@;
    let count = instructions.len();
    let size = buffer.len();
    let mut idx: usize = 0;
    while idx < count
        invariant
            idx <= count == program.len(),
            program == instructions@,
            well_formed(program),
            recorded(jumps@, program, count as int),
            buffer@.len() == size == old(buffer)@.len(),
            code_end(program) <= size,
            laid_out(buffer@, program, count as int, partial_rel(program, idx as int)),
            forall|k: int|
                offset_of(program, count as int) <= k < size ==> buffer@[k] == old(buffer)@[k],
            forall|i: int| 0 <= i < idx && is_jump(#[trigger] program[i]) ==> fits(rel_of(program, i)),
        decreases count - idx,
    {
        let ghost here = idx as int;
        let ghost before = buffer@;
        match lookup(jumps, idx) {
            Some(info) => {
                proof {
                    reveal(recorded);
                    lemma_partner(program, here);
                }
                let target = match lookup(jumps, info.target) {
                    Some(target) => target,
                    None => {
                        proof {
                            assert(jumps@.contains_key(info.target));
                        }
                        return Err(TransformError::DisplacementOverflow);
                    },
                };
                proof {
                    lemma_code_len(program[here], PLACEHOLDER);
                    lemma_offsets_increase(program, here + 1, count as int);
                    lemma_offsets_increase(program, 0, here);
                }
                let rel = match displacement(info.asm_offset, target.asm_offset) {
                    Ok(rel) => rel,
                    Err(error) => {
                        return Err(error);
                    },
                };
                let le = to_le_bytes(twos_complement(rel));
                let site = info.asm_offset;
                buffer[site + 2] = le[0];
                buffer[site + 3] = le[1];
                buffer[site + 4] = le[2];
                buffer[site + 5] = le[3];
                proof {
                    assert(buffer@ =~= overwritten(
                        before,
                        site + 2,
                        le_bytes(rel_bits(rel_of(program, here))),
                    ));
                    lemma_jump_patched(before, program, here, buffer@);
                }
            },
            None => {
                proof {
                    reveal(recorded);
                    reveal(laid_out);
                    assert forall|j: int| 0 <= j < count implies #[trigger] layout::region(
                        buffer@,
                        program,
                        j,
                    ) == instruction_code(program[j], partial_rel(program, here + 1)(j)) by {
                        assert(layout::region(buffer@, program, j) == instruction_code(
                            program[j],
                            partial_rel(program, here)(j),
                        ));
                    }
                }
            },
        }
        idx = idx + 1;
    }
    Ok(())
}

/// Turns a program into a native function: the machine code of the
/// program in eight pages of memory, with fill behind it. It fails if the
/// code does not fit the pages, or if a jump is too long.
pub fn transform(instructions: &[Instruction]) -> (result: Result<Program, TransformError>)
    requires
        well_formed(instructions@),
    ensures
        match result {
            Ok(program) => {
                &&& code_end(instructions@) <= PROGRAM_PAGES * PAGE_SIZE
                &&& program@ == native_image(instructions@, (PROGRAM_PAGES * PAGE_SIZE) as int)
            },
            Err(TransformError::EmitterOverflow) => code_end(instructions@) > PROGRAM_PAGES
                * PAGE_SIZE,
            Err(TransformError::DisplacementOverflow) => {
                &&& code_end(instructions@) <= PROGRAM_PAGES * PAGE_SIZE
                &&& exists|i: int|
                    0 <= i < instructions@.len() && is_jump(#[trigger] instructions@[i]) && !fits(
                        rel_of(instructions@, i),
                    )
            },
        },
{
    let program = Program::new(PROGRAM_PAGES);
    let mut sliceable = program.into_sliceable();
    proof {
        reveal(filled_from);
    }
    let jumps = match emit_program(sliceable.as_mut_slice(), instructions) {
        Ok(jumps) => jumps,
        Err(error) => {
            return Err(error);
        },
    };
    let ghost draft = sliceable@;
    match patch_jumps(sliceable.as_mut_slice(), instructions, &jumps) {
        Ok(()) => {},
        Err(error) => {
            return Err(error);
        },
    }
    proof {
        let end = offset_of(instructions@, instructions@.len() as int);
        lemma_frame_len();
        lemma_offsets_increase(instructions@, 0, instructions@.len() as int);
        assert(sliceable@.subrange(end, code_end(instructions@)) =~= draft.subrange(
            end,
            code_end(instructions@),
        ));
        lemma_image_complete(sliceable@, instructions@);
    }
    Ok(sliceable.lock())
}

/// A native program together with the tape that it runs on.
pub struct Vm {
    program: CallableProgram,
    cells: [u8; 30000],
}

impl Vm {
    /// The machine code that this machine runs.
    pub closed spec fn code(&self) -> Seq<u8> {
        self.program@
    }

    /// The tape.
    pub closed spec fn tape(&self) -> Seq<u8> {
        self.cells@
    }

    /// A machine that is ready to run `program`, with a zeroed tape.
    pub fn new(program: Program) -> (vm: Vm)
        ensures
            vm.code() == program@,
            vm.tape() == crate::machine::Machine::initial(Seq::empty()).cells,
    {
        let vm = Vm { program: program.into_callable(), cells: [0u8; 30000] };
        vm
    }

    /// The program, to be run.
    pub fn program(&self) -> (program: &CallableProgram)
        ensures
            program@ == self.code(),
    {
        &self.program
    }

    /// The tape, for the program to work on.
    pub fn cells_mut(&mut self) -> (cells: &mut [u8; 30000])
        ensures
            cells@ == old(self).tape(),
            final(self).tape() == final(cells)@,
            final(self).code() == old(self).code(),
    {
        &mut self.cells
    }
}

} // verus!
