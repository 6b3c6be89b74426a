//! Where the code of each instruction lies in a native program, and what
//! bytes it consists of.

use super::x86::{
    add_ptr_code, add_reg_code, call_code, compare_code, je_code, jne_code, mov_code, overwritten,
    pop_code, push_code, sub_ptr_code, sub_reg_code, Register,
};
use super::FILL;
use crate::ir::Instruction;
use vstd::prelude::*;

verus! {

/// The largest amount that one instruction adds or subtracts: its operand
/// is one byte.
pub const MAX_STEP: i64 = 255;

/// The displacement that a jump holds until its target is known.
pub const PLACEHOLDER: u32 = 42;

/// The code that saves the registers which the program uses and moves the
/// two routines and their arguments into them.
#[verifier::opaque]
pub open spec fn prologue() -> Seq<u8> {
    push_code(Register::Rbp) + push_code(Register::R12) + push_code(Register::R13) + push_code(
        Register::R14,
    ) + mov_code(Register::Rbp, Register::Rsi) + mov_code(Register::R12, Register::Rdx) + mov_code(
        Register::R13,
        Register::Rcx,
    ) + mov_code(Register::R14, Register::R8)
}

/// The code that restores the saved registers. The `ret` that follows is
/// the first byte of the fill.
#[verifier::opaque]
pub open spec fn epilogue() -> Seq<u8> {
    pop_code(Register::R14) + pop_code(Register::R13) + pop_code(Register::R12) + pop_code(
        Register::Rbp,
    )
}

/// One addition or subtraction of `step`, to the data pointer or to the
/// current cell.
pub open spec fn step_code(step: u8, negative: bool, pointer: bool) -> Seq<u8> {
    if pointer {
        if negative {
            sub_reg_code(Register::Rdi, step)
        } else {
            add_reg_code(Register::Rdi, step)
        }
    } else {
        if negative {
            sub_ptr_code(Register::Rdi, step)
        } else {
            add_ptr_code(Register::Rdi, step)
        }
    }
}

/// The additions or subtractions that amount to `left`: as many of
/// `MAX_STEP` as fit, then the rest. Nothing for zero.
pub open spec fn steps_code(left: int, negative: bool, pointer: bool) -> Seq<u8>
    decreases left,
{
    if left <= 0 {
        Seq::empty()
    } else {
        let step = if left > MAX_STEP {
            MAX_STEP as int
        } else {
            left
        };
        step_code(step as u8, negative, pointer) + steps_code(left - step, negative, pointer)
    }
}

/// The code that moves the data pointer, or changes the current cell, by
/// `delta`.
pub open spec fn delta_code(delta: int, pointer: bool) -> Seq<u8> {
    if delta < 0 {
        steps_code(-delta, true, pointer)
    } else {
        steps_code(delta, false, pointer)
    }
}

/// The code that calls `routine` with the current cell's address and
/// `argument`. The data pointer is saved round the call.
pub open spec fn call_out_code(argument: Register, routine: Register) -> Seq<u8> {
    mov_code(Register::Rsi, argument) + push_code(Register::Rdi) + call_code(routine) + pop_code(
        Register::Rdi,
    )
}

/// The code of one instruction. A jump holds the displacement `rel`.
#[verifier::opaque]
pub open spec fn instruction_code(instruction: Instruction, rel: u32) -> Seq<u8> {
    match instruction {
        Instruction::IncrementPointer(delta) => delta_code(delta as int, true),
        Instruction::IncrementByte(delta) => delta_code(delta as int, false),
        Instruction::OutputByte => call_out_code(Register::R12, Register::Rbp),
        Instruction::ReadByte => call_out_code(Register::R14, Register::R13),
        Instruction::JumpForwardsIfZero(_) => compare_code(Register::Rdi, 0) + je_code(rel),
        Instruction::JumpBackwardsIfNotZero(_) => compare_code(Register::Rdi, 0) + jne_code(rel),
    }
}

/// The number of bytes that the code of an instruction takes.
pub open spec fn code_len(instruction: Instruction) -> int {
    instruction_code(instruction, PLACEHOLDER).len() as int
}

/// Where the code of instruction `i` begins.
pub open spec fn offset_of(program: Seq<Instruction>, i: int) -> int
    decreases i,
{
    if i <= 0 {
        prologue().len() as int
    } else {
        offset_of(program, i - 1) + code_len(program[i - 1])
    }
}

/// Where the code of the whole program ends.
pub open spec fn code_end(program: Seq<Instruction>) -> int {
    offset_of(program, program.len() as int) + epilogue().len()
}

/// Whether an instruction is a jump.
pub open spec fn is_jump(instruction: Instruction) -> bool {
    instruction is JumpForwardsIfZero || instruction is JumpBackwardsIfNotZero
}

/// Where the jump of instruction `i` begins: behind the comparison.
pub open spec fn jump_site(program: Seq<Instruction>, i: int) -> int {
    offset_of(program, i) + 3
}

/// The instruction that the jump of instruction `i` leads to.
pub open spec fn partner(program: Seq<Instruction>, i: int) -> int {
    match program[i] {
        Instruction::JumpForwardsIfZero(distance) => i + distance,
        Instruction::JumpBackwardsIfNotZero(distance) => i - distance,
        _ => i,
    }
}

/// The displacement that takes the jump at `from` to `to`. It counts from
/// the end of the jump, which is six bytes long.
pub open spec fn displacement_of(from: int, to: int) -> int {
    to - (from + 6)
}

/// The displacement of the jump of instruction `i`: it lands on the jump
/// of the partner.
pub open spec fn rel_of(program: Seq<Instruction>, i: int) -> int {
    displacement_of(jump_site(program, i), jump_site(program, partner(program, i)))
}

/// Whether a displacement fits the 32 bits of a near jump.
pub open spec fn fits(rel: int) -> bool {
    -0x8000_0000 <= rel <= 0x7fff_ffff
}

/// The 32 bits that stand for a displacement, in two's complement.
pub open spec fn rel_bits(rel: int) -> u32 {
    if rel < 0 {
        (rel + 0x1_0000_0000) as u32
    } else {
        rel as u32
    }
}

/// The code of the first `n` instructions, one after the other, with the
/// displacement `rel(i)` in the jump of instruction `i`.
pub open spec fn body(program: Seq<Instruction>, n: int, rel: spec_fn(int) -> u32) -> Seq<u8>
    decreases n,
{
    if n <= 0 {
        Seq::empty()
    } else {
        body(program, n - 1, rel) + instruction_code(program[n - 1], rel(n - 1))
    }
}

/// The displacement of every jump once the code is complete.
pub open spec fn final_rel(program: Seq<Instruction>) -> spec_fn(int) -> u32 {
    |i: int| rel_bits(rel_of(program, i))
}

/// The displacement of the jumps up to `done` is final, that of the others
/// still the placeholder.
pub open spec fn partial_rel(program: Seq<Instruction>, done: int) -> spec_fn(int) -> u32 {
    |i: int|
        if i < done && is_jump(program[i]) {
            rel_bits(rel_of(program, i))
        } else {
            PLACEHOLDER
        }
}

/// The machine code of a program: prologue, the code of each instruction
/// with its displacement, epilogue.
pub open spec fn machine_code(program: Seq<Instruction>) -> Seq<u8> {
    prologue() + body(program, program.len() as int, final_rel(program)) + epilogue()
}

/// The native program of `size` bytes that holds the machine code of
/// `program`, and the fill behind it.
pub open spec fn native_image(program: Seq<Instruction>, size: int) -> Seq<u8> {
    Seq::new(
        size as nat,
        |k: int|
            if k < machine_code(program).len() {
                machine_code(program)[k]
            } else {
                FILL
            },
    )
}

/// The part of an image that holds the code of instruction `i`.
pub open spec fn region(image: Seq<u8>, program: Seq<Instruction>, i: int) -> Seq<u8> {
    image.subrange(offset_of(program, i), offset_of(program, i + 1))
}

/// The image holds the prologue and the code of the first `n`
/// instructions, with the displacements `rel`.
#[verifier::opaque]
pub open spec fn laid_out(
    image: Seq<u8>,
    program: Seq<Instruction>,
    n: int,
    rel: spec_fn(int) -> u32,
) -> bool {
    &&& offset_of(program, n) <= image.len()
    &&& image.subrange(0, prologue().len() as int) == prologue()
    &&& forall|i: int|
        0 <= i < n ==> #[trigger] region(image, program, i) == instruction_code(program[i], rel(i))
}

/// The image holds nothing but fill from `from` on.
#[verifier::opaque]
pub open spec fn filled_from(image: Seq<u8>, from: int) -> bool {
    forall|k: int| from <= k < image.len() ==> image[k] == FILL
}

/// Writing one piece and then another behind it is writing both at once.
pub proof fn lemma_overwritten_twice(buffer: Seq<u8>, at: int, first: Seq<u8>, second: Seq<u8>)
    requires
        0 <= at,
        at + first.len() + second.len() <= buffer.len(),
    ensures
        overwritten(overwritten(buffer, at, first), at + first.len(), second) == overwritten(
            buffer,
            at,
            first + second,
        ),
{
    assert(overwritten(overwritten(buffer, at, first), at + first.len(), second) =~= overwritten(
        buffer,
        at,
        first + second,
    ));
}

/// The code of an instruction is as long whatever the displacement.
pub proof fn lemma_code_len(instruction: Instruction, rel: u32)
    ensures
        instruction_code(instruction, rel).len() == code_len(instruction),
        is_jump(instruction) ==> code_len(instruction) == 9,
{
    reveal(instruction_code);
}

/// The prologue takes 23 bytes, the epilogue 11.
pub proof fn lemma_frame_len()
    ensures
        prologue().len() == 23,
        epilogue().len() == 11,
{
    reveal(prologue);
    reveal(epilogue);
}

/// The code of an instruction, by the kind of the instruction.
pub proof fn lemma_code_of(instruction: Instruction, rel: u32)
    ensures
        instruction_code(instruction, rel) == match instruction {
            Instruction::IncrementPointer(delta) => delta_code(delta as int, true),
            Instruction::IncrementByte(delta) => delta_code(delta as int, false),
            Instruction::OutputByte => call_out_code(Register::R12, Register::Rbp),
            Instruction::ReadByte => call_out_code(Register::R14, Register::R13),
            Instruction::JumpForwardsIfZero(_) => compare_code(Register::Rdi, 0) + je_code(rel),
            Instruction::JumpBackwardsIfNotZero(_) => compare_code(Register::Rdi, 0) + jne_code(
                rel,
            ),
        },
{
    reveal(instruction_code);
}

/// An image of fill alone, with the prologue written at its start, holds
/// the code of no instruction yet.
pub proof fn lemma_frame_laid_out(
    before: Seq<u8>,
    program: Seq<Instruction>,
    after: Seq<u8>,
    rel: spec_fn(int) -> u32,
)
    requires
        filled_from(before, 0),
        prologue().len() <= before.len(),
        after == overwritten(before, 0, prologue()),
    ensures
        laid_out(after, program, 0, rel),
        filled_from(after, offset_of(program, 0)),
{
    reveal(laid_out);
    reveal(filled_from);
    assert(after.subrange(0, prologue().len() as int) =~= prologue());
}

/// The code of the instructions lies in the order of the instructions.
pub proof fn lemma_offsets_increase(program: Seq<Instruction>, i: int, j: int)
    requires
        0 <= i <= j,
    ensures
        prologue().len() <= offset_of(program, i) <= offset_of(program, j),
    decreases j,
{
    reveal(prologue);
    if i < j {
        lemma_offsets_increase(program, i, j - 1);
    } else if i > 0 {
        lemma_offsets_increase(program, i - 1, i - 1);
    }
}

/// Appending the code of instruction `i` behind the code of the ones
/// before it lays out one instruction more.
pub proof fn lemma_region_appended(
    before: Seq<u8>,
    program: Seq<Instruction>,
    i: int,
    after: Seq<u8>,
    rel: spec_fn(int) -> u32,
)
    requires
        0 <= i < program.len(),
        laid_out(before, program, i, rel),
        filled_from(before, offset_of(program, i)),
        after == overwritten(
            before,
            offset_of(program, i),
            instruction_code(program[i], rel(i)),
        ),
        offset_of(program, i + 1) <= before.len(),
    ensures
        laid_out(after, program, i + 1, rel),
        filled_from(after, offset_of(program, i + 1)),
{
    reveal(laid_out);
    reveal(filled_from);
    lemma_code_len(program[i], rel(i));
    lemma_offsets_increase(program, 0, i);
    assert(after.subrange(0, prologue().len() as int) =~= before.subrange(
        0,
        prologue().len() as int,
    ));
    assert forall|j: int| 0 <= j < i + 1 implies #[trigger] region(after, program, j)
        == instruction_code(program[j], rel(j)) by {
        if j < i {
            lemma_offsets_increase(program, j + 1, i);
            lemma_offsets_increase(program, j, j + 1);
            assert(region(after, program, j) =~= region(before, program, j));
        } else {
            assert(region(after, program, j) =~= instruction_code(program[i], rel(i)));
        }
    }
}

/// Writing behind the code of the first `n` instructions leaves it as it is.
pub proof fn lemma_tail_appended(
    before: Seq<u8>,
    program: Seq<Instruction>,
    n: int,
    after: Seq<u8>,
    tail: Seq<u8>,
    rel: spec_fn(int) -> u32,
)
    requires
        0 <= n,
        laid_out(before, program, n, rel),
        filled_from(before, offset_of(program, n)),
        after == overwritten(before, offset_of(program, n), tail),
        offset_of(program, n) + tail.len() <= before.len(),
    ensures
        laid_out(after, program, n, rel),
        after.subrange(offset_of(program, n), offset_of(program, n) + tail.len()) == tail,
        filled_from(after, offset_of(program, n) + tail.len()),
{
    reveal(laid_out);
    reveal(filled_from);
    lemma_offsets_increase(program, 0, n);
    assert(after.subrange(0, prologue().len() as int) =~= before.subrange(
        0,
        prologue().len() as int,
    ));
    assert forall|j: int| 0 <= j < n implies #[trigger] region(after, program, j)
        == instruction_code(program[j], rel(j)) by {
        lemma_offsets_increase(program, j + 1, n);
        lemma_offsets_increase(program, j, j + 1);
        assert(region(after, program, j) =~= region(before, program, j));
    }
}

/// Writing the displacement of the jump of instruction `done` makes that
/// jump final and touches nothing else.
pub proof fn lemma_jump_patched(
    before: Seq<u8>,
    program: Seq<Instruction>,
    done: int,
    after: Seq<u8>,
)
    requires
        0 <= done < program.len(),
        is_jump(program[done]),
        laid_out(before, program, program.len() as int, partial_rel(program, done)),
        after == overwritten(
            before,
            jump_site(program, done) + 2,
            super::x86::le_bytes(rel_bits(rel_of(program, done))),
        ),
    ensures
        laid_out(after, program, program.len() as int, partial_rel(program, done + 1)),
{
    reveal(laid_out);
    reveal(instruction_code);
    let n = program.len() as int;
    let bits = rel_bits(rel_of(program, done));
    lemma_offsets_increase(program, 0, done);
    lemma_offsets_increase(program, done + 1, n);
    lemma_code_len(program[done], PLACEHOLDER);
    assert(after.subrange(0, prologue().len() as int) =~= before.subrange(
        0,
        prologue().len() as int,
    ));
    assert forall|j: int| 0 <= j < n implies #[trigger] region(after, program, j)
        == instruction_code(program[j], partial_rel(program, done + 1)(j)) by {
        assert(region(before, program, j) == instruction_code(
            program[j],
            partial_rel(program, done)(j),
        ));
        if j < done {
            lemma_offsets_increase(program, j + 1, done);
            lemma_offsets_increase(program, j, j + 1);
        } else if j > done {
            lemma_offsets_increase(program, done + 1, j);
            lemma_offsets_increase(program, j, j + 1);
            lemma_offsets_increase(program, j + 1, n);
        } else {
            let old_code = instruction_code(program[j], PLACEHOLDER);
            let new_code = instruction_code(program[j], bits);
            assert forall|k: int| 0 <= k < 9 implies region(after, program, j)[k] == new_code[k] by {
                assert(region(before, program, j)[k] == old_code[k]);
            }
        }
    }
}

/// The code of the first `k` instructions, as it is laid out, is their
/// concatenation.
pub proof fn lemma_body_laid_out(image: Seq<u8>, program: Seq<Instruction>, k: int)
    requires
        0 <= k <= program.len(),
        laid_out(image, program, program.len() as int, partial_rel(program, program.len() as int)),
    ensures
        prologue().len() <= offset_of(program, k) <= image.len(),
        image.subrange(prologue().len() as int, offset_of(program, k)) == body(
            program,
            k,
            final_rel(program),
        ),
    decreases k,
{
    reveal(laid_out);
    reveal(instruction_code);
    let n = program.len() as int;
    lemma_offsets_increase(program, 0, k);
    lemma_offsets_increase(program, k, n);
    if k > 0 {
        lemma_body_laid_out(image, program, k - 1);
        lemma_offsets_increase(program, k - 1, k);
        assert(region(image, program, k - 1) == instruction_code(
            program[k - 1],
            partial_rel(program, n)(k - 1),
        ));
        assert(instruction_code(program[k - 1], partial_rel(program, n)(k - 1))
            == instruction_code(program[k - 1], final_rel(program)(k - 1)));
        assert(image.subrange(prologue().len() as int, offset_of(program, k)) =~= image.subrange(
            prologue().len() as int,
            offset_of(program, k - 1),
        ) + region(image, program, k - 1));
    } else {
        assert(image.subrange(prologue().len() as int, offset_of(program, 0)) =~= Seq::<u8>::empty());
    }
}

/// An image that holds the prologue, the final code of every instruction,
/// the epilogue and then fill is the native image of the program.
pub proof fn lemma_image_complete(image: Seq<u8>, program: Seq<Instruction>)
    requires
        laid_out(image, program, program.len() as int, partial_rel(program, program.len() as int)),
        code_end(program) <= image.len(),
        image.subrange(offset_of(program, program.len() as int), code_end(program)) == epilogue(),
        filled_from(image, code_end(program)),
    ensures
        machine_code(program).len() == code_end(program),
        image == native_image(program, image.len() as int),
{
    reveal(filled_from);
    reveal(laid_out);
    let n = program.len() as int;
    lemma_body_laid_out(image, program, n);
    let code = machine_code(program);
    let head = image.subrange(0, prologue().len() as int);
    let middle = image.subrange(prologue().len() as int, offset_of(program, n));
    let tail = image.subrange(offset_of(program, n), code_end(program));
    assert(code == head + middle + tail);
    assert(image.subrange(0, code_end(program)) =~= head + middle + tail);
    assert forall|k: int| 0 <= k < image.len() implies image[k] == native_image(
        program,
        image.len() as int,
    )[k] by {
        if k < code_end(program) {
            assert(image[k] == image.subrange(0, code_end(program))[k]);
        }
    }
    assert(image =~= native_image(program, image.len() as int));
}

} // verus!
