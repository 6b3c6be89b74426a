//! Encoders for the handful of x86_64 instructions that the code generator
//! needs. Each one appends the bytes of one instruction to a buffer.

use vstd::prelude::*;

verus! {

/// The sixteen general purpose registers, in the order of their numbers.
#[derive(Debug, Copy, Clone, PartialEq, Eq, PartialOrd, Structural)]
pub enum Register {
    Rax,
    Rcx,
    Rdx,
    Rbx,
    Rsp,
    Rbp,
    Rsi,
    Rdi,
    R8,
    R9,
    R10,
    R11,
    R12,
    R13,
    R14,
    R15,
}

impl Register {
    /// The number that encodes the register, 0 to 15.
    pub open spec fn number(self) -> u8 {
        match self {
            Register::Rax => 0,
            Register::Rcx => 1,
            Register::Rdx => 2,
            Register::Rbx => 3,
            Register::Rsp => 4,
            Register::Rbp => 5,
            Register::Rsi => 6,
            Register::Rdi => 7,
            Register::R8 => 8,
            Register::R9 => 9,
            Register::R10 => 10,
            Register::R11 => 11,
            Register::R12 => 12,
            Register::R13 => 13,
            Register::R14 => 14,
            Register::R15 => 15,
        }
    }

    /// Whether the register is one of `R8` to `R15`, whose number does not
    /// fit the three bits of a ModRM field.
    pub open spec fn extended(self) -> bool {
        self.number() >= 8
    }

    /// The number that encodes the register.
    pub fn code(self) -> (number: u8)
        ensures
            number == self.number(),
    {
        match self {
            Register::Rax => 0,
            Register::Rcx => 1,
            Register::Rdx => 2,
            Register::Rbx => 3,
            Register::Rsp => 4,
            Register::Rbp => 5,
            Register::Rsi => 6,
            Register::Rdi => 7,
            Register::R8 => 8,
            Register::R9 => 9,
            Register::R10 => 10,
            Register::R11 => 11,
            Register::R12 => 12,
            Register::R13 => 13,
            Register::R14 => 14,
            Register::R15 => 15,
        }
    }
}

/// The ModRM byte: two bits of mode, three of `reg`, three of `rm`.
pub open spec fn modrm(mode: u8, reg: u8, rm: u8) -> u8 {
    ((mode & 3) << 6) | ((reg & 7) << 3) | (rm & 7)
}

/// The REX prefix of a 64-bit operation whose `reg` field holds `register`.
pub open spec fn rex_w(register: Register) -> u8 {
    if register.extended() {
        0x4c
    } else {
        0x48
    }
}

/// The REX prefix of a 64-bit operation on `register` and `rm`.
pub open spec fn rex_w_rm(register: Register, rm: Register) -> u8 {
    if rm.extended() {
        rex_w(register) | 1
    } else {
        rex_w(register)
    }
}

/// The REX prefix of a one-operand instruction: present only for an
/// extended register.
pub open spec fn rex_b(register: Register) -> Seq<u8> {
    if register.extended() {
        seq![0x41u8]
    } else {
        Seq::empty()
    }
}

/// The four bytes of a 32-bit value, the lowest first.
pub open spec fn le_bytes(value: u32) -> Seq<u8> {
    seq![
        (value % 256) as u8,
        ((value / 0x100) % 256) as u8,
        ((value / 0x1_0000) % 256) as u8,
        ((value / 0x100_0000) % 256) as u8,
    ]
}

/// `add r64, imm8`
pub open spec fn add_reg_code(register: Register, imm: u8) -> Seq<u8> {
    seq![rex_w(register), 0x83, modrm(3, 0, register.number()), imm]
}

/// `sub r64, imm8`
pub open spec fn sub_reg_code(register: Register, imm: u8) -> Seq<u8> {
    seq![rex_w(register), 0x83, modrm(3, 5, register.number()), imm]
}

/// `add byte [r], imm8`
pub open spec fn add_ptr_code(register: Register, imm: u8) -> Seq<u8> {
    seq![0x80, modrm(0, 0, register.number()), imm]
}

/// `sub byte [r], imm8`
pub open spec fn sub_ptr_code(register: Register, imm: u8) -> Seq<u8> {
    seq![0x80, modrm(0, 5, register.number()), imm]
}

/// `add byte [r + disp8], imm8`
pub open spec fn add_ptr_disp_code(register: Register, disp: u8, imm: u8) -> Seq<u8> {
    seq![0x80, modrm(1, 0, register.number()), disp, imm]
}

/// `sub byte [r + disp8], imm8`
pub open spec fn sub_ptr_disp_code(register: Register, disp: u8, imm: u8) -> Seq<u8> {
    seq![0x80, modrm(1, 5, register.number()), disp, imm]
}

/// `cmp byte [r], imm8`
pub open spec fn compare_code(register: Register, imm: u8) -> Seq<u8> {
    seq![0x80, modrm(0, 7, register.number()), imm]
}

/// `jne rel32`
pub open spec fn jne_code(offset: u32) -> Seq<u8> {
    seq![0x0fu8, 0x85u8] + le_bytes(offset)
}

/// `je rel32`
pub open spec fn je_code(offset: u32) -> Seq<u8> {
    seq![0x0fu8, 0x84u8] + le_bytes(offset)
}

/// `call r64`
pub open spec fn call_code(register: Register) -> Seq<u8> {
    rex_b(register) + seq![0xffu8, modrm(3, 2, register.number())]
}

/// `push r64`
pub open spec fn push_code(register: Register) -> Seq<u8> {
    rex_b(register) + seq![0xffu8, modrm(3, 6, register.number())]
}

/// `pop r64`
pub open spec fn pop_code(register: Register) -> Seq<u8> {
    rex_b(register) + seq![0x8fu8, modrm(3, 0, register.number())]
}

/// `mov dst, src` on 64-bit registers
pub open spec fn mov_code(dst: Register, src: Register) -> Seq<u8> {
    seq![rex_w_rm(src, dst), 0x89, modrm(3, src.number(), dst.number())]
}

/// The buffer with `bytes` written over what it held from `at` on.
pub open spec fn overwritten(buffer: Seq<u8>, at: int, bytes: Seq<u8>) -> Seq<u8> {
    Seq::new(
        buffer.len(),
        |i: int|
            if at <= i < at + bytes.len() {
                bytes[i - at]
            } else {
                buffer[i]
            },
    )
}

/// A cursor over a byte buffer that the caller lends. `index` is where the
/// next instruction goes.
pub struct Emitter<'a> {
    pub index: usize,
    pub buffer: &'a mut [u8],
}

impl<'a> Emitter<'a> {
    /// Whether `bytes` were appended between two states of an emitter.
    pub open spec fn appended(
        before: Seq<u8>,
        at: usize,
        after: Seq<u8>,
        index: usize,
        bytes: Seq<u8>,
    ) -> bool {
        &&& index == at + bytes.len()
        &&& after == overwritten(before, at as int, bytes)
    }

    /// How many bytes can still be written.
    pub open spec fn room(&self) -> int {
        self.buffer@.len() - self.index
    }

    /// A cursor at the start of `buffer`.
    pub fn new(buffer: &'a mut [u8]) -> (emitter: Self)
        ensures
            emitter.index == 0,
            emitter.buffer@ == old(buffer)@,
            final(emitter.buffer)@ == final(buffer)@,
    {
        Emitter { index: 0, buffer }
    }

    /// How many bytes can still be written.
    pub fn remaining(&self) -> (room: usize)
        requires
            self.index <= self.buffer@.len(),
        ensures
            room == self.room(),
    {
        self.buffer.len() - self.index
    }

    /// Appends `emitted` to the buffer.
    pub fn emit(&mut self, emitted: &[u8])
        requires
            emitted@.len() <= old(self).room(),
        ensures
            Self::appended(
                old(self).buffer@,
                old(self).index,
                final(self).buffer@,
                final(self).index,
                emitted@,
            ),
            final(final(self).buffer)@ == final(old(self).buffer)@,
    {
        let count = emitted.len();
        let capacity = self.buffer.len();
        let start = self.index;
        let mut i: usize = 0;
        while i < count
            invariant
                i <= count == emitted@.len(),
                start == old(self).index,
                self.index == start,
                start + count <= self.buffer@.len() == capacity,
                self.buffer@ == overwritten(old(self).buffer@, start as int, emitted@.take(i as int)),
                final(self.buffer)@ == final(old(self).buffer)@,
            decreases count - i,
        {
            self.buffer[start + i] = emitted[i];
            i = i + 1;
            assert(self.buffer@ =~= overwritten(
                old(self).buffer@,
                start as int,
                emitted@.take(i as int),
            ));
        }
        assert(emitted@.take(count as int) =~= emitted@);
        self.index = start + count;
    }

    fn modrm(&self, mode: u8, reg: u8, rm: u8) -> (byte: u8)
        ensures
            byte == modrm(mode, reg, rm),
    {
        let mode = (mode & 0b11) << 6;
        let reg = (reg & 0b111) << 3;
        let rm = rm & 0b111;
        mode | reg | rm
    }

    fn rexw_r(&self, register: Register) -> (prefix: u8)
        ensures
            prefix == rex_w(register),
    {
        let mut rexw: u8 = 0b0100_1000;
        if register.code() >= 8 {
            rexw = rexw | 0b0000_0100;
            assert(0b0100_1000u8 | 0b0000_0100u8 == 0x4c) by (bit_vector);
        }
        rexw
    }

    fn rexw_r_rm(&self, register: Register, rm: Register) -> (prefix: u8)
        ensures
            prefix == rex_w_rm(register, rm),
    {
        let mut rexw = self.rexw_r(register);
        if rm.code() >= 8 {
            rexw = rexw | 0b1;
        }
        rexw
    }

    fn rex_rm(&self, register: Register) -> (prefix: Option<u8>)
        ensures
            match prefix {
                Some(byte) => rex_b(register) == seq![byte],
                None => rex_b(register) == Seq::<u8>::empty(),
            },
    {
        if register.code() >= 8 {
            Some(0b0100_0001)
        } else {
            None
        }
    }

    /// Appends an instruction of one opcode byte and a ModRM byte that names
    /// `register`, with the prefix that an extended register needs.
    fn emit_unary(&mut self, register: Register, opcode: u8, extension: u8)
        requires
            rex_b(register).len() + 2 <= old(self).room(),
        ensures
            Self::appended(
                old(self).buffer@,
                old(self).index,
                final(self).buffer@,
                final(self).index,
                rex_b(register) + seq![opcode, modrm(3, extension, register.number())],
            ),
            final(final(self).buffer)@ == final(old(self).buffer)@,
    {
        let tail = self.modrm(0b11, extension, register.code());
        if let Some(rexrm) = self.rex_rm(register) {
            let op = [rexrm, opcode, tail];
            assert(op@ =~= rex_b(register) + seq![opcode, tail]);
            self.emit(&op);
        } else {
            let op = [opcode, tail];
            self.emit(&op);
        }
    }

    /// Appends a near conditional jump: two opcode bytes and `offset`, the
    /// lowest byte first.
    fn emit_jump(&mut self, condition: u8, offset: u32)
        requires
            6 <= old(self).room(),
        ensures
            Self::appended(
                old(self).buffer@,
                old(self).index,
                final(self).buffer@,
                final(self).index,
                seq![0x0fu8, condition] + le_bytes(offset),
            ),
            final(final(self).buffer)@ == final(old(self).buffer)@,
    {
        let le = to_le_bytes(offset);
        let op = [0x0f, condition, le[0], le[1], le[2], le[3]];
        assert(op@ =~= seq![0x0fu8, condition] + le_bytes(offset));
        self.emit(&op);
    }

    /// Appends `add register, imm`.
    pub fn addu8_reg(&mut self, register: Register, imm: u8)
        requires
            4 <= old(self).room(),
        ensures
            Self::appended(
                old(self).buffer@,
                old(self).index,
                final(self).buffer@,
                final(self).index,
                add_reg_code(register, imm),
            ),
            final(final(self).buffer)@ == final(old(self).buffer)@,
    {
        let op = [self.rexw_r(register), 0x83, self.modrm(0b11, 0, register.code()), imm];
        self.emit(&op);
    }

    /// Appends `sub register, imm`.
    pub fn subu8_reg(&mut self, register: Register, imm: u8)
        requires
            4 <= old(self).room(),
        ensures
            Self::appended(
                old(self).buffer@,
                old(self).index,
                final(self).buffer@,
                final(self).index,
                sub_reg_code(register, imm),
            ),
            final(final(self).buffer)@ == final(old(self).buffer)@,
    {
        let op = [self.rexw_r(register), 0x83, self.modrm(0b11, 5, register.code()), imm];
        self.emit(&op);
    }

    /// Appends `add byte [register], imm`.
    pub fn addu8_ptr(&mut self, register: Register, imm: u8)
        requires
            3 <= old(self).room(),
        ensures
            Self::appended(
                old(self).buffer@,
                old(self).index,
                final(self).buffer@,
                final(self).index,
                add_ptr_code(register, imm),
            ),
            final(final(self).buffer)@ == final(old(self).buffer)@,
    {
        let op = [0x80, self.modrm(0b00, 0, register.code()), imm];
        self.emit(&op);
    }

    /// Appends `sub byte [register], imm`.
    pub fn subu8_ptr(&mut self, register: Register, imm: u8)
        requires
            3 <= old(self).room(),
        ensures
            Self::appended(
                old(self).buffer@,
                old(self).index,
                final(self).buffer@,
                final(self).index,
                sub_ptr_code(register, imm),
            ),
            final(final(self).buffer)@ == final(old(self).buffer)@,
    {
        let op = [0x80, self.modrm(0b00, 5, register.code()), imm];
        self.emit(&op);
    }

    /// Appends `add byte [register + disp], imm`.
    pub fn addu8_ptr_u8disp(&mut self, register: Register, disp: u8, imm: u8)
        requires
            4 <= old(self).room(),
        ensures
            Self::appended(
                old(self).buffer@,
                old(self).index,
                final(self).buffer@,
                final(self).index,
                add_ptr_disp_code(register, disp, imm),
            ),
            final(final(self).buffer)@ == final(old(self).buffer)@,
    {
        let op = [0x80, self.modrm(0b01, 0, register.code()), disp, imm];
        self.emit(&op);
    }

    /// Appends `sub byte [register + disp], imm`.
    pub fn subu8_ptr_u8disp(&mut self, register: Register, disp: u8, imm: u8)
        requires
            4 <= old(self).room(),
        ensures
            Self::appended(
                old(self).buffer@,
                old(self).index,
                final(self).buffer@,
                final(self).index,
                sub_ptr_disp_code(register, disp, imm),
            ),
            final(final(self).buffer)@ == final(old(self).buffer)@,
    {
        let op = [0x80, self.modrm(0b01, 5, register.code()), disp, imm];
        self.emit(&op);
    }

    /// Appends `cmp byte [register], imm`.
    pub fn cmpu8_ptr(&mut self, register: Register, imm: u8)
        requires
            3 <= old(self).room(),
        ensures
            Self::appended(
                old(self).buffer@,
                old(self).index,
                final(self).buffer@,
                final(self).index,
                compare_code(register, imm),
            ),
            final(final(self).buffer)@ == final(old(self).buffer)@,
    {
        let op = [0x80, self.modrm(0b00, 7, register.code()), imm];
        self.emit(&op);
    }

    /// Appends `jne offset`.
    pub fn jneu32(&mut self, offset: u32)
        requires
            6 <= old(self).room(),
        ensures
            Self::appended(
                old(self).buffer@,
                old(self).index,
                final(self).buffer@,
                final(self).index,
                jne_code(offset),
            ),
            final(final(self).buffer)@ == final(old(self).buffer)@,
    {
        self.emit_jump(0x85, offset);
    }

    /// Appends `je offset`.
    pub fn jeu32(&mut self, offset: u32)
        requires
            6 <= old(self).room(),
        ensures
            Self::appended(
                old(self).buffer@,
                old(self).index,
                final(self).buffer@,
                final(self).index,
                je_code(offset),
            ),
            final(final(self).buffer)@ == final(old(self).buffer)@,
    {
        self.emit_jump(0x84, offset);
    }

    /// Appends `call register`.
    pub fn call64(&mut self, register: Register)
        requires
            call_code(register).len() <= old(self).room(),
        ensures
            Self::appended(
                old(self).buffer@,
                old(self).index,
                final(self).buffer@,
                final(self).index,
                call_code(register),
            ),
            final(final(self).buffer)@ == final(old(self).buffer)@,
    {
        self.emit_unary(register, 0xff, 2);
    }

    /// Appends `push register`.
    pub fn push(&mut self, register: Register)
        requires
            push_code(register).len() <= old(self).room(),
        ensures
            Self::appended(
                old(self).buffer@,
                old(self).index,
                final(self).buffer@,
                final(self).index,
                push_code(register),
            ),
            final(final(self).buffer)@ == final(old(self).buffer)@,
    {
        self.emit_unary(register, 0xff, 6);
    }

    /// Appends `pop register`.
    pub fn pop(&mut self, register: Register)
        requires
            pop_code(register).len() <= old(self).room(),
        ensures
            Self::appended(
                old(self).buffer@,
                old(self).index,
                final(self).buffer@,
                final(self).index,
                pop_code(register),
            ),
            final(final(self).buffer)@ == final(old(self).buffer)@,
    {
        self.emit_unary(register, 0x8f, 0);
    }

    /// Appends `mov dst, src`.
    pub fn mov64_reg(&mut self, dst: Register, src: Register)
        requires
            3 <= old(self).room(),
        ensures
            Self::appended(
                old(self).buffer@,
                old(self).index,
                final(self).buffer@,
                final(self).index,
                mov_code(dst, src),
            ),
            final(final(self).buffer)@ == final(old(self).buffer)@,
    {
        let op = [self.rexw_r_rm(src, dst), 0x89, self.modrm(0b11, src.code(), dst.code())];
        self.emit(&op);
    }
}

/// The four bytes of `value`, the lowest first.
pub fn to_le_bytes(value: u32) -> (bytes: [u8; 4])
    ensures
        bytes@ == le_bytes(value),
{
    let b0 = (value & 0xff) as u8;
    let b1 = ((value >> 8) & 0xff) as u8;
    let b2 = ((value >> 16) & 0xff) as u8;
    let b3 = ((value >> 24) & 0xff) as u8;
    assert(value & 0xff == value % 256) by (bit_vector);
    assert((value >> 8) & 0xff == (value / 0x100) % 256) by (bit_vector);
    assert((value >> 16) & 0xff == (value / 0x1_0000) % 256) by (bit_vector);
    assert((value >> 24) & 0xff == (value / 0x100_0000) % 256) by (bit_vector);
    let bytes = [b0, b1, b2, b3];
    bytes
}

} // verus!
