use bfr::brainfuck::parse;
use bfr::ir;
use bfr::jit::x86::{to_le_bytes, Emitter, Register};
use bfr::jit::{
    displacement, transform, CallableProgram, Program, Protection, SliceableProgram,
    TransformError, Vm,
};

const PROLOGUE: [u8; 23] = [
    0xff, 0xf5, // push rbp
    0x41, 0xff, 0xf4, // push r12
    0x41, 0xff, 0xf5, // push r13
    0x41, 0xff, 0xf6, // push r14
    0x48, 0x89, 0xf5, // mov rbp, rsi
    0x49, 0x89, 0xd4, // mov r12, rdx
    0x49, 0x89, 0xcd, // mov r13, rcx
    0x4d, 0x89, 0xc6, // mov r14, r8
];

const EPILOGUE: [u8; 11] = [
    0x41, 0x8f, 0xc6, // pop r14
    0x41, 0x8f, 0xc5, // pop r13
    0x41, 0x8f, 0xc4, // pop r12
    0x8f, 0xc5, // pop rbp
];

fn emitted(write: impl FnOnce(&mut Emitter)) -> Vec<u8> {
    let mut buffer = [0xc3u8; 16];
    let mut emitter = Emitter::new(&mut buffer);
    write(&mut emitter);
    let end = emitter.index;
    assert!(buffer[end..].iter().all(|&b| b == 0xc3));
    buffer[..end].to_vec()
}

fn code_of(source: &str) -> Vec<u8> {
    let program = transform(&ir::transform(&parse(source.as_bytes())).unwrap()).unwrap();
    let code = program.into_callable().code().to_vec();
    assert_eq!(code.len(), 8 * 4096);
    code
}

fn body_of(source: &str) -> Vec<u8> {
    let code = code_of(source);
    assert_eq!(code[..23], PROLOGUE);
    let end = code.iter().rposition(|&b| b != 0xc3).unwrap() + 1;
    assert_eq!(code[end - 11..end], EPILOGUE);
    code[23..end - 11].to_vec()
}

#[test]
fn register_numbers() {
    let all = [
        Register::Rax,
        Register::Rcx,
        Register::Rdx,
        Register::Rbx,
        Register::Rsp,
        Register::Rbp,
        Register::Rsi,
        Register::Rdi,
        Register::R8,
        Register::R9,
        Register::R10,
        Register::R11,
        Register::R12,
        Register::R13,
        Register::R14,
        Register::R15,
    ];
    for (number, register) in all.iter().enumerate() {
        assert_eq!(register.code() as usize, number);
    }
}

#[test]
fn add_and_sub_on_a_register() {
    assert_eq!(emitted(|e| e.addu8_reg(Register::Rdi, 5)), vec![0x48, 0x83, 0xc7, 0x05]);
    assert_eq!(emitted(|e| e.subu8_reg(Register::Rdi, 1)), vec![0x48, 0x83, 0xef, 0x01]);
    assert_eq!(emitted(|e| e.addu8_reg(Register::Rax, 255)), vec![0x48, 0x83, 0xc0, 0xff]);
    assert_eq!(emitted(|e| e.addu8_reg(Register::R9, 2)), vec![0x4c, 0x83, 0xc1, 0x02]);
    assert_eq!(emitted(|e| e.subu8_reg(Register::R15, 3)), vec![0x4c, 0x83, 0xef, 0x03]);
}

#[test]
fn add_sub_and_cmp_on_memory() {
    assert_eq!(emitted(|e| e.addu8_ptr(Register::Rdi, 1)), vec![0x80, 0x07, 0x01]);
    assert_eq!(emitted(|e| e.subu8_ptr(Register::Rdi, 1)), vec![0x80, 0x2f, 0x01]);
    assert_eq!(emitted(|e| e.cmpu8_ptr(Register::Rdi, 0)), vec![0x80, 0x3f, 0x00]);
    assert_eq!(emitted(|e| e.addu8_ptr(Register::Rbx, 9)), vec![0x80, 0x03, 0x09]);
    assert_eq!(emitted(|e| e.cmpu8_ptr(Register::Rsi, 7)), vec![0x80, 0x3e, 0x07]);
}

#[test]
fn add_and_sub_on_memory_with_displacement() {
    assert_eq!(emitted(|e| e.addu8_ptr_u8disp(Register::Rdi, 2, 1)), vec![0x80, 0x47, 0x02, 0x01]);
    assert_eq!(emitted(|e| e.subu8_ptr_u8disp(Register::Rdi, 4, 3)), vec![0x80, 0x6f, 0x04, 0x03]);
}

#[test]
fn near_jumps_hold_the_offset_lowest_byte_first() {
    assert_eq!(
        emitted(|e| e.jneu32(0x1234_5678)),
        vec![0x0f, 0x85, 0x78, 0x56, 0x34, 0x12]
    );
    assert_eq!(emitted(|e| e.jeu32(42)), vec![0x0f, 0x84, 42, 0, 0, 0]);
    assert_eq!(emitted(|e| e.jeu32(u32::MAX)), vec![0x0f, 0x84, 0xff, 0xff, 0xff, 0xff]);
    assert_eq!(to_le_bytes(0xdead_beef), [0xef, 0xbe, 0xad, 0xde]);
}

#[test]
fn call_push_and_pop() {
    assert_eq!(emitted(|e| e.call64(Register::Rbp)), vec![0xff, 0xd5]);
    assert_eq!(emitted(|e| e.call64(Register::R13)), vec![0x41, 0xff, 0xd5]);
    assert_eq!(emitted(|e| e.call64(Register::R8)), vec![0x41, 0xff, 0xd0]);
    assert_eq!(emitted(|e| e.push(Register::Rdi)), vec![0xff, 0xf7]);
    assert_eq!(emitted(|e| e.push(Register::R12)), vec![0x41, 0xff, 0xf4]);
    assert_eq!(emitted(|e| e.push(Register::R8)), vec![0x41, 0xff, 0xf0]);
    assert_eq!(emitted(|e| e.pop(Register::Rdi)), vec![0x8f, 0xc7]);
    assert_eq!(emitted(|e| e.pop(Register::R14)), vec![0x41, 0x8f, 0xc6]);
    assert_eq!(emitted(|e| e.pop(Register::R8)), vec![0x41, 0x8f, 0xc0]);
}

#[test]
fn mov_between_registers() {
    assert_eq!(emitted(|e| e.mov64_reg(Register::Rbp, Register::Rsi)), vec![0x48, 0x89, 0xf5]);
    assert_eq!(emitted(|e| e.mov64_reg(Register::R12, Register::Rdx)), vec![0x49, 0x89, 0xd4]);
    assert_eq!(emitted(|e| e.mov64_reg(Register::Rsi, Register::R12)), vec![0x4c, 0x89, 0xe6]);
    assert_eq!(emitted(|e| e.mov64_reg(Register::R14, Register::R8)), vec![0x4d, 0x89, 0xc6]);
}

#[test]
fn instructions_follow_one_another() {
    let mut buffer = [0xc3u8; 8];
    let mut emitter = Emitter::new(&mut buffer);
    assert_eq!(emitter.index, 0);
    assert_eq!(emitter.remaining(), 8);
    emitter.emit(&[1, 2, 3]);
    assert_eq!(emitter.index, 3);
    emitter.push(Register::Rax);
    assert_eq!(emitter.index, 5);
    assert_eq!(emitter.remaining(), 3);
    emitter.emit(&[]);
    assert_eq!(emitter.index, 5);
    assert_eq!(buffer, [1, 2, 3, 0xff, 0xf0, 0xc3, 0xc3, 0xc3]);
}

#[test]
fn a_new_program_is_all_returns() {
    let program = Program::new(2);
    let sliceable = program.into_sliceable();
    assert_eq!(sliceable.as_slice().len(), 2 * 4096);
    assert!(sliceable.as_slice().iter().all(|&b| b == 0xc3));
    assert_eq!(Program::new(0).into_callable().code().len(), 0);
}

#[test]
fn a_program_keeps_what_was_written() {
    let mut sliceable = Program::new(1).into_sliceable();
    sliceable.as_mut_slice()[3] = 0x90;
    let callable = sliceable.lock().into_callable();
    assert_eq!(callable.code()[3], 0x90);
    assert_eq!(callable.code()[4], 0xc3);
    let again = callable.lock().into_sliceable();
    assert_eq!(again.as_slice()[3], 0x90);
}

#[test]
fn the_empty_program_is_prologue_and_epilogue() {
    let code = code_of("");
    assert_eq!(code[..23], PROLOGUE);
    assert_eq!(code[23..34], EPILOGUE);
    assert!(code[34..].iter().all(|&b| b == 0xc3));
}

#[test]
fn pointer_moves_and_cell_additions() {
    assert_eq!(body_of(">>>"), vec![0x48, 0x83, 0xc7, 0x03]);
    assert_eq!(body_of("<<"), vec![0x48, 0x83, 0xef, 0x02]);
    assert_eq!(body_of("+++++"), vec![0x80, 0x07, 0x05]);
    assert_eq!(body_of("-"), vec![0x80, 0x2f, 0x01]);
    assert_eq!(body_of("+-"), Vec::<u8>::new());
    assert_eq!(body_of("<>"), Vec::<u8>::new());
}

#[test]
fn large_deltas_are_split() {
    assert_eq!(body_of(&"+".repeat(255)), vec![0x80, 0x07, 0xff]);
    assert_eq!(body_of(&"+".repeat(256)), vec![0x80, 0x07, 0xff, 0x80, 0x07, 0x01]);
    assert_eq!(
        body_of(&"<".repeat(600)),
        vec![0x48, 0x83, 0xef, 0xff, 0x48, 0x83, 0xef, 0xff, 0x48, 0x83, 0xef, 90]
    );
}

#[test]
fn input_and_output_call_the_host() {
    assert_eq!(body_of("."), vec![0x4c, 0x89, 0xe6, 0xff, 0xf7, 0xff, 0xd5, 0x8f, 0xc7]);
    assert_eq!(body_of(","), vec![0x4c, 0x89, 0xf6, 0xff, 0xf7, 0x41, 0xff, 0xd5, 0x8f, 0xc7]);
}

#[test]
fn jumps_lead_to_the_jump_of_their_partner() {
    // [-]: the loop body is three bytes long.
    assert_eq!(
        body_of("[-]"),
        vec![
            0x80, 0x3f, 0x00, 0x0f, 0x84, 0x06, 0x00, 0x00, 0x00, // cmp; je +6
            0x80, 0x2f, 0x01, // sub byte [rdi], 1
            0x80, 0x3f, 0x00, 0x0f, 0x85, 0xee, 0xff, 0xff, 0xff, // cmp; jne -18
        ]
    );
    assert_eq!(
        body_of("[]"),
        vec![
            0x80, 0x3f, 0x00, 0x0f, 0x84, 0x03, 0x00, 0x00, 0x00, // cmp; je +3
            0x80, 0x3f, 0x00, 0x0f, 0x85, 0xf1, 0xff, 0xff, 0xff, // cmp; jne -15
        ]
    );
}

#[test]
fn nested_jumps() {
    let body = body_of("[[]]");
    let rel = |at: usize| i32::from_le_bytes([body[at], body[at + 1], body[at + 2], body[at + 3]]);
    // The jumps begin at 3, 12, 21 and 30; each displacement is at site + 2.
    assert_eq!(rel(5), 30 - (3 + 6));
    assert_eq!(rel(14), 21 - (12 + 6));
    assert_eq!(rel(23), 12 - (21 + 6));
    assert_eq!(rel(32), 3 - (30 + 6));
}

#[test]
fn code_that_does_not_fit_is_refused() {
    let fits = ir::transform(&parse(".".repeat(3637).as_bytes())).unwrap();
    assert!(transform(&fits).is_ok());
    let too_long = ir::transform(&parse(".".repeat(3638).as_bytes())).unwrap();
    assert_eq!(transform(&too_long).err(), Some(TransformError::EmitterOverflow));
    let huge = vec![ir::Instruction::IncrementPointer(i32::MIN)];
    assert_eq!(transform(&huge).err(), Some(TransformError::EmitterOverflow));
}

#[test]
fn displacements() {
    assert_eq!(displacement(3, 12), Ok(3));
    assert_eq!(displacement(12, 3), Ok(-15));
    assert_eq!(displacement(0, 6), Ok(0));
    assert_eq!(displacement(0, 0x7fff_ffff + 6), Ok(i32::MAX));
    assert_eq!(displacement(0, 0x8000_0000 + 6), Err(TransformError::DisplacementOverflow));
    assert_eq!(displacement(0x8000_0000 - 6, 0), Ok(i32::MIN));
    assert_eq!(displacement(0x8000_0000 - 5, 0), Err(TransformError::DisplacementOverflow));
    assert_eq!(displacement(usize::MAX, 0), Err(TransformError::DisplacementOverflow));
    assert_eq!(displacement(0, usize::MAX), Err(TransformError::DisplacementOverflow));
}

#[test]
fn a_machine_starts_with_a_zeroed_tape() {
    let program = transform(&ir::transform(&parse(b"+.")).unwrap()).unwrap();
    let mut vm = Vm::new(program);
    assert_eq!(vm.program().code()[..23], PROLOGUE);
    assert!(vm.cells_mut().iter().all(|&cell| cell == 0));
    vm.cells_mut()[5] = 1;
    assert_eq!(vm.cells_mut()[5], 1);
}

#[test]
fn the_three_states_hold_the_same_bytes() {
    let mut sliceable = SliceableProgram::new(Program::new(1));
    sliceable.as_mut_slice()[0] = 0x90;
    let callable = CallableProgram::new(sliceable.lock());
    assert_eq!(callable.code()[0], 0x90);
    assert_eq!(callable.code().len(), 4096);
}

#[test]
fn the_hello_world_program_fits() {
    let source = "++++++++[>++++[>++>+++>+++>+<<<<-]>+>+>->>+[<]<-]>>.>---.+++++++..+++.>>.<-.<.+++.------.--------.>>+.>++.";
    let lowered = ir::transform(&parse(source.as_bytes())).unwrap();
    let code = transform(&lowered).unwrap().into_callable().code().to_vec();
    assert_eq!(code[..23], PROLOGUE);
    // Every jump leads to the jump of its partner.
    let mut offset = 23;
    let mut sites = Vec::new();
    for instruction in &lowered {
        let len = match *instruction {
            ir::Instruction::IncrementPointer(_) => 4,
            ir::Instruction::IncrementByte(_) => 3,
            ir::Instruction::OutputByte => 9,
            ir::Instruction::ReadByte => 10,
            ir::Instruction::JumpForwardsIfZero(_) | ir::Instruction::JumpBackwardsIfNotZero(_) => 9,
        };
        sites.push(offset + 3);
        offset += len;
    }
    assert_eq!(code[offset..offset + 11], EPILOGUE);
    assert!(code[offset + 11..].iter().all(|&b| b == 0xc3));
    for (i, instruction) in lowered.iter().enumerate() {
        let partner = match *instruction {
            ir::Instruction::JumpForwardsIfZero(d) => i + d,
            ir::Instruction::JumpBackwardsIfNotZero(d) => i - d,
            _ => continue,
        };
        let at = sites[i] + 2;
        let rel = i32::from_le_bytes([code[at], code[at + 1], code[at + 2], code[at + 3]]);
        assert_eq!(rel as i64, sites[partner] as i64 - (sites[i] as i64 + 6));
    }
}

#[test]
fn each_state_has_its_protection() {
    let program = Program::new(1);
    assert_eq!(program.protection(), Protection::Locked);
    let sliceable = program.into_sliceable();
    assert_eq!(sliceable.protection(), Protection::Writable);
    let callable = sliceable.lock().into_callable();
    assert_eq!(callable.protection(), Protection::Executable);
    assert_eq!(callable.lock().protection(), Protection::Locked);
    for protection in [Protection::Locked, Protection::Writable, Protection::Executable] {
        assert!(!(protection.writable() && protection.executable()));
        assert_eq!(protection.readable(), protection != Protection::Locked);
    }
    assert!(Protection::Writable.writable());
    assert!(Protection::Executable.executable());
}
