use bfr::brainfuck::{self, parse};
use bfr::ir;
use bfr::machine::Input;

const HELLO: &str = "++++++++[>++++[>++>+++>+++>+<<<<-]>+>+>->>+[<]<-]>>.>---.+++++++..+++.>>.<-.<.+++.------.--------.>>+.>++.";

const LIMIT: u64 = 10_000_000;

fn run_direct(source: &str, input: &[u8]) -> (brainfuck::Vm, Vec<u8>, Result<(), brainfuck::VmError>) {
    let mut vm = brainfuck::Vm::new(parse(source.as_bytes()));
    let mut input = Input::new(input.to_vec());
    let mut output = Vec::new();
    let result = vm.vm_loop(&mut input, &mut output, LIMIT);
    (vm, output, result)
}

fn run_lowered(source: &str, input: &[u8]) -> (ir::Vm, Vec<u8>, Result<(), ir::VmError>) {
    run_lowered_with(source, input, LIMIT)
}

fn run_lowered_with(
    source: &str,
    input: &[u8],
    limit: u64,
) -> (ir::Vm, Vec<u8>, Result<(), ir::VmError>) {
    let program = ir::transform(&parse(source.as_bytes())).expect("balanced program");
    let mut vm = ir::Vm::new(program);
    let mut input = Input::new(input.to_vec());
    let mut output = Vec::new();
    let result = vm.vm_loop(&mut input, &mut output, limit);
    (vm, output, result)
}

#[test]
fn hello_world_direct() {
    let (vm, output, result) = run_direct(HELLO, &[]);
    assert_eq!(result, Ok(()));
    assert!(vm.halted());
    assert_eq!(output, b"Hello World!\n".to_vec());
}

#[test]
fn hello_world_lowered() {
    let (vm, output, result) = run_lowered(HELLO, &[]);
    assert_eq!(result, Ok(()));
    assert!(vm.halted());
    assert_eq!(output, b"Hello World!\n".to_vec());
}

#[test]
fn identity_echo() {
    let input = [0x00, 0x40, 0x7f];
    let (_, direct, _) = run_direct(",+.,+.,+.", &input);
    let (_, lowered, _) = run_lowered(",+.,+.,+.", &input);
    assert_eq!(direct, vec![0x01, 0x41, 0x80]);
    assert_eq!(lowered, vec![0x01, 0x41, 0x80]);
}

#[test]
fn cell_wrap() {
    let (_, direct, _) = run_direct("-.", &[]);
    let (_, lowered, _) = run_lowered("-.", &[]);
    assert_eq!(direct, vec![0xff]);
    assert_eq!(lowered, vec![0xff]);
}

#[test]
fn nested_loops_direct() {
    let source = "++>+++[<[->+<]>[-<+>]>-]<.";
    let mut vm = brainfuck::Vm::new(parse(source.as_bytes()));
    let mut input = Input::new(Vec::new());
    let mut output = Vec::new();
    // 52 instructions take the machine through the two inner loops: the sum
    // is in the first cell.
    assert_eq!(vm.vm_loop(&mut input, &mut output, 52), Ok(()));
    assert_eq!(vm.cells()[0], 5);
    assert_eq!(vm.cells()[1], 0);
    assert_eq!(vm.cells()[2], 0);
    // The outer loop counts on a cell that nothing sets: it goes on, one
    // cell further each time, until the pointer leaves the tape.
    let result = vm.vm_loop(&mut input, &mut output, 200_000_000);
    assert_eq!(result, Err(brainfuck::VmError::PointerOutOfBounds));
    assert!(!vm.halted());
    assert!(output.is_empty());
    assert_eq!(vm.cells()[0], 5);
    assert_eq!(vm.cells()[1], 255);
}

#[test]
fn nested_loops_lowered() {
    let source = "++>+++[<[->+<]>[-<+>]>-]<.";
    let (vm, _, result) = run_lowered_with(source, &[], 49);
    assert_eq!(result, Ok(()));
    assert_eq!(vm.cells()[0], 5);
    assert_eq!(vm.cells()[1], 0);
    assert_eq!(vm.cells()[2], 0);
    let (vm, output, result) = run_lowered_with(source, &[], 200_000_000);
    assert_eq!(result, Err(ir::VmError::PointerOutOfBounds));
    assert!(!vm.halted());
    assert!(output.is_empty());
    assert_eq!(vm.cells()[0], 5);
    assert_eq!(vm.cells()[1], 255);
}

#[test]
fn addition_loop_leaves_sum_in_first_cell() {
    let source = "++>+++[-<+>]<.";
    let (direct_vm, direct, _) = run_direct(source, &[]);
    let (lowered_vm, lowered, _) = run_lowered(source, &[]);
    assert_eq!(direct, vec![5]);
    assert_eq!(lowered, vec![5]);
    for vm_cells in [direct_vm.cells(), lowered_vm.cells()] {
        assert_eq!(vm_cells[0], 5);
        assert_eq!(vm_cells[1], 0);
        assert_eq!(vm_cells[2], 0);
    }
}

#[test]
fn empty_loop_on_zero_cell_terminates() {
    let (direct_vm, direct, direct_result) = run_direct("[]", &[]);
    let (lowered_vm, lowered, lowered_result) = run_lowered("[]", &[]);
    assert_eq!(direct_result, Ok(()));
    assert_eq!(lowered_result, Ok(()));
    assert!(direct_vm.halted());
    assert!(lowered_vm.halted());
    assert!(direct.is_empty());
    assert!(lowered.is_empty());
}

#[test]
fn empty_loop_on_nonzero_cell_never_halts() {
    let mut direct = brainfuck::Vm::new(parse(b"+[]"));
    let mut lowered = ir::Vm::new(ir::transform(&parse(b"+[]")).unwrap());
    let mut input = Input::new(Vec::new());
    let mut output = Vec::new();
    assert_eq!(direct.vm_loop(&mut input, &mut output, 100_000), Ok(()));
    assert_eq!(lowered.vm_loop(&mut input, &mut output, 100_000), Ok(()));
    assert!(!direct.halted());
    assert!(!lowered.halted());
    assert!(output.is_empty());
}

#[test]
fn comment_tolerance() {
    let source = "++ this is not a comment ++ .";
    let (_, direct, _) = run_direct(source, &[]);
    let (_, lowered, _) = run_lowered(source, &[]);
    assert_eq!(direct, vec![4]);
    assert_eq!(lowered, vec![4]);
}

#[test]
fn reading_past_the_end_of_input_gives_zero() {
    let (_, direct, _) = run_direct("+,.", &[]);
    let (_, lowered, _) = run_lowered("+,.", &[]);
    assert_eq!(direct, vec![0]);
    assert_eq!(lowered, vec![0]);
    let (_, direct, _) = run_direct(",.,.", &[7]);
    assert_eq!(direct, vec![7, 0]);
}

#[test]
fn input_is_read_in_order() {
    let mut input = Input::new(vec![1, 2, 3]);
    assert_eq!(input.remaining(), 3);
    assert_eq!(input.read(), Some(1));
    assert_eq!(input.read(), Some(2));
    assert_eq!(input.remaining(), 1);
    assert_eq!(input.read(), Some(3));
    assert_eq!(input.read(), None);
    assert_eq!(input.remaining(), 0);
}

#[test]
fn direct_and_lowered_agree() {
    let programs = [
        HELLO,
        ",[.,]",
        "+++[>+++[>+<-]<-]>>.",
        ">>+<<-.>>.",
        "+-+-.",
        ",>,<[->+<]>.",
    ];
    for source in programs {
        let input = [3u8, 9, 27, 0, 5];
        let (_, direct, direct_result) = run_direct(source, &input);
        let (_, lowered, lowered_result) = run_lowered(source, &input);
        assert_eq!(direct_result, Ok(()));
        assert_eq!(lowered_result, Ok(()));
        assert_eq!(direct, lowered, "{}", source);
    }
}

#[test]
fn stepping_one_instruction_at_a_time() {
    let mut vm = ir::Vm::new(ir::transform(&parse(b",+.")).unwrap());
    let mut input = Input::new(vec![41]);
    let mut output = Vec::new();
    assert!(vm.wants_input());
    assert_eq!(vm.step(&mut input, &mut output), Ok(()));
    assert!(!vm.wants_input());
    assert_eq!(vm.cells()[0], 41);
    assert_eq!(vm.step(&mut input, &mut output), Ok(()));
    assert_eq!(vm.cells()[0], 42);
    assert!(output.is_empty());
    assert_eq!(vm.step(&mut input, &mut output), Ok(()));
    assert_eq!(output, vec![42]);
    assert!(vm.halted());

    let mut vm = brainfuck::Vm::new(parse(b",-"));
    let mut input = Input::new(vec![1]);
    assert!(vm.wants_input());
    assert_eq!(vm.step(&mut input, &mut output), Ok(()));
    assert!(!vm.wants_input());
    assert_eq!(vm.step(&mut input, &mut output), Ok(()));
    assert_eq!(vm.cells()[0], 0);
    assert!(vm.halted());
}

#[test]
fn moving_left_of_the_tape_fails() {
    let (vm, _, result) = run_direct("+<+", &[]);
    assert_eq!(result, Err(brainfuck::VmError::PointerOutOfBounds));
    assert!(!vm.halted());
    assert_eq!(vm.cells()[0], 1);
    let (vm, _, result) = run_lowered("+<+", &[]);
    assert_eq!(result, Err(ir::VmError::PointerOutOfBounds));
    assert!(!vm.halted());
    assert_eq!(vm.cells()[0], 1);
}

#[test]
fn moving_right_of_the_tape_fails() {
    let inside = ">".repeat(29_999) + "+.";
    let (_, output, result) = run_direct(&inside, &[]);
    assert_eq!(result, Ok(()));
    assert_eq!(output, vec![1]);
    let (_, output, result) = run_lowered(&inside, &[]);
    assert_eq!(result, Ok(()));
    assert_eq!(output, vec![1]);

    let outside = ">".repeat(30_000);
    let (_, _, result) = run_direct(&outside, &[]);
    assert_eq!(result, Err(brainfuck::VmError::PointerOutOfBounds));
    let (_, _, result) = run_lowered(&outside, &[]);
    assert_eq!(result, Err(ir::VmError::PointerOutOfBounds));
}

#[test]
fn direct_interpreter_reports_a_missing_partner() {
    let (_, _, result) = run_direct("[", &[]);
    assert_eq!(result, Err(brainfuck::VmError::NoMatchingJump));
    let (_, _, result) = run_direct("+]", &[]);
    assert_eq!(result, Err(brainfuck::VmError::NoMatchingJump));
    let (vm, _, result) = run_direct("+[", &[]);
    assert_eq!(result, Ok(()));
    assert!(vm.halted());
}

#[test]
fn cell_addition_wraps() {
    let mut vm = ir::Vm::new(vec![
        ir::Instruction::IncrementByte(7),
        ir::Instruction::IncrementByte(256),
        ir::Instruction::OutputByte,
        ir::Instruction::IncrementByte(-7),
        ir::Instruction::IncrementByte(-1),
        ir::Instruction::OutputByte,
        ir::Instruction::IncrementByte(i32::MAX),
        ir::Instruction::OutputByte,
        ir::Instruction::IncrementByte(i32::MIN),
        ir::Instruction::OutputByte,
    ]);
    let mut input = Input::new(Vec::new());
    let mut output = Vec::new();
    assert_eq!(vm.vm_loop(&mut input, &mut output, 100), Ok(()));
    assert_eq!(output, vec![7, 255, 254, 254]);
}
