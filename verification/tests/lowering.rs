use bfr::brainfuck::{parse, Instruction as Bf};
use bfr::ir::{is_well_formed, transform, Instruction, TransformError};

#[test]
fn parse_keeps_the_eight_instructions() {
    assert_eq!(
        parse(b"><+-.,[]"),
        vec![
            Bf::IncrementPointer,
            Bf::DecrementPointer,
            Bf::IncrementByte,
            Bf::DecrementByte,
            Bf::OutputByte,
            Bf::ReadByte,
            Bf::JumpForwardsIfZero,
            Bf::JumpBackwardsIfNotZero,
        ]
    );
    assert_eq!(parse(b""), Vec::<Bf>::new());
    assert_eq!(parse(b"hello\n\t world"), Vec::<Bf>::new());
}

#[test]
fn parse_ignores_every_other_byte() {
    let source: Vec<u8> = (0u8..=255).chain([b'+', b'x', b'[', 0, b']']).collect();
    let filtered: Vec<u8> = source.iter().copied().filter(|b| b"><+-.,[]".contains(b)).collect();
    assert_eq!(parse(&source), parse(&filtered));
    assert_eq!(parse(&source).len(), 8 + 3);
}

#[test]
fn runs_are_fused() {
    assert_eq!(
        transform(&parse(b"+++--><<.,")),
        Ok(vec![
            Instruction::IncrementByte(1),
            Instruction::IncrementPointer(-1),
            Instruction::OutputByte,
            Instruction::ReadByte,
        ])
    );
    assert_eq!(transform(&parse(b"+")), Ok(vec![Instruction::IncrementByte(1)]));
    assert_eq!(transform(&parse(b"-")), Ok(vec![Instruction::IncrementByte(-1)]));
    assert_eq!(transform(&parse(b">")), Ok(vec![Instruction::IncrementPointer(1)]));
    assert_eq!(transform(&parse(b"<")), Ok(vec![Instruction::IncrementPointer(-1)]));
    assert_eq!(transform(&parse(b"")), Ok(vec![]));
}

#[test]
fn a_run_that_adds_nothing_is_kept() {
    assert_eq!(transform(&parse(b"+-")), Ok(vec![Instruction::IncrementByte(0)]));
    assert_eq!(
        transform(&parse(b"<>+")),
        Ok(vec![Instruction::IncrementPointer(0), Instruction::IncrementByte(1)])
    );
}

#[test]
fn a_run_ends_where_the_kind_changes() {
    assert_eq!(
        transform(&parse(b"++>>++..--")),
        Ok(vec![
            Instruction::IncrementByte(2),
            Instruction::IncrementPointer(2),
            Instruction::IncrementByte(2),
            Instruction::OutputByte,
            Instruction::OutputByte,
            Instruction::IncrementByte(-2),
        ])
    );
}

#[test]
fn brackets_carry_the_distance_to_their_partner() {
    assert_eq!(
        transform(&parse(b"[]")),
        Ok(vec![Instruction::JumpForwardsIfZero(1), Instruction::JumpBackwardsIfNotZero(1)])
    );
    assert_eq!(
        transform(&parse(b"+[->>[-]<<]")),
        Ok(vec![
            Instruction::IncrementByte(1),
            Instruction::JumpForwardsIfZero(7),
            Instruction::IncrementByte(-1),
            Instruction::IncrementPointer(2),
            Instruction::JumpForwardsIfZero(2),
            Instruction::IncrementByte(-1),
            Instruction::JumpBackwardsIfNotZero(2),
            Instruction::IncrementPointer(-2),
            Instruction::JumpBackwardsIfNotZero(7),
        ])
    );
}

#[test]
fn every_bracket_has_its_partner() {
    let source = "++++++++[>++++[>++>+++>+++>+<<<<-]>+>+>->>+[<]<-]>>.[[][[]]]";
    let program = transform(&parse(source.as_bytes())).unwrap();
    let mut brackets = 0;
    for (i, instruction) in program.iter().enumerate() {
        match *instruction {
            Instruction::JumpForwardsIfZero(d) => {
                assert!(d > 0);
                assert_eq!(program[i + d], Instruction::JumpBackwardsIfNotZero(d));
                brackets += 1;
            }
            Instruction::JumpBackwardsIfNotZero(d) => {
                assert!(d > 0 && d <= i);
                assert_eq!(program[i - d], Instruction::JumpForwardsIfZero(d));
                brackets += 1;
            }
            _ => {}
        }
    }
    assert_eq!(brackets, 14);
}

#[test]
fn no_two_neighbours_are_of_one_kind() {
    let program = transform(&parse(b"+-+->><<>+>+<<--[++>>]--")).unwrap();
    for pair in program.windows(2) {
        assert!(!matches!(pair, [Instruction::IncrementByte(_), Instruction::IncrementByte(_)]));
        assert!(!matches!(
            pair,
            [Instruction::IncrementPointer(_), Instruction::IncrementPointer(_)]
        ));
    }
}

#[test]
fn unbalanced_brackets_are_rejected() {
    assert_eq!(transform(&parse(b"[")), Err(TransformError::UnbalancedBrackets));
    assert_eq!(transform(&parse(b"]")), Err(TransformError::UnbalancedBrackets));
    assert_eq!(transform(&parse(b"[[]")), Err(TransformError::UnbalancedBrackets));
    assert_eq!(transform(&parse(b"][")), Err(TransformError::UnbalancedBrackets));
    assert_eq!(transform(&parse(b"+[-]]")), Err(TransformError::UnbalancedBrackets));
}

#[test]
fn deep_nesting_is_accepted() {
    let depth = 100;
    let source = "[".repeat(depth) + &"]".repeat(depth);
    let program = transform(&parse(source.as_bytes())).unwrap();
    assert_eq!(program.len(), 2 * depth);
    for i in 0..depth {
        let d = 2 * depth - 1 - 2 * i;
        assert_eq!(program[i], Instruction::JumpForwardsIfZero(d));
        assert_eq!(program[2 * depth - 1 - i], Instruction::JumpBackwardsIfNotZero(d));
    }
}

#[test]
fn a_long_run_is_one_instruction() {
    let source = "+".repeat(1000) + &"<".repeat(300);
    assert_eq!(
        transform(&parse(source.as_bytes())),
        Ok(vec![Instruction::IncrementByte(1000), Instruction::IncrementPointer(-300)])
    );
}

#[test]
fn well_formed_programs_are_recognised() {
    assert!(is_well_formed(&[]));
    assert!(is_well_formed(&[Instruction::IncrementByte(300), Instruction::OutputByte]));
    assert!(is_well_formed(&[
        Instruction::JumpForwardsIfZero(2),
        Instruction::ReadByte,
        Instruction::JumpBackwardsIfNotZero(2),
    ]));
    assert!(is_well_formed(&transform(&parse(b"+[[-]>[<]]")).unwrap()));
}

#[test]
fn ill_formed_programs_are_recognised() {
    // A distance of zero.
    assert!(!is_well_formed(&[Instruction::JumpForwardsIfZero(0)]));
    assert!(!is_well_formed(&[Instruction::JumpBackwardsIfNotZero(0)]));
    // A partner outside the program.
    assert!(!is_well_formed(&[Instruction::JumpForwardsIfZero(1)]));
    assert!(!is_well_formed(&[Instruction::OutputByte, Instruction::JumpBackwardsIfNotZero(2)]));
    assert!(!is_well_formed(&[Instruction::JumpForwardsIfZero(usize::MAX)]));
    // A partner with another distance, or none.
    assert!(!is_well_formed(&[
        Instruction::JumpForwardsIfZero(1),
        Instruction::JumpBackwardsIfNotZero(2),
    ]));
    assert!(!is_well_formed(&[Instruction::JumpForwardsIfZero(1), Instruction::OutputByte]));
    assert!(!is_well_formed(&[
        Instruction::JumpForwardsIfZero(1),
        Instruction::JumpForwardsIfZero(1),
    ]));
    assert!(!is_well_formed(&[Instruction::OutputByte, Instruction::JumpBackwardsIfNotZero(1)]));
}
