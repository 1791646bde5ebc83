use brainfuck::compiler::{compile, CompileError};
use brainfuck::instruction::InstKind;

fn partner(inst: InstKind) -> Option<usize> {
    match inst {
        InstKind::JumpIfZero(target) | InstKind::JumpIfNonZero(target) => Some(target),
        _ => None,
    }
}

#[test]
fn empty_source_compiles_to_nothing() {
    assert_eq!(compile(""), Ok(vec![]));
}

#[test]
fn each_symbol_maps_to_its_instruction() {
    assert_eq!(
        compile("+-><.,"),
        Ok(vec![
            InstKind::Add(1),
            InstKind::Subtract(1),
            InstKind::MoveRight(1),
            InstKind::MoveLeft(1),
            InstKind::Output,
            InstKind::Input,
        ])
    );
}

#[test]
fn runs_are_folded_with_their_length() {
    assert_eq!(
        compile("+++-->>>><"),
        Ok(vec![
            InstKind::Add(3),
            InstKind::Subtract(2),
            InstKind::MoveRight(4),
            InstKind::MoveLeft(1),
        ])
    );
}

#[test]
fn a_long_run_keeps_its_full_length() {
    let source = "+".repeat(300) + &">".repeat(40000);
    assert_eq!(compile(&source), Ok(vec![InstKind::Add(300), InstKind::MoveRight(40000)]));
}

#[test]
fn output_input_and_brackets_are_not_folded() {
    assert_eq!(
        compile("..,,[[]]"),
        Ok(vec![
            InstKind::Output,
            InstKind::Output,
            InstKind::Input,
            InstKind::Input,
            InstKind::JumpIfZero(7),
            InstKind::JumpIfZero(6),
            InstKind::JumpIfNonZero(5),
            InstKind::JumpIfNonZero(4),
        ])
    );
}

#[test]
fn other_characters_are_skipped() {
    assert_eq!(
        compile("add one: + then print: . (done)\n"),
        Ok(vec![InstKind::Add(1), InstKind::Output])
    );
}

#[test]
fn characters_beyond_ascii_are_skipped() {
    assert_eq!(
        compile("é+ü+→-"),
        Ok(vec![InstKind::Add(1), InstKind::Add(1), InstKind::Subtract(1)])
    );
}

#[test]
fn a_skipped_character_ends_a_run() {
    assert_eq!(
        compile("++ ++"),
        Ok(vec![InstKind::Add(2), InstKind::Add(2)])
    );
}

#[test]
fn brackets_carry_their_partner() {
    assert_eq!(
        compile("[-]"),
        Ok(vec![InstKind::JumpIfZero(2), InstKind::Subtract(1), InstKind::JumpIfNonZero(0)])
    );
}

#[test]
fn nested_and_sibling_loops_are_paired() {
    assert_eq!(
        compile("+[>[-]<[.]]"),
        Ok(vec![
            InstKind::Add(1),
            InstKind::JumpIfZero(10),
            InstKind::MoveRight(1),
            InstKind::JumpIfZero(5),
            InstKind::Subtract(1),
            InstKind::JumpIfNonZero(3),
            InstKind::MoveLeft(1),
            InstKind::JumpIfZero(9),
            InstKind::Output,
            InstKind::JumpIfNonZero(7),
            InstKind::JumpIfNonZero(1),
        ])
    );
}

#[test]
fn pairing_is_an_involution() {
    let program = compile("++[>+[-]<[->+<]>[[-]]<-]>[,.]").unwrap();
    let mut jumps = 0;
    for (i, inst) in program.iter().enumerate() {
        if let Some(target) = partner(*inst) {
            jumps += 1;
            assert!(target < program.len());
            assert_eq!(partner(program[target]), Some(i));
            match (inst, program[target]) {
                (InstKind::JumpIfZero(_), InstKind::JumpIfNonZero(_)) => assert!(i < target),
                (InstKind::JumpIfNonZero(_), InstKind::JumpIfZero(_)) => assert!(target < i),
                _ => panic!("a jump is paired with a jump of its own kind"),
            }
        }
    }
    assert_eq!(jumps, 12);
}

#[test]
fn unmatched_close_is_rejected_at_its_position() {
    assert_eq!(compile("]"), Err(CompileError::UnmatchedBracket { position: 0 }));
    assert_eq!(compile("+]"), Err(CompileError::UnmatchedBracket { position: 1 }));
    assert_eq!(compile("[]]["), Err(CompileError::UnmatchedBracket { position: 2 }));
    assert_eq!(compile("+++]"), Err(CompileError::UnmatchedBracket { position: 3 }));
}

#[test]
fn unmatched_open_is_rejected_at_its_position() {
    assert_eq!(compile("["), Err(CompileError::UnmatchedBracket { position: 0 }));
    assert_eq!(compile("[[]"), Err(CompileError::UnmatchedBracket { position: 0 }));
    assert_eq!(compile("[]["), Err(CompileError::UnmatchedBracket { position: 2 }));
    assert_eq!(compile("++[-"), Err(CompileError::UnmatchedBracket { position: 2 }));
}

#[test]
fn the_innermost_open_loop_is_reported() {
    assert_eq!(compile("[+[-[.]"), Err(CompileError::UnmatchedBracket { position: 2 }));
}

#[test]
fn the_first_stray_close_wins_over_an_open_loop() {
    assert_eq!(compile("[]]+["), Err(CompileError::UnmatchedBracket { position: 2 }));
}

#[test]
fn positions_count_characters() {
    assert_eq!(compile("é→]"), Err(CompileError::UnmatchedBracket { position: 2 }));
    assert_eq!(compile("ü[é"), Err(CompileError::UnmatchedBracket { position: 1 }));
    assert_eq!(compile("𝄞+++𝄞--]"), Err(CompileError::UnmatchedBracket { position: 7 }));
    assert_eq!(compile("+++[→>>>"), Err(CompileError::UnmatchedBracket { position: 3 }));
}

#[test]
fn a_large_program_compiles() {
    let source = "+[->+<]é ".repeat(20000);
    let program = compile(&source).unwrap();
    assert_eq!(program.len(), 7 * 20000);
    assert_eq!(program[7 * 19999 + 1], InstKind::JumpIfZero(7 * 19999 + 6));
    assert_eq!(program[7 * 19999 + 6], InstKind::JumpIfNonZero(7 * 19999 + 1));
}
