use brainfuck::compiler::CompileError;
use brainfuck::instruction::InstKind;
use brainfuck::interpreter::{Interpreter, Outcome, Report, TAPE_LEN};
use brainfuck::machine::RunError;

const PLENTY: u64 = 10_000_000;

fn load(source: &str) -> Interpreter {
    Interpreter::new(source).unwrap()
}

fn execute(source: &str, input: &[u8]) -> (Interpreter, Report) {
    let mut interpreter = load(source);
    let report = interpreter.run(input, PLENTY);
    (interpreter, report)
}

#[test]
fn a_new_interpreter_is_blank() {
    let interpreter = load("+[-]");
    assert_eq!(TAPE_LEN, 30000);
    assert_eq!(interpreter.data().len(), 30000);
    assert!(interpreter.data().iter().all(|&cell| cell == 0));
    assert_eq!(interpreter.pointer(), 0);
    assert_eq!(interpreter.instruction_index(), 0);
    assert_eq!(
        interpreter.instructions(),
        &[
            InstKind::Add(1),
            InstKind::JumpIfZero(3),
            InstKind::Subtract(1),
            InstKind::JumpIfNonZero(1),
        ][..]
    );
    assert!(!interpreter.is_halted());
}

#[test]
fn new_rejects_unbalanced_brackets() {
    assert_eq!(
        Interpreter::new("+[").err(),
        Some(CompileError::UnmatchedBracket { position: 1 })
    );
    assert_eq!(
        Interpreter::new("+]").err(),
        Some(CompileError::UnmatchedBracket { position: 1 })
    );
}

#[test]
fn multiplication_loop_prints_an_at_sign() {
    let (_, report) = execute("++++++++[>++++++++<-]>.", &[]);
    assert_eq!(report.output, vec![64]);
    assert_eq!(report.output, b"@".to_vec());
    assert_eq!(report.consumed, 0);
    assert_eq!(report.outcome, Outcome::Halted);
}

#[test]
fn input_then_output_echoes_one_byte() {
    for byte in [0u8, 1, 65, 127, 128, 255] {
        let (_, report) = execute(",.", &[byte, 99]);
        assert_eq!(report.output, vec![byte]);
        assert_eq!(report.consumed, 1);
        assert_eq!(report.outcome, Outcome::Halted);
    }
}

#[test]
fn empty_program_halts_at_once() {
    let mut interpreter = load("");
    assert!(interpreter.is_halted());
    let report = interpreter.run(&[1, 2, 3], PLENTY);
    assert_eq!(report.output, Vec::<u8>::new());
    assert_eq!(report.consumed, 0);
    assert_eq!(report.outcome, Outcome::Halted);
    assert!(interpreter.data().iter().all(|&cell| cell == 0));
    assert_eq!(interpreter.pointer(), 0);
}

#[test]
fn a_program_of_comments_is_empty() {
    let (_, report) = execute("nothing to see here\n", &[7]);
    assert_eq!(report.output, Vec::<u8>::new());
    assert_eq!(report.consumed, 0);
    assert_eq!(report.outcome, Outcome::Halted);
}

#[test]
fn cells_wrap_at_eight_bits() {
    let (interpreter, report) = execute("-.>++++++++[<++++++++++++++++++++++++++++++++>-]<+++.", &[]);
    assert_eq!(report.output, vec![255, 2]);
    assert_eq!(interpreter.data()[0], 2);
}

#[test]
fn a_run_of_256_leaves_the_cell_as_it_was() {
    let source = "+++++".to_string() + &"+".repeat(256) + "." + &"-".repeat(256) + ".";
    let (_, report) = execute(&source, &[]);
    assert_eq!(report.output, vec![5, 5]);
}

#[test]
fn a_folded_count_is_taken_modulo_256() {
    let source = "+".repeat(300) + "." + &"-".repeat(600) + ".";
    let (_, report) = execute(&source, &[]);
    assert_eq!(report.output, vec![44, 212]);
}

#[test]
fn add_then_subtract_restores_the_cell() {
    for start in [0usize, 1, 100, 200, 255] {
        for n in 0..=255usize {
            let source = "+".repeat(start) + ">" + "<" + &"+".repeat(n) + ">" + "<" + &"-".repeat(n);
            let mut interpreter = load(&source);
            interpreter.run(&[], PLENTY);
            assert_eq!(interpreter.data()[0] as usize, start);
        }
    }
}

#[test]
fn a_loop_on_a_zero_cell_is_skipped() {
    let (interpreter, report) = execute("[.+,>]+.", &[9]);
    assert_eq!(report.output, vec![1]);
    assert_eq!(report.consumed, 0);
    assert_eq!(interpreter.pointer(), 0);
    assert_eq!(interpreter.data()[0], 1);
    assert!(interpreter.data()[1..].iter().all(|&cell| cell == 0));
}

#[test]
fn a_skipped_loop_takes_one_step() {
    let mut interpreter = load("[[-]>.]+");
    assert_eq!(interpreter.next(None), Ok(None));
    assert_eq!(interpreter.instruction_index(), 7);
    assert_eq!(interpreter.pointer(), 0);
    assert!(interpreter.data().iter().all(|&cell| cell == 0));
}

#[test]
fn a_loop_runs_while_its_cell_is_not_zero() {
    let (interpreter, report) = execute("+++[.-]", &[]);
    assert_eq!(report.output, vec![3, 2, 1]);
    assert_eq!(interpreter.data()[0], 0);
    assert_eq!(report.outcome, Outcome::Halted);
}

#[test]
fn folded_and_unfolded_programs_do_the_same() {
    let folded = "+++>>++<<[->>>+++<<<].>>>.--.,.<<<<";
    let unfolded: String = folded.chars().flat_map(|c| [c, ' ']).collect();
    let a = load(folded);
    let b = load(&unfolded);
    assert!(a.instructions().len() < b.instructions().len());
    assert!(b.instructions().iter().all(|inst| match inst {
        InstKind::Add(n)
        | InstKind::Subtract(n)
        | InstKind::MoveRight(n)
        | InstKind::MoveLeft(n) => *n == 1,
        _ => true,
    }));
    let (a, report_a) = execute(folded, &[42]);
    let (b, report_b) = execute(&unfolded, &[42]);
    assert_eq!(report_a.output, vec![0, 9, 7, 42]);
    assert_eq!(report_a.output, report_b.output);
    assert_eq!(report_a.consumed, report_b.consumed);
    assert_eq!(report_a.outcome, Outcome::Failed(RunError::CellPointerOutOfRange));
    assert_eq!(report_a.outcome, report_b.outcome);
    assert_eq!(a.data(), b.data());
}

#[test]
fn folded_and_unfolded_programs_halt_alike() {
    let folded = "++++[>+++<-]>[>++<-]>.";
    let unfolded: String = folded.chars().flat_map(|c| [c, '\n']).collect();
    let (a, report_a) = execute(folded, &[]);
    let (b, report_b) = execute(&unfolded, &[]);
    assert_eq!(report_a.output, vec![24]);
    assert_eq!(report_a.output, report_b.output);
    assert_eq!(report_a.outcome, Outcome::Halted);
    assert_eq!(report_b.outcome, Outcome::Halted);
    assert_eq!(a.data(), b.data());
    assert_eq!(a.pointer(), b.pointer());
}

#[test]
fn input_at_the_end_of_the_stream_leaves_the_cell() {
    let (interpreter, report) = execute("+++,.,.", &[8]);
    assert_eq!(report.output, vec![8, 8]);
    assert_eq!(report.consumed, 1);
    assert_eq!(interpreter.data()[0], 8);
    let (interpreter, report) = execute("+++,.", &[]);
    assert_eq!(report.output, vec![3]);
    assert_eq!(report.consumed, 0);
    assert_eq!(interpreter.data()[0], 3);
}

#[test]
fn input_and_output_keep_program_order() {
    let (_, report) = execute(",.,.+.,.", &[10, 20, 30, 40]);
    assert_eq!(report.output, vec![10, 20, 21, 30]);
    assert_eq!(report.consumed, 3);
}

#[test]
fn moving_left_of_the_tape_fails() {
    let (interpreter, report) = execute("+.<.", &[]);
    assert_eq!(report.output, vec![1]);
    assert_eq!(report.outcome, Outcome::Failed(RunError::CellPointerOutOfRange));
    assert_eq!(interpreter.pointer(), 0);
    assert_eq!(interpreter.instruction_index(), 2);
    assert_eq!(interpreter.data()[0], 1);
}

#[test]
fn moving_right_of_the_tape_fails() {
    let source = "+.".to_string() + &">".repeat(30000) + ".";
    let (interpreter, report) = execute(&source, &[]);
    assert_eq!(report.output, vec![1]);
    assert_eq!(report.outcome, Outcome::Failed(RunError::CellPointerOutOfRange));
    assert_eq!(interpreter.pointer(), 0);
}

#[test]
fn the_last_cell_can_be_reached() {
    let source = ">".repeat(29999) + "+++.";
    let (interpreter, report) = execute(&source, &[]);
    assert_eq!(report.output, vec![3]);
    assert_eq!(report.outcome, Outcome::Halted);
    assert_eq!(interpreter.pointer(), 29999);
    assert_eq!(interpreter.data()[29999], 3);
}

#[test]
fn a_move_past_the_tape_and_back_still_fails() {
    let source = ">".repeat(30000) + " " + &"<".repeat(30000);
    let (_, report) = execute(&source, &[]);
    assert_eq!(report.outcome, Outcome::Failed(RunError::CellPointerOutOfRange));
}

#[test]
fn a_failed_step_changes_nothing() {
    let mut interpreter = load("+<");
    assert_eq!(interpreter.next(None), Ok(None));
    assert_eq!(interpreter.next(None), Err(RunError::CellPointerOutOfRange));
    assert_eq!(interpreter.instruction_index(), 1);
    assert_eq!(interpreter.pointer(), 0);
    assert_eq!(interpreter.data()[0], 1);
    assert_eq!(interpreter.next(None), Err(RunError::CellPointerOutOfRange));
}

#[test]
fn next_executes_one_instruction_at_a_time() {
    let mut interpreter = load("++>,.[-]");
    assert!(!interpreter.wants_input());
    assert_eq!(interpreter.next(None), Ok(None));
    assert_eq!((interpreter.instruction_index(), interpreter.data()[0]), (1, 2));
    assert_eq!(interpreter.next(None), Ok(None));
    assert_eq!((interpreter.instruction_index(), interpreter.pointer()), (2, 1));
    assert!(interpreter.wants_input());
    assert_eq!(interpreter.next(Some(2)), Ok(None));
    assert_eq!((interpreter.instruction_index(), interpreter.data()[1]), (3, 2));
    assert!(!interpreter.wants_input());
    assert_eq!(interpreter.next(None), Ok(Some(2)));
    assert_eq!(interpreter.instruction_index(), 4);
    assert_eq!(interpreter.next(None), Ok(None));
    assert_eq!(interpreter.instruction_index(), 5);
    assert_eq!(interpreter.next(None), Ok(None));
    assert_eq!((interpreter.instruction_index(), interpreter.data()[1]), (6, 1));
    assert_eq!(interpreter.next(None), Ok(None));
    assert_eq!(interpreter.instruction_index(), 5);
    assert_eq!(interpreter.next(None), Ok(None));
    assert_eq!((interpreter.instruction_index(), interpreter.data()[1]), (6, 0));
    assert_eq!(interpreter.next(None), Ok(None));
    assert_eq!(interpreter.instruction_index(), 7);
    assert!(interpreter.is_halted());
}

#[test]
fn next_ignores_a_byte_that_was_not_asked_for() {
    let mut interpreter = load("+.");
    assert_eq!(interpreter.next(Some(77)), Ok(None));
    assert_eq!(interpreter.next(Some(77)), Ok(Some(1)));
    assert_eq!(interpreter.data()[0], 1);
}

#[test]
fn next_on_a_halted_interpreter_does_nothing() {
    let mut interpreter = load("+");
    assert_eq!(interpreter.next(None), Ok(None));
    assert!(interpreter.is_halted());
    assert_eq!(interpreter.next(Some(5)), Ok(None));
    assert_eq!(interpreter.instruction_index(), 1);
    assert_eq!(interpreter.data()[0], 1);
}

#[test]
fn an_endless_loop_runs_out_of_steps() {
    let mut interpreter = load("+[]");
    let report = interpreter.run(&[], 1000);
    assert_eq!(report.outcome, Outcome::OutOfSteps);
    assert_eq!(report.output, Vec::<u8>::new());
    assert_eq!(interpreter.data()[0], 1);
    assert!(!interpreter.is_halted());
}

#[test]
fn a_run_of_no_steps_does_nothing() {
    let mut interpreter = load("+.");
    let report = interpreter.run(&[], 0);
    assert_eq!(report.outcome, Outcome::OutOfSteps);
    assert_eq!(interpreter.instruction_index(), 0);
    assert_eq!(interpreter.data()[0], 0);
}

#[test]
fn the_step_budget_counts_dispatch_steps() {
    let mut interpreter = load("+++.>,.");
    let report = interpreter.run(&[9], 2);
    assert_eq!(report.outcome, Outcome::OutOfSteps);
    assert_eq!(report.output, vec![3]);
    assert_eq!(report.consumed, 0);
    assert_eq!(interpreter.instruction_index(), 2);
    let report = interpreter.run(&[9], 3);
    assert_eq!(report.outcome, Outcome::Halted);
    assert_eq!(report.output, vec![9]);
    assert_eq!(report.consumed, 1);
    assert!(interpreter.is_halted());
}

#[test]
fn a_run_that_halts_on_its_last_step_has_halted() {
    let mut interpreter = load("+.");
    let report = interpreter.run(&[], 2);
    assert_eq!(report.outcome, Outcome::Halted);
    assert_eq!(report.output, vec![1]);
}

#[test]
fn hello_world_runs_to_its_end() {
    let source = "++++++++[>++++[>++>+++>+++>+<<<<-]>+>+>->>+[<]<-]>>.>---.+++++++..+++.\
                  >>.<-.<.+++.------.--------.>>+.>++.";
    let (_, report) = execute(source, &[]);
    assert_eq!(report.output, b"Hello World!\n".to_vec());
    assert_eq!(report.outcome, Outcome::Halted);
}

#[test]
fn input_can_be_reversed() {
    let (_, report) = execute(">,[>,]<[.<]", b"abc\0".as_slice());
    assert_eq!(report.output, b"cba".to_vec());
    assert_eq!(report.consumed, 4);
}
