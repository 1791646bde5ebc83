//! The meaning of a program: what one dispatch step does to the machine, and
//! what a run does to its input and output streams.

use vstd::prelude::*;
use crate::instruction::InstKind;
use crate::pairing::{is_pair, well_paired};

verus! {

/// Why a run was aborted.
#[derive(Clone, Copy, Debug, PartialEq, Eq, Structural)]
pub enum RunError {
    /// A move would have taken the cell pointer off the tape.
    CellPointerOutOfRange,
}

/// The state that the dispatch step works on.
pub struct Machine {
    /// Index of the instruction to execute next.
    pub cursor: nat,
    /// Index of the current cell.
    pub pointer: nat,
    /// The cells.
    pub tape: Seq<u8>,
}

/// What one dispatch step did.
pub struct Transition {
    /// The machine after the step.
    pub next: Machine,
    /// The byte written by the step, if it wrote one.
    pub emitted: Option<u8>,
    /// Set when the step was refused; the machine is then unchanged.
    pub fault: Option<RunError>,
}

/// The cell after adding `n` to it, wrapping at eight bits.
pub open spec fn cell_add(cell: u8, n: int) -> u8 {
    ((cell as int + n) % 256) as u8
}

/// The cell after subtracting `n` from it, wrapping at eight bits.
pub open spec fn cell_sub(cell: u8, n: int) -> u8 {
    ((cell as int - n) % 256) as u8
}

/// The cursor has run off the end of the program.
pub open spec fn halted(program: Seq<InstKind>, m: Machine) -> bool {
    m.cursor >= program.len()
}

/// The next step consumes a byte of input.
pub open spec fn wants_input(program: Seq<InstKind>, m: Machine) -> bool {
    m.cursor < program.len() && program[m.cursor as int] is Input
}

/// A step that leaves the tape and the pointer alone and moves the cursor.
pub open spec fn goto(m: Machine, cursor: nat) -> Transition {
    Transition { next: Machine { cursor, ..m }, emitted: None, fault: None }
}

/// A step that was refused.
pub open spec fn refuse(m: Machine, error: RunError) -> Transition {
    Transition { next: m, emitted: None, fault: Some(error) }
}

/// A step that stores `value` in the current cell and moves on.
pub open spec fn store(m: Machine, value: u8) -> Transition {
    Transition {
        next: Machine {
            cursor: m.cursor + 1,
            tape: m.tape.update(m.pointer as int, value),
            ..m
        },
        emitted: None,
        fault: None,
    }
}

/// One dispatch step. `input` is the byte that arrived for an `Input`
/// instruction, or `None` at the end of the input; it is ignored by every
/// other instruction. At the end of the input an `Input` leaves the cell as it
/// is. A halted machine stays as it is.
pub open spec fn step(program: Seq<InstKind>, m: Machine, input: Option<u8>) -> Transition {
    if halted(program, m) {
        goto(m, m.cursor)
    } else {
        let cell = m.tape[m.pointer as int];
        match program[m.cursor as int] {
            InstKind::Add(n) => store(m, cell_add(cell, n as int)),
            InstKind::Subtract(n) => store(m, cell_sub(cell, n as int)),
            InstKind::MoveRight(n) => if m.pointer + n < m.tape.len() {
                Transition {
                    next: Machine { cursor: m.cursor + 1, pointer: (m.pointer + n) as nat, ..m },
                    emitted: None,
                    fault: None,
                }
            } else {
                refuse(m, RunError::CellPointerOutOfRange)
            },
            InstKind::MoveLeft(n) => if n <= m.pointer {
                Transition {
                    next: Machine {
                        cursor: m.cursor + 1,
                        pointer: (m.pointer - n) as nat,
                        ..m
                    },
                    emitted: None,
                    fault: None,
                }
            } else {
                refuse(m, RunError::CellPointerOutOfRange)
            },
            InstKind::Output => Transition { emitted: Some(cell), ..goto(m, m.cursor + 1) },
            InstKind::Input => match input {
                Some(byte) => store(m, byte),
                None => goto(m, m.cursor + 1),
            },
            InstKind::JumpIfZero(target) => if cell == 0 {
                goto(m, target as nat + 1)
            } else {
                goto(m, m.cursor + 1)
            },
            InstKind::JumpIfNonZero(target) => if cell != 0 {
                goto(m, target as nat + 1)
            } else {
                goto(m, m.cursor + 1)
            },
        }
    }
}

/// The machine is one that a program can be run on: cursor within the program
/// or just behind it, pointer on the tape.
pub open spec fn in_bounds(program: Seq<InstKind>, m: Machine) -> bool {
    m.cursor <= program.len() && m.pointer < m.tape.len()
}

/// A step keeps the machine in bounds and the tape at its length.
pub proof fn lemma_step_in_bounds(program: Seq<InstKind>, m: Machine, input: Option<u8>)
    requires
        well_paired(program),
        in_bounds(program, m),
    ensures
        in_bounds(program, step(program, m, input).next),
        step(program, m, input).next.tape.len() == m.tape.len(),
{
}

/// Adding `n` to a cell and then subtracting `n` from it, or the other way
/// round, gives the cell back, whatever `n` is.
pub proof fn lemma_cell_add_sub_cancel(cell: u8, n: int)
    ensures
        cell_sub(cell_add(cell, n), n) == cell,
        cell_add(cell_sub(cell, n), n) == cell,
{
}

/// An `Add(n)` followed by a `Subtract(n)` leaves the tape as it was.
pub proof fn lemma_add_then_subtract_restores(
    program: Seq<InstKind>,
    m: Machine,
    n: usize,
    first: Option<u8>,
    second: Option<u8>,
)
    requires
        in_bounds(program, m),
        m.cursor + 1 < program.len(),
        program[m.cursor as int] == InstKind::Add(n),
        program[m.cursor as int + 1] == InstKind::Subtract(n),
    ensures
        step(program, step(program, m, first).next, second).next == (Machine {
            cursor: m.cursor + 2,
            ..m
        }),
{
    let cell = m.tape[m.pointer as int];
    lemma_cell_add_sub_cancel(cell, n as int);
    let middle = step(program, m, first).next;
    let last = step(program, middle, second).next;
    assert(last.tape =~= m.tape);
}

/// A loop whose cell is zero on entry is skipped: the step at its `[` takes
/// the cursor behind the partner `]`, past every instruction of the body, and
/// changes nothing else.
pub proof fn lemma_zero_cell_skips_loop(program: Seq<InstKind>, m: Machine, input: Option<u8>)
    requires
        well_paired(program),
        in_bounds(program, m),
        m.cursor < program.len(),
        program[m.cursor as int] is JumpIfZero,
        m.tape[m.pointer as int] == 0,
    ensures
        ({
            let close = program[m.cursor as int]->JumpIfZero_0;
            &&& is_pair(program, m.cursor as int, close as int)
            &&& step(program, m, input) == goto(m, close as nat + 1)
        }),
{
}

/// A run in progress: the machine together with its two streams.
pub struct Run {
    /// The machine.
    pub machine: Machine,
    /// How many bytes of the input have been consumed.
    pub consumed: nat,
    /// The bytes written so far.
    pub output: Seq<u8>,
    /// Set once a step has been refused.
    pub fault: Option<RunError>,
}

/// The run at its start.
pub open spec fn start(machine: Machine) -> Run {
    Run { machine, consumed: 0, output: Seq::empty(), fault: None }
}

/// The run has come to its end: the machine has halted or a step was refused.
pub open spec fn finished(program: Seq<InstKind>, r: Run) -> bool {
    r.fault is Some || halted(program, r.machine)
}

/// The byte that the next step is handed.
pub open spec fn next_byte(program: Seq<InstKind>, input: Seq<u8>, r: Run) -> Option<u8> {
    if wants_input(program, r.machine) && r.consumed < input.len() {
        Some(input[r.consumed as int])
    } else {
        None
    }
}

/// One step of a run over the input `input`. A finished run stays as it is.
pub open spec fn advance(program: Seq<InstKind>, input: Seq<u8>, r: Run) -> Run {
    if finished(program, r) {
        r
    } else {
        let byte = next_byte(program, input, r);
        let t = step(program, r.machine, byte);
        Run {
            machine: t.next,
            consumed: if byte is Some {
                r.consumed + 1
            } else {
                r.consumed
            },
            output: match t.emitted {
                Some(b) => r.output.push(b),
                None => r.output,
            },
            fault: t.fault,
        }
    }
}

/// In a run, a loop whose cell is zero on entry is skipped without reading
/// input or writing output.
pub proof fn lemma_skipped_loop_is_silent(program: Seq<InstKind>, input: Seq<u8>, r: Run)
    requires
        well_paired(program),
        in_bounds(program, r.machine),
        !finished(program, r),
        program[r.machine.cursor as int] is JumpIfZero,
        r.machine.tape[r.machine.pointer as int] == 0,
    ensures
        ({
            let close = program[r.machine.cursor as int]->JumpIfZero_0;
            &&& is_pair(program, r.machine.cursor as int, close as int)
            &&& advance(program, input, r) == (Run {
                machine: Machine { cursor: close as nat + 1, ..r.machine },
                ..r
            })
        }),
{
    lemma_zero_cell_skips_loop(program, r.machine, next_byte(program, input, r));
}

/// The run after `n` steps.
pub open spec fn advance_n(program: Seq<InstKind>, input: Seq<u8>, r: Run, n: nat) -> Run
    decreases n,
{
    if n == 0 {
        r
    } else {
        advance_n(program, input, advance(program, input, r), (n - 1) as nat)
    }
}

/// A finished run does not change any more.
pub proof fn lemma_finished_is_fixed(program: Seq<InstKind>, input: Seq<u8>, r: Run, n: nat)
    requires
        finished(program, r),
    ensures
        advance_n(program, input, r, n) == r,
    decreases n,
{
    if n > 0 {
        lemma_finished_is_fixed(program, input, r, (n - 1) as nat);
    }
}

/// Running `a` steps and then `b` steps is running `a + b` steps.
pub proof fn lemma_advance_n_split(
    program: Seq<InstKind>,
    input: Seq<u8>,
    r: Run,
    a: nat,
    b: nat,
)
    ensures
        advance_n(program, input, r, a + b) == advance_n(
            program,
            input,
            advance_n(program, input, r, a),
            b,
        ),
    decreases a,
{
    if a > 0 {
        lemma_advance_n_split(program, input, advance(program, input, r), (a - 1) as nat, b);
        assert((a + b - 1) as nat == (a - 1) as nat + b);
    }
}

/// A run that has come to its end after `n` steps is at the same end after
/// any greater number of steps.
pub proof fn lemma_stays_finished(
    program: Seq<InstKind>,
    input: Seq<u8>,
    r: Run,
    n: nat,
    later: nat,
)
    requires
        n <= later,
        finished(program, advance_n(program, input, r, n)),
    ensures
        advance_n(program, input, r, later) == advance_n(program, input, r, n),
{
    lemma_advance_n_split(program, input, r, n, (later - n) as nat);
    lemma_finished_is_fixed(program, input, advance_n(program, input, r, n), (later - n) as nat);
}

/// The run after `n + 1` steps is one step on from the run after `n` steps.
pub proof fn lemma_advance_n_last(program: Seq<InstKind>, input: Seq<u8>, r: Run, n: nat)
    ensures
        advance_n(program, input, r, n + 1) == advance(
            program,
            input,
            advance_n(program, input, r, n),
        ),
{
    lemma_advance_n_split(program, input, r, n, 1);
    let reached = advance_n(program, input, r, n);
    assert(advance_n(program, input, advance(program, input, reached), 0) == advance(
        program,
        input,
        reached,
    ));
}

} // verus!
