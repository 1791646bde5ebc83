//! The execution engine: a tape, a cell pointer and an instruction cursor,
//! driven one dispatch step at a time.

use vstd::prelude::*;
use crate::compiler::{balanced, compile, offending, tokens, CompileError};
use crate::instruction::InstKind;
use crate::machine::{
    advance_n, cell_add, cell_sub, halted, in_bounds, lemma_advance_n_last, lemma_stays_finished,
    start, step, wants_input, Machine, Run, RunError, Transition,
};
use crate::pairing::{is_pair, same_shape, well_formed};

verus! {

/// The number of cells on the tape.
pub const TAPE_LEN: usize = 30000;

/// A compiled program together with the machine it runs on.
#[derive(Debug)]
pub struct Interpreter {
    instructions: Vec<InstKind>,
    instruction_index: usize,
    data: Vec<u8>,
    pointer: usize,
}

impl View for Interpreter {
    type V = Machine;

    /// The cursor, the pointer and the tape.
    closed spec fn view(&self) -> Machine {
        Machine {
            cursor: self.instruction_index as nat,
            pointer: self.pointer as nat,
            tape: self.data@,
        }
    }
}

/// How a run ended.
#[derive(Clone, Copy, Debug, PartialEq, Eq, Structural)]
pub enum Outcome {
    /// The cursor ran off the end of the program.
    Halted,
    /// A step was refused; the run was aborted in front of it.
    Failed(RunError),
    /// The step budget was used up before the program came to its end.
    OutOfSteps,
}

/// What a run did to its streams, and how it ended.
#[derive(Debug, PartialEq, Eq)]
pub struct Report {
    /// The bytes written, in order.
    pub output: Vec<u8>,
    /// How many bytes of the input were consumed.
    pub consumed: usize,
    /// How the run ended.
    pub outcome: Outcome,
}

/// The machine before the first step: cursor and pointer at zero, every cell
/// zero.
pub open spec fn blank() -> Machine {
    Machine { cursor: 0, pointer: 0, tape: Seq::new(TAPE_LEN as nat, |i: int| 0u8) }
}

/// How a run that has come to `r` is reported.
pub open spec fn outcome_of(program: Seq<InstKind>, r: Run) -> Outcome {
    match r.fault {
        Some(error) => Outcome::Failed(error),
        None => if halted(program, r.machine) {
            Outcome::Halted
        } else {
            Outcome::OutOfSteps
        },
    }
}

/// What a step hands back to its caller: the byte it wrote, if any, or the
/// reason it was refused.
pub open spec fn reply(t: Transition) -> Result<Option<u8>, RunError> {
    match t.fault {
        Some(error) => Err(error),
        None => Ok(t.emitted),
    }
}

impl Interpreter {
    /// The program being run.
    pub closed spec fn program(&self) -> Seq<InstKind> {
        self.instructions@
    }

    /// The invariant of an interpreter: a well-formed program, a tape of
    /// `TAPE_LEN` cells, the pointer on the tape and the cursor within the
    /// program or just behind it.
    pub open spec fn wf(&self) -> bool {
        &&& well_formed(self.program())
        &&& in_bounds(self.program(), self@)
        &&& self@.tape.len() == TAPE_LEN
    }

    /// Compiles `input` and sets up a blank machine for it.
    ///
    /// Fails exactly when the brackets of `input` are not balanced.
    pub fn new(input: &str) -> (result: Result<Interpreter, CompileError>)
        ensures
            match result {
                Ok(interpreter) => {
                    &&& balanced(input@)
                    &&& interpreter.wf()
                    &&& same_shape(interpreter.program(), tokens(input@))
                    &&& interpreter@ == blank()
                },
                Err(CompileError::UnmatchedBracket { position }) => {
                    &&& !balanced(input@)
                    &&& offending(input@, position as int)
                },
            },
    {
        match compile(input) {
            Ok(instructions) => {
                let interpreter = Interpreter {
                    instruction_index: 0,
                    instructions,
                    data: vec![0u8; TAPE_LEN],
                    pointer: 0,
                };
                assert(interpreter@.tape =~= blank().tape);
                Ok(interpreter)
            },
            Err(error) => Err(error),
        }
    }

    /// The compiled program.
    pub fn instructions(&self) -> (program: &[InstKind])
        ensures
            program@ == self.program(),
    {
        self.instructions.as_slice()
    }

    /// The index of the instruction to execute next.
    pub fn instruction_index(&self) -> (cursor: usize)
        ensures
            cursor == self@.cursor,
    {
        self.instruction_index
    }

    /// The cells of the tape.
    pub fn data(&self) -> (tape: &[u8])
        ensures
            tape@ == self@.tape,
    {
        self.data.as_slice()
    }

    /// The index of the current cell.
    pub fn pointer(&self) -> (pointer: usize)
        ensures
            pointer == self@.pointer,
    {
        self.pointer
    }

    /// Whether the cursor has run off the end of the program.
    pub fn is_halted(&self) -> (b: bool)
        ensures
            b == halted(self.program(), self@),
    {
        self.instruction_index >= self.instructions.len()
    }

    /// Whether the next step consumes a byte of input.
    pub fn wants_input(&self) -> (b: bool)
        ensures
            b == wants_input(self.program(), self@),
    {
        if self.instruction_index < self.instructions.len() {
            match self.instructions[self.instruction_index] {
                InstKind::Input => true,
                _ => false,
            }
        } else {
            false
        }
    }

    /// Runs the program on `input` until it halts, a step is refused, or
    /// `max_steps` steps have been made, whichever comes first.
    ///
    /// An `Input` instruction takes the next byte of `input`; once `input` is
    /// used up it leaves the cell as it is. The report holds the bytes
    /// written, also when the run was aborted. A run that ended with
    /// `OutOfSteps` can be taken up again with the input that is left.
    pub fn run(&mut self, input: &[u8], max_steps: u64) -> (report: Report)
        requires
            old(self).wf(),
        ensures
            final(self).wf(),
            final(self).program() == old(self).program(),
            ({
                let end = advance_n(
                    old(self).program(),
                    input@,
                    start(old(self)@),
                    max_steps as nat,
                );
                &&& final(self)@ == end.machine
                &&& report.output@ == end.output
                &&& report.consumed == end.consumed
                &&& report.outcome == outcome_of(old(self).program(), end)
            }),
    {
        let ghost program = self.program();
        let ghost begin = start(self@);
        let mut output: Vec<u8> = Vec::new();
        let mut consumed: usize = 0;
        let mut steps: u64 = 0;
        while steps < max_steps && !self.is_halted()
            invariant
                self.wf(),
                self.program() == program,
                program == old(self).program(),
                begin == start(old(self)@),
                steps <= max_steps,
                consumed <= input@.len(),
                advance_n(program, input@, begin, steps as nat) == (Run {
                    machine: self@,
                    consumed: consumed as nat,
                    output: output@,
                    fault: None,
                }),
            decreases max_steps - steps,
        {
            proof {
                lemma_advance_n_last(program, input@, begin, steps as nat);
            }
            let mut byte: Option<u8> = None;
            if self.wants_input() && consumed < input.len() {
                byte = Some(input[consumed]);
                consumed = consumed + 1;
            }
            match self.next(byte) {
                Ok(emitted) => {
                    if let Some(b) = emitted {
                        output.push(b);
                    }
                },
                Err(error) => {
                    proof {
                        lemma_stays_finished(
                            program,
                            input@,
                            begin,
                            (steps + 1) as nat,
                            max_steps as nat,
                        );
                    }
                    return Report { output, consumed, outcome: Outcome::Failed(error) };
                },
            }
            steps = steps + 1;
        }
        proof {
            if steps < max_steps {
                lemma_stays_finished(program, input@, begin, steps as nat, max_steps as nat);
            }
        }
        let outcome = if self.is_halted() {
            Outcome::Halted
        } else {
            Outcome::OutOfSteps
        };
        Report { output, consumed, outcome }
    }

    /// Executes the instruction at the cursor.
    ///
    /// `input` is the byte read for this step, or `None` when the input is at
    /// its end; only an `Input` instruction looks at it. Returns the byte to
    /// write, if the instruction was an `Output`. A move that would leave the
    /// tape is refused with `CellPointerOutOfRange` and changes nothing. On a
    /// halted interpreter the step does nothing.
    pub fn next(&mut self, input: Option<u8>) -> (result: Result<Option<u8>, RunError>)
        requires
            old(self).wf(),
        ensures
            final(self).wf(),
            final(self).program() == old(self).program(),
            final(self)@ == step(old(self).program(), old(self)@, input).next,
            result == reply(step(old(self).program(), old(self)@, input)),
    {
        if self.instruction_index >= self.instructions.len() {
            assert(self@ == step(self.program(), self@, input).next);
            return Ok(None);
        }
        let inst = self.instructions[self.instruction_index];
        let cell = self.data[self.pointer];
        let mut emitted: Option<u8> = None;
        let mut target: usize = self.instruction_index;
        match inst {
            InstKind::Add(n) => {
                let sum: usize = (cell as usize + n % 256) % 256;
                assert(sum == cell_add(cell, n as int));
                self.data.set(self.pointer, sum as u8);
            },
            InstKind::Subtract(n) => {
                let difference: usize = (cell as usize + 256 - n % 256) % 256;
                assert(difference == cell_sub(cell, n as int));
                self.data.set(self.pointer, difference as u8);
            },
            InstKind::MoveRight(n) => {
                if n >= self.data.len() - self.pointer {
                    return Err(RunError::CellPointerOutOfRange);
                }
                self.pointer = self.pointer + n;
            },
            InstKind::MoveLeft(n) => {
                if n > self.pointer {
                    return Err(RunError::CellPointerOutOfRange);
                }
                self.pointer = self.pointer - n;
            },
            InstKind::Output => {
                emitted = Some(cell);
            },
            InstKind::Input => {
                if let Some(byte) = input {
                    self.data.set(self.pointer, byte);
                }
            },
            InstKind::JumpIfZero(partner) => {
                assert(is_pair(self.program(), self.instruction_index as int, partner as int));
                if cell == 0 {
                    target = partner;
                }
            },
            InstKind::JumpIfNonZero(partner) => {
                assert(is_pair(self.program(), partner as int, self.instruction_index as int));
                if cell != 0 {
                    target = partner;
                }
            },
        }
        self.instruction_index = target + 1;
        assert(self@ =~= step(old(self).program(), old(self)@, input).next);
        Ok(emitted)
    }
}

} // verus!
