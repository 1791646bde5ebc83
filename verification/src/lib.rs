//! A compiler and execution engine for an eight-symbol, tape-based language.
//!
//! Source text is compiled into a flat instruction sequence in which runs of
//! repeated symbols are folded into one counted instruction and every loop
//! bracket carries the index of its partner. The engine then drives that
//! sequence over a fixed-size tape of wrapping eight-bit cells.
//!
//! * [`compiler`] turns text into instructions and rejects unbalanced
//!   brackets, naming the offending character.
//! * [`interpreter`] holds the program, the tape, the cell pointer and the
//!   instruction cursor, and executes one instruction per step. A step takes
//!   the byte read for it and hands back the byte to write, so that the
//!   caller decides where bytes come from and go to.
//! * [`instruction`] holds the instruction set and the tokens of the
//!   language; [`encoding`] says where a character lies in a string slice.
//! * [`machine`] says what a step and a run mean; [`pairing`] says what it
//!   means for brackets to be paired; [`expansion`] writes a program out
//!   symbol by symbol, and [`folding`] shows that a program and its expansion
//!   cannot be told apart by running them.
//!
//! Two choices are fixed here. An `Input` instruction at the end of the input
//! leaves the current cell unchanged. A move that would take the cell pointer
//! off either end of the tape is refused with an error, and the run ends.

pub mod compiler;
pub mod encoding;
pub mod expansion;
pub mod folding;
pub mod instruction;
pub mod interpreter;
pub mod machine;
pub mod pairing;

pub use crate::compiler::{compile, CompileError};
pub use crate::instruction::InstKind;
pub use crate::interpreter::{Interpreter, Outcome, Report, TAPE_LEN};
pub use crate::machine::RunError;
