//! A verified execution core for an eight-instruction tape language.
//!
//! Source text is tokenized into opcodes, loop brackets are resolved into a
//! jump table ahead of execution, and the result runs on a bounded tape of
//! bytes with saturating cells and a checked data pointer.
//!
//! - `opcode`: the instruction set.
//! - `tokenizer`: from text to opcodes, and the optional coalescing pass.
//! - `resolver`: bracket matching, `Program`, `compile`.
//! - `semantics`: what a step and a run are, as plain mathematics.
//! - `lexer`: the executable machine, `Lexer`, and `run`.
//! - `equivalence`: the proof that coalescing keeps what a program does.
//!
//! Every loop in this crate is shown to end, so a run takes a step budget;
//! a host that wants no bound drives `Lexer::step` itself.
use vstd::prelude::*;

pub mod equivalence;
pub mod lexer;
pub mod opcode;
pub mod resolver;
pub mod semantics;
pub mod tokenizer;

pub use crate::lexer::{run, Lexer, Progress, RunResult};
pub use crate::opcode::Opcode;
pub use crate::resolver::{compile, resolve, CompileError, Program};
pub use crate::semantics::{RuntimeError, Step};
pub use crate::tokenizer::{coalesce, tokenize};

verus! {

/// Number of cells on the tape of a freshly made machine.
pub const MEMORY_SIZE: usize = 1000;

} // verus!
