//! A virtual machine for a tape-based instruction language with eight
//! instructions: a pointer moves over a bounded array of byte cells, and
//! bracket-delimited loops are the only control flow.
//!
//! The loop resolver pairs every loop boundary with its partner before a
//! program runs; the execution engine then steps through the instructions
//! with clamped pointer moves and wrapping cell arithmetic.

pub mod instruction;
pub mod loops;
pub mod machine;

pub use instruction::{chars_to_instructions, BrainfuckInstructions};
pub use loops::{resolve, JumpTable, UnbalancedLoopError};
pub use machine::{BrainfuckProgram, RunOutcome, StepEvent, MEMORY_ARRAY_LENGTH};
