//! A compiler and virtual machine for a tape language of eight one-character
//! commands.
//!
//! Source text is filtered down to commands by [`parse`]. Commands are compiled
//! either into a tree of nested loops with run-length folding ([`pass`]) or into
//! a jump-indexed stream with one operand per command ([`pass_flat`]). A
//! [`Machine`] executes either form on a byte tape, and both forms do the
//! same.
//!
//! Cells wrap modulo 256. The pointer does not wrap: a move that would take
//! it off the tape fails with [`RuntimeError::PointerOutOfBounds`] and leaves
//! it on the edge cell. A program may loop forever, so every run is given a
//! budget of loop repetitions and fails with
//! [`RuntimeError::BudgetExhausted`] when it would exceed it.

pub mod agreement;
pub mod brackets;
pub mod command;
pub mod flat;
pub mod listing;
pub mod machine;
pub mod operand;
pub mod semantics;
pub mod tree;

pub use brackets::CompileError;
pub use command::{parse, Command};
pub use flat::pass_flat;
pub use machine::{Machine, INITIAL_SIZE};
pub use operand::Operand;
pub use semantics::RuntimeError;
pub use tree::{count_command, pass};
