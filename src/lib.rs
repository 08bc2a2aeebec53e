//! A compiler and interpreter for a tiny eight-symbol tape language.
//!
//! Source text compiles into a program of instructions with resolved jump
//! targets; the virtual machine then executes it against a tape of bytes that
//! grows on demand at either end.

pub mod tape;
pub mod program;
pub mod lang;
pub mod laws;

pub use lang::{SyntaxError, VM};
pub use program::Instruction;
