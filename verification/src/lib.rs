//! A compiler and virtual machine for an eight-symbol tape language.
//!
//! Source text is tokenised into instructions, rewritten by a peephole
//! optimiser, its brackets are linked into relative jumps, and the result is
//! executed on a byte tape that grows in both directions.

pub mod fusion;
pub mod instruction;
pub mod interpreter;
pub mod linker;
pub mod optimizer;
pub mod parser;
