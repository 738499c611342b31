//! A verified interpreter for a minimal eight-command tape language.
//!
//! The pipeline has three stages: the lexer ([`lexer::trans`]) filters source
//! text down to the command alphabet, the parser ([`parser::parse`]) turns the
//! command sequence into a tree of instructions with explicit loop bodies, and
//! the executor ([`interp::brainfuck`]) walks that tree against a byte tape,
//! with input and output carried as in-memory byte sequences.

pub mod interp;
pub mod lexer;
pub mod machine;
pub mod parser;
