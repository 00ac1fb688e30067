//! A compiler and interpreter for a minimal eight-command language that
//! operates on an unbounded byte tape.
//!
//! The library has three parts: a compiler that strips comments and folds
//! runs of repeated commands into single opcodes, a jump-table builder that
//! matches loop brackets ahead of execution, and a tape machine that runs
//! the compiled program against an input byte source and an output byte
//! sink, both supplied as plain byte buffers.

pub mod opcode;
pub mod compile;
pub mod jumps;
pub mod machine;
