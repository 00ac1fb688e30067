//! The compiled instruction set.

use vstd::prelude::*;

verus! {

/// One instruction of a compiled program.
///
/// `Add`, `Sub`, `ShiftLeft` and `ShiftRight` carry the net magnitude of a
/// maximal run of adjacent source commands; the compiler never emits one
/// whose magnitude is zero. The count is kept at machine-word width so that
/// folding a run can never overflow the field: the run is at most as long
/// as the source text. Cell arithmetic reduces the count modulo 256 when an
/// opcode is executed.
#[derive(Clone, Copy, Debug, PartialEq, Eq, Structural)]
pub enum Opcode {
    Add(usize),
    Sub(usize),
    ShiftLeft(usize),
    ShiftRight(usize),
    Print,
    Input,
    BeginLoop,
    EndLoop,
}

/// True of the two structural loop-boundary opcodes.
pub open spec fn is_loop_bracket(op: Opcode) -> bool {
    op is BeginLoop || op is EndLoop
}

/// The data-model invariant of a single opcode: a folded run always has a
/// strictly positive net magnitude.
pub open spec fn opcode_wf(op: Opcode) -> bool {
    match op {
        Opcode::Add(n) => n > 0,
        Opcode::Sub(n) => n > 0,
        Opcode::ShiftLeft(n) => n > 0,
        Opcode::ShiftRight(n) => n > 0,
        _ => true,
    }
}

} // verus!
