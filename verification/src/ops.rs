//! The two instruction alphabets (raw and compressed) and the shared
//! semantic alphabet of effects that both dispatch to.

use vstd::prelude::*;

verus! {

/// Raw operations, one per recognized source character.
#[derive(Debug, Copy, Clone, Eq, PartialEq, Structural)]
pub enum Op {
    /// Increment the cell under the pointer.
    Inc,
    /// Decrement the cell under the pointer.
    Dec,
    /// Move the pointer forward.
    IncPtr,
    /// Move the pointer backward.
    DecPtr,
    /// Write the cell under the pointer to the output.
    PutChar,
    /// Read one input byte into the cell under the pointer.
    GetChar,
    /// Start of a loop.
    LoopStart,
    /// End of a loop.
    LoopEnd,
}

/// Compressed operations: counted forms of the four accumulating raw
/// operations, and the other four unchanged.
#[derive(Debug, Copy, Clone, Eq, PartialEq, Structural)]
pub enum CompressedOp {
    /// Add to the cell under the pointer, with 8-bit wraparound.
    Add(u8),
    /// Subtract from the cell under the pointer, with 8-bit wraparound.
    Sub(u8),
    /// Move the pointer backward by the given number of steps.
    Back(usize),
    /// Move the pointer forward by the given number of steps.
    Forward(usize),
    /// Write the cell under the pointer to the output.
    PutChar,
    /// Read one input byte into the cell under the pointer.
    GetChar,
    /// Start of a loop.
    LoopStart,
    /// End of a loop.
    LoopEnd,
}

/// The meaning of one instruction, shared by both alphabets: what a single
/// dispatch step does to the machine state.
pub enum Eff {
    /// Add to the cell under the pointer, with 8-bit wraparound.
    Add(u8),
    /// Subtract from the cell under the pointer, with 8-bit wraparound.
    Sub(u8),
    /// Move the pointer forward by the given number of steps.
    Forward(nat),
    /// Move the pointer backward by the given number of steps.
    Back(nat),
    /// Write the cell under the pointer to the output.
    Put,
    /// Read one input byte into the cell under the pointer.
    Get,
    /// Skip past the loop when the cell under the pointer is zero.
    Start,
    /// Repeat the loop when the cell under the pointer is nonzero.
    End,
}

/// The effect of a raw operation: each arithmetic or pointer move is a
/// single step.
pub open spec fn op_eff(op: Op) -> Eff {
    match op {
        Op::Inc => Eff::Add(1),
        Op::Dec => Eff::Sub(1),
        Op::IncPtr => Eff::Forward(1),
        Op::DecPtr => Eff::Back(1),
        Op::PutChar => Eff::Put,
        Op::GetChar => Eff::Get,
        Op::LoopStart => Eff::Start,
        Op::LoopEnd => Eff::End,
    }
}

/// The effect of a compressed operation: the counted forms carry their
/// counts through.
pub open spec fn cop_eff(op: CompressedOp) -> Eff {
    match op {
        CompressedOp::Add(n) => Eff::Add(n),
        CompressedOp::Sub(n) => Eff::Sub(n),
        CompressedOp::Back(n) => Eff::Back(n as nat),
        CompressedOp::Forward(n) => Eff::Forward(n as nat),
        CompressedOp::PutChar => Eff::Put,
        CompressedOp::GetChar => Eff::Get,
        CompressedOp::LoopStart => Eff::Start,
        CompressedOp::LoopEnd => Eff::End,
    }
}

/// The failure surface: malformed programs are reported by the parser and
/// the compressor; a pointer that leaves the tape (or the address space) is
/// trapped by the execution engine.
#[derive(Debug, Copy, Clone, Eq, PartialEq, Structural)]
pub enum Error {
    /// A loop end with no open loop start.
    UnmatchedLoopEnd,
    /// A loop start still open at the end of the scan.
    UnmatchedLoopStart,
    /// An instruction touched a cell outside the tape, or moved the pointer
    /// below zero or beyond the address space.
    PointerOutOfBounds,
}

} // verus!
