//! Definitions shared by all tiers.

use vstd::prelude::*;

verus! {

/// The number of times a command is repeated, and the operand of a bytecode
/// instruction.
pub type Count = u32;

/// The largest repeat count a single run can carry.
pub const MAX_COUNT: Count = 0xffff_ffffu32;

/// The result type of operations that can fail.
pub type BfResult<T> = Result<T, Error>;

/// Everything that can go wrong while parsing, compiling or running a program.
#[derive(Copy, Clone, Debug, PartialEq, Eq, Structural)]
pub enum Error {
    /// The source ended while a `[` was still open.
    UnmatchedBegin,
    /// A `]` was found with no `[` open.
    UnmatchedEnd,
    /// The pointer would have moved below the first cell.
    PointerUnderflow,
    /// The pointer would have moved past the last cell.
    PointerOverflow,
    /// An operand does not fit the operand field of a bytecode instruction.
    CountOverflow,
    /// An input or output stream failed.
    IoError,
    /// The program used up the loop iterations it was allowed.
    StepLimit,
}

/// The eight Brainfuck commands.
#[derive(Copy, Clone, Debug, PartialEq, Eq, Structural)]
pub enum Command {
    /// `>`: move the pointer one cell to the right.
    Right,
    /// `<`: move the pointer one cell to the left.
    Left,
    /// `+`: increment the current cell.
    Up,
    /// `-`: decrement the current cell.
    Down,
    /// `,`: read a byte into the current cell.
    In,
    /// `.`: write the current cell.
    Out,
    /// `[`: begin a loop.
    Begin,
    /// `]`: end a loop.
    End,
}

impl Command {
    /// Whether this is one of the six commands that may stand outside brackets
    /// in a tree.
    pub open spec fn is_plain(self) -> bool {
        self != Command::Begin && self != Command::End
    }
}

/// A bytecode instruction: an opcode with one operand.
#[derive(Copy, Clone, Debug, PartialEq, Eq, Structural)]
pub enum Instruction {
    /// Move the pointer left by the operand.
    Left(Count),
    /// Move the pointer right by the operand.
    Right(Count),
    /// Add the operand to the current cell, modulo 256.
    Change(u8),
    /// Read a byte into the current cell.
    In,
    /// Write the current cell.
    Out,
    /// Set the current cell to 0.
    SetZero,
    /// Add the current cell to the cell the operand to the right, and zero it.
    OffsetAddRight(Count),
    /// Add the current cell to the cell the operand to the left, and zero it.
    OffsetAddLeft(Count),
    /// Move right by the operand until the current cell is 0.
    FindZeroRight(Count),
    /// Move left by the operand until the current cell is 0.
    FindZeroLeft(Count),
    /// Continue at the operand if the current cell is 0.
    JumpZero(Count),
    /// Continue at the operand if the current cell is not 0.
    JumpNotZero(Count),
}

} // verus!
