use vstd::prelude::*;

verus! {

/// One operation of the machine.
#[derive(Debug, Clone, Copy, PartialEq, Eq, Structural)]
pub enum Instruction {
    /// Add the delta, modulo 256, to the cell under the cursor.
    Mutate(isize),
    /// Shift the cursor by the delta.
    Move(isize),
    /// Read one byte into the cell under the cursor.
    Input,
    /// Write the cell under the cursor.
    Output,
    /// Add the offset to the instruction pointer if the cell is zero.
    JumpIfZero(isize),
    /// Add the offset to the instruction pointer if the cell is not zero.
    JumpIfNonZero(isize),
    /// Set the cell under the cursor to zero.
    Reset,
    /// Add the cell times the multiplier to the cell at the offset, then
    /// zero the cell under the cursor.
    Transfer(isize, isize),
}

} // verus!
