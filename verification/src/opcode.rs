//! The instruction set.
use vstd::prelude::*;

verus! {

/// One instruction of a program.
///
/// The four pointer and cell symbols of the source language collapse into two
/// variants that carry a signed amount, so that a run of equal symbols can be
/// held as one opcode.
#[derive(Clone, Copy, Debug, PartialEq, Eq)]
pub enum Opcode {
    /// Move the data pointer by the given number of cells.
    MovePointer(i64),
    /// Change the current cell by the given amount, saturating at 0 and 255.
    MutateCell(i64),
    /// Emit the current cell as one byte.
    Output,
    /// Read one byte into the current cell.
    Input,
    /// Start of a loop: skip to the matching end when the current cell is 0.
    LoopOpen,
    /// End of a loop: go back to the matching start unless the current cell is 0.
    LoopClose,
}

/// The opcode that a source character stands for, if it stands for one.
pub open spec fn opcode_of(c: char) -> Option<Opcode> {
    if c == '>' {
        Some(Opcode::MovePointer(1))
    } else if c == '<' {
        Some(Opcode::MovePointer(-1i64))
    } else if c == '+' {
        Some(Opcode::MutateCell(1))
    } else if c == '-' {
        Some(Opcode::MutateCell(-1i64))
    } else if c == '.' {
        Some(Opcode::Output)
    } else if c == ',' {
        Some(Opcode::Input)
    } else if c == '[' {
        Some(Opcode::LoopOpen)
    } else if c == ']' {
        Some(Opcode::LoopClose)
    } else {
        None
    }
}

/// Whether a source character is one of the eight instruction symbols.
pub open spec fn is_instruction(c: char) -> bool {
    opcode_of(c) is Some
}

/// The contribution of an opcode to the nesting depth: a loop start adds one
/// level, a loop end removes one, everything else leaves it alone.
pub open spec fn bracket_weight(op: Opcode) -> int {
    match op {
        Opcode::LoopOpen => 1,
        Opcode::LoopClose => -1,
        _ => 0,
    }
}

impl Opcode {
    /// Reads one source character. Every character other than the eight
    /// instruction symbols yields `None`.
    pub fn from_char(c: char) -> (op: Option<Opcode>)
        ensures
            op == opcode_of(c),
            op is Some <==> is_instruction(c),
    {
        match c {
            '>' => Some(Opcode::MovePointer(1)),
            '<' => Some(Opcode::MovePointer(-1)),
            '+' => Some(Opcode::MutateCell(1)),
            '-' => Some(Opcode::MutateCell(-1)),
            '.' => Some(Opcode::Output),
            ',' => Some(Opcode::Input),
            '[' => Some(Opcode::LoopOpen),
            ']' => Some(Opcode::LoopClose),
            _ => None,
        }
    }
}

} // verus!
