//! Errors raised before any instruction runs.

use vstd::prelude::*;

verus! {

/// Why a source could not be turned into a program.
#[derive(Clone, Copy, Debug, PartialEq, Eq, Structural)]
pub enum CompileError {
    /// The text is not valid UTF-8; the byte offset of the first offending
    /// sequence is given.
    InvalidEncoding(usize),
    /// The grid has more cells than the machine can index.
    TooLarge,
    /// An assembly line starts with no known mnemonic. This and the next
    /// three errors give the index of the instruction that the line
    /// should hold; a leading `ENTRY` line is not counted.
    UnknownMnemonic(usize),
    /// An assembly line has an operand missing, malformed or in excess.
    BadOperand(usize),
    /// An assembly line names a storage that does not exist.
    BadStorage(usize),
    /// An assembly line names an instruction that does not exist.
    BadTarget(usize),
    /// The assembly text holds no instruction.
    Empty,
    /// The bytecode does not begin with the marker.
    MissingMarker,
    /// The bytecode ends in the middle of the encoding, holds an unknown
    /// operation or an invalid link, or goes on after its last instruction.
    Malformed,
}

} // verus!
