//! Failures of the codec.

use vstd::prelude::*;

verus! {

/// Why a byte buffer is not a method body that can be decoded.
#[derive(Clone, Copy, PartialEq, Eq, Debug, Structural)]
pub enum DecodeError {
    /// Fewer bytes remain than the next field needs.
    TruncatedStream,
    /// An opcode byte (or byte pair) names no instruction.
    UnknownOpcode,
    /// The instructions do not end exactly at the declared code size, or the body does
    /// not end exactly at the declared buffer size.
    SizeMismatch,
    /// The header's format tag or declared header size is not one that is understood.
    UnsupportedHeaderVariant,
    /// A branch lands outside the code or between two instructions.
    InvalidBranchTarget,
    /// An extra data section is neither a small nor a fat exception-handling table of a
    /// consistent size.
    MalformedSection,
    /// Two protected regions overlap without one containing the other, or a region's
    /// handler overlaps its own protected range.
    InvalidRegionNesting,
}

/// Why a method body cannot be written out.
#[derive(Clone, Copy, PartialEq, Eq, Debug, Structural)]
pub enum EncodeError {
    /// A branch names a target that no instruction carries.
    DanglingBranchTarget,
    /// A branch displacement does not fit the width of its operand.
    BranchOutOfRange,
    /// The code, or the exception-handling table, is too large for any header or section
    /// layout.
    UnsupportedHeaderVariant,
}

} // verus!
