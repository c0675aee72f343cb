//! The instruction set: for each opcode, the shape of the operand that follows it.

use vstd::prelude::*;

verus! {

/// The byte that introduces a two-byte opcode.
pub const PREFIX_BYTE: u8 = 0xFE;

/// What follows an opcode in the instruction stream.
#[derive(Clone, Copy, PartialEq, Eq, Debug, Structural)]
pub enum OperandShape {
    /// Nothing.
    NoOperand,
    /// A one-byte immediate (short integer, short variable index, alignment).
    Int8,
    /// A two-byte variable index.
    Int16,
    /// A four-byte immediate (integer, or the raw bits of a single-precision literal).
    Int32,
    /// An eight-byte immediate (integer, or the raw bits of a double-precision literal).
    Int64,
    /// A four-byte metadata token.
    Token,
    /// A one-byte signed branch displacement.
    Branch8,
    /// A four-byte signed branch displacement.
    Branch32,
    /// A four-byte count followed by that many four-byte displacements.
    Switch,
}

/// Shape of the operand of the one-byte opcode `op`; `None` where `op` is not an opcode.
pub open spec fn one_byte_shape(op: u8) -> Option<OperandShape> {
    if op <= 0x0D {
        Some(OperandShape::NoOperand)
    } else if op <= 0x13 {
        Some(OperandShape::Int8)
    } else if op <= 0x1E {
        Some(OperandShape::NoOperand)
    } else if op == 0x1F {
        Some(OperandShape::Int8)
    } else if op == 0x20 || op == 0x22 {
        Some(OperandShape::Int32)
    } else if op == 0x21 || op == 0x23 {
        Some(OperandShape::Int64)
    } else if op == 0x24 {
        None
    } else if op <= 0x26 {
        Some(OperandShape::NoOperand)
    } else if op <= 0x29 {
        Some(OperandShape::Token)
    } else if op == 0x2A {
        Some(OperandShape::NoOperand)
    } else if op <= 0x37 {
        Some(OperandShape::Branch8)
    } else if op <= 0x44 {
        Some(OperandShape::Branch32)
    } else if op == 0x45 {
        Some(OperandShape::Switch)
    } else if op <= 0x6E {
        Some(OperandShape::NoOperand)
    } else if op <= 0x75 {
        Some(OperandShape::Token)
    } else if op == 0x76 {
        Some(OperandShape::NoOperand)
    } else if op <= 0x78 {
        None
    } else if op == 0x79 {
        Some(OperandShape::Token)
    } else if op == 0x7A {
        Some(OperandShape::NoOperand)
    } else if op <= 0x81 {
        Some(OperandShape::Token)
    } else if op <= 0x8B {
        Some(OperandShape::NoOperand)
    } else if op <= 0x8D {
        Some(OperandShape::Token)
    } else if op == 0x8E {
        Some(OperandShape::NoOperand)
    } else if op == 0x8F {
        Some(OperandShape::Token)
    } else if op <= 0xA2 {
        Some(OperandShape::NoOperand)
    } else if op <= 0xA5 {
        Some(OperandShape::Token)
    } else if op <= 0xB2 {
        None
    } else if op <= 0xBA {
        Some(OperandShape::NoOperand)
    } else if op <= 0xC1 {
        None
    } else if op == 0xC2 {
        Some(OperandShape::Token)
    } else if op == 0xC3 {
        Some(OperandShape::NoOperand)
    } else if op <= 0xC5 {
        None
    } else if op == 0xC6 {
        Some(OperandShape::Token)
    } else if op <= 0xCF {
        None
    } else if op == 0xD0 {
        Some(OperandShape::Token)
    } else if op <= 0xDC {
        Some(OperandShape::NoOperand)
    } else if op == 0xDD {
        Some(OperandShape::Branch32)
    } else if op == 0xDE {
        Some(OperandShape::Branch8)
    } else if op <= 0xE0 {
        Some(OperandShape::NoOperand)
    } else {
        None
    }
}

/// Shape of the operand of the two-byte opcode `PREFIX_BYTE, op`; `None` where it is
/// not an opcode.
pub open spec fn two_byte_shape(op: u8) -> Option<OperandShape> {
    if op <= 0x05 {
        Some(OperandShape::NoOperand)
    } else if op <= 0x07 {
        Some(OperandShape::Token)
    } else if op == 0x08 {
        None
    } else if op <= 0x0E {
        Some(OperandShape::Int16)
    } else if op == 0x0F {
        Some(OperandShape::NoOperand)
    } else if op == 0x10 {
        None
    } else if op == 0x11 {
        Some(OperandShape::NoOperand)
    } else if op == 0x12 {
        Some(OperandShape::Int8)
    } else if op <= 0x14 {
        Some(OperandShape::NoOperand)
    } else if op <= 0x16 {
        Some(OperandShape::Token)
    } else if op <= 0x18 {
        Some(OperandShape::NoOperand)
    } else if op == 0x19 {
        Some(OperandShape::Int8)
    } else if op == 0x1A {
        Some(OperandShape::NoOperand)
    } else if op == 0x1B {
        None
    } else if op == 0x1C {
        Some(OperandShape::Token)
    } else if op <= 0x1E {
        Some(OperandShape::NoOperand)
    } else {
        None
    }
}

pub fn one_byte_operand_shape(op: u8) -> (r: Option<OperandShape>)
    ensures
        r == one_byte_shape(op),
{
    if op <= 0x0D {
        Some(OperandShape::NoOperand)
    } else if op <= 0x13 {
        Some(OperandShape::Int8)
    } else if op <= 0x1E {
        Some(OperandShape::NoOperand)
    } else if op == 0x1F {
        Some(OperandShape::Int8)
    } else if op == 0x20 || op == 0x22 {
        Some(OperandShape::Int32)
    } else if op == 0x21 || op == 0x23 {
        Some(OperandShape::Int64)
    } else if op == 0x24 {
        None
    } else if op <= 0x26 {
        Some(OperandShape::NoOperand)
    } else if op <= 0x29 {
        Some(OperandShape::Token)
    } else if op == 0x2A {
        Some(OperandShape::NoOperand)
    } else if op <= 0x37 {
        Some(OperandShape::Branch8)
    } else if op <= 0x44 {
        Some(OperandShape::Branch32)
    } else if op == 0x45 {
        Some(OperandShape::Switch)
    } else if op <= 0x6E {
        Some(OperandShape::NoOperand)
    } else if op <= 0x75 {
        Some(OperandShape::Token)
    } else if op == 0x76 {
        Some(OperandShape::NoOperand)
    } else if op <= 0x78 {
        None
    } else if op == 0x79 {
        Some(OperandShape::Token)
    } else if op == 0x7A {
        Some(OperandShape::NoOperand)
    } else if op <= 0x81 {
        Some(OperandShape::Token)
    } else if op <= 0x8B {
        Some(OperandShape::NoOperand)
    } else if op <= 0x8D {
        Some(OperandShape::Token)
    } else if op == 0x8E {
        Some(OperandShape::NoOperand)
    } else if op == 0x8F {
        Some(OperandShape::Token)
    } else if op <= 0xA2 {
        Some(OperandShape::NoOperand)
    } else if op <= 0xA5 {
        Some(OperandShape::Token)
    } else if op <= 0xB2 {
        None
    } else if op <= 0xBA {
        Some(OperandShape::NoOperand)
    } else if op <= 0xC1 {
        None
    } else if op == 0xC2 {
        Some(OperandShape::Token)
    } else if op == 0xC3 {
        Some(OperandShape::NoOperand)
    } else if op <= 0xC5 {
        None
    } else if op == 0xC6 {
        Some(OperandShape::Token)
    } else if op <= 0xCF {
        None
    } else if op == 0xD0 {
        Some(OperandShape::Token)
    } else if op <= 0xDC {
        Some(OperandShape::NoOperand)
    } else if op == 0xDD {
        Some(OperandShape::Branch32)
    } else if op == 0xDE {
        Some(OperandShape::Branch8)
    } else if op <= 0xE0 {
        Some(OperandShape::NoOperand)
    } else {
        None
    }
}

pub fn two_byte_operand_shape(op: u8) -> (r: Option<OperandShape>)
    ensures
        r == two_byte_shape(op),
{
    if op <= 0x05 {
        Some(OperandShape::NoOperand)
    } else if op <= 0x07 {
        Some(OperandShape::Token)
    } else if op == 0x08 {
        None
    } else if op <= 0x0E {
        Some(OperandShape::Int16)
    } else if op == 0x0F {
        Some(OperandShape::NoOperand)
    } else if op == 0x10 {
        None
    } else if op == 0x11 {
        Some(OperandShape::NoOperand)
    } else if op == 0x12 {
        Some(OperandShape::Int8)
    } else if op <= 0x14 {
        Some(OperandShape::NoOperand)
    } else if op <= 0x16 {
        Some(OperandShape::Token)
    } else if op <= 0x18 {
        Some(OperandShape::NoOperand)
    } else if op == 0x19 {
        Some(OperandShape::Int8)
    } else if op == 0x1A {
        Some(OperandShape::NoOperand)
    } else if op == 0x1B {
        None
    } else if op == 0x1C {
        Some(OperandShape::Token)
    } else if op <= 0x1E {
        Some(OperandShape::NoOperand)
    } else {
        None
    }
}

} // verus!
