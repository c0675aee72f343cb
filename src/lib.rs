//! Decoding, re-encoding and rewriting of managed-code method bodies, and the
//! per-method interception decisions built on them.

pub mod bytes;
pub mod error;
pub mod opcodes;
pub mod instruction;
pub mod decoder;
pub mod region;
pub mod body;
pub mod metadata;
pub mod controller;
pub mod theorems;
pub mod launch;
