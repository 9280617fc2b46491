//! Tag byte layout for the [`dtype`](crate::dtype) encoding.

use vstd::prelude::*;

verus! {

/// Mask selecting the kind (or derivation opcode) from a tag byte.
pub const KIND_MASK: u8 = 0x3f;
/// Bit 6: the type is nullable.
pub const NULLABLE: u8 = 0x40;
/// Bit 7: the low bits are a [`dtype_derivation`](super::dtype_derivation) opcode rather than
/// a [`dtype_kind`](super::dtype_kind).
pub const DERIVED: u8 = 0x80;

} // verus!
