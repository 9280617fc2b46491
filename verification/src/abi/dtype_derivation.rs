//! Derivation opcodes: a type named as a path from the parent rather than spelled out.
//!
//! Guest→host only. They exist because a literal is not always writable — an extension type needs
//! a host vtable the guest cannot synthesize — and because a kernel generic over its parent should
//! not have to name a concrete type at all.

use vstd::prelude::*;

verus! {

/// The parent node's own dtype. No payload.
pub const PARENT: u8 = 0;
/// Struct field `i` of the inner type; payload is a varint index then the inner dtype.
pub const FIELD: u8 = 1;
/// The element type of the inner list type; payload is the inner dtype.
pub const ELEMENT: u8 = 2;
/// The storage type of the inner extension type; payload is the inner dtype.
pub const STORAGE: u8 = 3;
/// The inner type, made nullable; payload is the inner dtype.
pub const NULLABLE: u8 = 4;
/// The inner type, made non-nullable; payload is the inner dtype.
pub const NON_NULLABLE: u8 = 5;

} // verus!
