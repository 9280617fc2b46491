//! Literal dtype kinds. These are the ABI's own numbering, not Vortex's internal discriminants.

use vstd::prelude::*;

verus! {

/// The logical null type.
pub const NULL: u8 = 0;
/// A boolean.
pub const BOOL: u8 = 1;
/// A fixed-width numeric; payload is one [`PType`](super::PType) discriminant.
pub const PRIMITIVE: u8 = 2;
/// A fixed-precision decimal; payload is `u8` precision and `i8` scale.
pub const DECIMAL: u8 = 3;
/// A UTF-8 string.
pub const UTF8: u8 = 4;
/// Binary data.
pub const BINARY: u8 = 5;
/// A variable-length list; payload is the element dtype.
pub const LIST: u8 = 6;
/// A fixed-size list; payload is a varint size and the element dtype.
pub const FIXED_SIZE_LIST: u8 = 7;
/// A struct; payload is a varint field count then `(varint name_len, name, dtype)` each.
pub const STRUCT: u8 = 8;
/// A union.
pub const UNION: u8 = 9;
/// A dynamically typed value.
pub const VARIANT: u8 = 10;
/// An extension type; payload is a varint-prefixed id, varint-prefixed metadata, and the
/// storage dtype.
pub const EXTENSION: u8 = 11;
/// A map; payload is `u8` keys_sorted, the key dtype and the value dtype.
pub const MAP: u8 = 12;

} // verus!
