//! `struct ArrowSchema` of the Arrow C Data Interface, with 32-bit pointers.

use vstd::prelude::*;

verus! {

/// Byte offset of the format string pointer.
pub const FORMAT: usize = 0;
/// Byte offset of the 64-bit flags.
pub const FLAGS: usize = 16;
/// Size of the struct.
pub const SIZE: usize = 48;
/// Flag: the field is nullable.
pub const FLAG_NULLABLE: u64 = 2;

} // verus!
