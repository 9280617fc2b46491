//! `struct ArrowArray` of the Arrow C Data Interface, with 32-bit pointers.

use vstd::prelude::*;

verus! {

/// Byte offset of the 64-bit length.
pub const LENGTH: usize = 0;
/// Byte offset of the 64-bit null count; -1 when it was not computed.
pub const NULL_COUNT: usize = 8;
/// Byte offset of the 64-bit offset.
pub const OFFSET: usize = 16;
/// Byte offset of the 64-bit buffer count.
pub const N_BUFFERS: usize = 24;
/// Byte offset of the 64-bit child count.
pub const N_CHILDREN: usize = 32;
/// Byte offset of the buffer table pointer.
pub const BUFFERS: usize = 40;
/// Size of the struct.
pub const SIZE: usize = 64;

} // verus!
