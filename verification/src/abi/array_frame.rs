//! One array, in either direction:
//!
//! ```text
//! [u8 shape][u8 param][u8 validity][u8 pad][u32 len][u32 validity_ptr][u32 n_buffers]
//! [(u32 ptr, u32 len) x n_buffers]
//! [u32 n_children][child frame x n_children]
//! ```
//!
//! `param` is the primitive type of a primitive array, the storage type of a decimal array, and 0
//! for every other shape.

use vstd::prelude::*;

verus! {

/// Byte offset of the [`shape`](super::shape) tag.
pub const SHAPE: usize = 0;
/// Byte offset of the shape's parameter.
pub const PARAM: usize = 1;
/// Byte offset of the [`validity`](super::validity) tag.
pub const VALIDITY: usize = 2;
/// Byte offset of the logical element count.
pub const LEN: usize = 4;
/// Byte offset of the validity bitmap pointer (0 unless the tag is `BITMAP`).
pub const VALIDITY_PTR: usize = 8;
/// Byte offset of the buffer count.
pub const N_BUFFERS: usize = 12;
/// Fixed part of the frame, before the buffer table.
pub const HEADER: usize = 16;

} // verus!
