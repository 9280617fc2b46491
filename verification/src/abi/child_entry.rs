//! A `Values` child in the `vx_decode` frame: a fixed 24-byte entry.
//!
//! ```text
//! [u8 shape][u8 ptype][u8 validity][u8 pad][u32 len]
//! [u32 values_ptr][u32 values_len][u32 validity_ptr][u32 pad]
//! ```

use vstd::prelude::*;

verus! {

/// Byte offset of the [`shape`](super::shape) tag.
pub const SHAPE: usize = 0;
/// Byte offset of the [`PType`](super::PType) discriminant.
pub const PTYPE: usize = 1;
/// Byte offset of the [`validity`](super::validity) tag.
pub const VALIDITY: usize = 2;
/// Byte offset of the logical element count.
pub const LEN: usize = 4;
/// Byte offset of the values buffer pointer.
pub const VALUES_PTR: usize = 8;
/// Byte offset of the values buffer length.
pub const VALUES_LEN: usize = 12;
/// Byte offset of the validity bitmap pointer (0 unless the tag is `BITMAP`).
pub const VALIDITY_PTR: usize = 16;
/// Size of one entry.
pub const SIZE: usize = 24;

} // verus!
