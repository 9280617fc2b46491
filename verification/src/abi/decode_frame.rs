//! The `vx_decode` input frame (all integers little-endian).
//!
//! ```text
//! [u64 parent_len][u32 flags][u32 dtype_len][u32 metadata_len][u32 n_buffers][u32 n_children]
//! [dtype…][metadata…]
//! [(u32 buffer_ptr, u32 buffer_len) × n_buffers]
//! [child_entry × n_children]
//! ```
//!
//! `flags` bit 0: the parent dtype is nullable. Buffers are the node's raw serialized buffers,
//! already copied into guest memory; children are the host-decoded `Values` children.

use vstd::prelude::*;

verus! {

/// Byte offset of `parent_len`.
pub const PARENT_LEN: usize = 0;
/// Byte offset of `flags`.
pub const FLAGS: usize = 8;
/// Byte offset of `dtype_len`.
pub const DTYPE_LEN: usize = 12;
/// Byte offset of `metadata_len`.
pub const METADATA_LEN: usize = 16;
/// Byte offset of `n_buffers`.
pub const N_BUFFERS: usize = 20;
/// Byte offset of `n_children`.
pub const N_CHILDREN: usize = 24;
/// Total header size; the dtype, metadata, buffer table, and child table follow.
pub const HEADER: usize = 28;

} // verus!
