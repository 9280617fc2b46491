//! The `vx_children` input frame (all integers little-endian).
//!
//! ```text
//! [u64 parent_len][u32 flags][u32 n_children][u32 dtype_len][u32 metadata_len]
//! [dtype…][metadata…]
//! ```
//!
//! `flags` bit 0: the parent dtype is nullable (also recoverable from the dtype itself; kept
//! because it is free and it is what most kernels actually check). `n_children` is the number of
//! serialized children present on the node (the guest uses it to detect an optional trailing
//! validity child).

use vstd::prelude::*;

verus! {

/// Byte offset of `parent_len`.
pub const PARENT_LEN: usize = 0;
/// Byte offset of `flags`.
pub const FLAGS: usize = 8;
/// Byte offset of `n_children`.
pub const N_CHILDREN: usize = 12;
/// Byte offset of `dtype_len`.
pub const DTYPE_LEN: usize = 16;
/// Byte offset of `metadata_len`.
pub const METADATA_LEN: usize = 20;
/// Total header size; the dtype then the metadata follow.
pub const HEADER: usize = 24;

} // verus!
