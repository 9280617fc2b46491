//! The `vx_children` output: `[u32 n]` followed by `n` variable-length descriptors:
//!
//! ```text
//! [u8 mode][u8 pad x3][u32 dtype_len][u64 len][dtype…]
//! ```
//!
//! The dtype is a [`DTypeExpr`](crate::dtype::DTypeExpr) — a literal or a derivation of the
//! parent's type.

use vstd::prelude::*;

verus! {

/// Fixed part of one descriptor, before the dtype bytes.
pub const HEADER: usize = 16;
/// Byte offset of the mode.
pub const MODE: usize = 0;
/// Byte offset of the dtype length.
pub const DTYPE_LEN: usize = 4;
/// Byte offset of the logical element count.
pub const LEN: usize = 8;

/// The guest will read this child's element bytes: the host copies its buffers into guest
/// memory. Only primitive and boolean children are deliverable this way.
pub const MODE_VALUES: u8 = 0;
/// The guest only *names* this child in its plan: the host resolves it lazily, in its own
/// encoding, and never canonicalizes or copies it. A referenced child may therefore have any
/// dtype, including nested ones the guest could not read or reproduce.
pub const MODE_REFERENCE: u8 = 1;

} // verus!
