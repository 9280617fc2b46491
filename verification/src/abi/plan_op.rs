//! Plan node opcodes. See [`crate::plan`] for the frame layout and the rationale.
//!
//! Every opcode maps to exactly one `vortex-array` constructor, which is what keeps a plan
//! evaluable by a reader that lacks the encoding the kernel decodes.

use vstd::prelude::*;

verus! {

/// An array the guest built; `a` is the aux offset of an [`array_descriptor`].
pub const MATERIALIZED: u8 = 0;
/// The node's serialized child; `a` is the child slot.
pub const CHILD: u8 = 1;
/// `a` gathered by the indices in `b`.
pub const TAKE: u8 = 2;
/// Rows `start..stop` of `a`; `b` is the aux offset of `[u64 start][u64 stop]`.
pub const SLICE: u8 = 3;
/// The concatenation of a node list; `a` is the aux offset of `[u32 n][u32 node × n]`.
pub const CONCAT: u8 = 4;
/// A repeated scalar; `a` is the aux offset of the scalar, `b` of a `u64` length.
pub const CONSTANT: u8 = 5;
/// `a` with its validity replaced by the boolean mask `b`.
pub const SET_VALIDITY: u8 = 6;

} // verus!
