//! The `vx_decode` result: a [`plan`](crate::plan) frame.
//!
//! ```text
//! [u32 n_nodes][u32 root][u32 aux_len][u32 reserved][node × n_nodes][aux…]
//! ```
//!
//! A node is `[u8 op][u8 flags][u16 pad][u32 a][u32 b][u32 c]`. Operands referring to other nodes
//! must name a **lower index**, which makes the plan acyclic and evaluable in one forward pass.

use vstd::prelude::*;

verus! {

/// Byte offset of `n_nodes`.
pub const N_NODES: usize = 0;
/// Byte offset of `root`.
pub const ROOT: usize = 4;
/// Byte offset of `aux_len`.
pub const AUX_LEN: usize = 8;
/// Total header size; the node array then the aux blob follow.
pub const HEADER: usize = 16;
/// Size of one node.
pub const NODE_SIZE: usize = 16;

} // verus!
