//! A materialized array descriptor, written into a plan's aux blob by
//! [`PlanBuilder::materialized`](crate::plan::PlanBuilder::materialized):
//!
//! ```text
//! [u8 shape][u8 ptype][u8 validity][u8 n_buffers][u32 len][u32 validity_ptr]
//! [(u32 ptr, u32 len) × n_buffers]
//! ```

use vstd::prelude::*;

verus! {

/// Fixed part of the descriptor, before the buffer table.
pub const HEADER: usize = 12;

} // verus!
