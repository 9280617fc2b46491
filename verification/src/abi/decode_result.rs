//! The result frame of a kernel that answers with Arrow C structs:
//!
//! ```text
//! materialized: [u32 tag][u32 array_ptr][u32 schema_ptr]
//! take:         [u32 tag][u32 values_slot][u32 array_ptr][u32 schema_ptr]
//! ```

use vstd::prelude::*;

verus! {

/// The structs hold the output itself.
pub const TAG_MATERIALIZED: u32 = 0;
/// The structs hold the indices by which the child in `values_slot` is gathered.
pub const TAG_TAKE: u32 = 1;

} // verus!
