//! Validity, as an algebra — a non-nullable or all-valid array transmits no bitmap.

use vstd::prelude::*;

verus! {

/// The dtype is not nullable.
pub const NON_NULLABLE: u8 = 0;
/// Nullable, all elements valid.
pub const ALL_VALID: u8 = 1;
/// Nullable, all elements null.
pub const ALL_INVALID: u8 = 2;
/// An LSB-first bitmap of `ceil(len / 8)` bytes, 1 = valid.
pub const BITMAP: u8 = 3;

} // verus!
