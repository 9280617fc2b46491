//! How an array's buffers are to be interpreted. These are Vortex's canonical layouts, not Arrow
//! C structs: the dtype is already known on both sides, so no schema is transmitted.

use vstd::prelude::*;

verus! {

/// One buffer: little-endian values.
pub const PRIMITIVE: u8 = 0;
/// One buffer: an LSB-first values bitmap.
pub const BOOL: u8 = 1;
/// `1 + n` buffers: 16-byte views, then the data buffers they reference.
pub const VAR_BIN_VIEW: u8 = 2;
/// No buffers: the logical null array.
pub const NULL: u8 = 3;
/// One buffer: little-endian scaled integers.
pub const DECIMAL: u8 = 4;
/// Three children: offsets, sizes and elements of a list-view.
pub const LIST: u8 = 5;
/// One child: the flattened elements.
pub const FIXED_SIZE_LIST: u8 = 6;
/// One row-aligned child per field.
pub const STRUCT: u8 = 7;
/// `1 + n` children: the type tags, then the row-aligned variants.
pub const UNION: u8 = 8;
/// One child: a list of entry structs.
pub const MAP: u8 = 9;
/// One child: the storage array.
pub const EXTENSION: u8 = 10;

} // verus!
