//! Planning of push-morsel scans.
//!
//! A scan cuts a file into morsels, keeps the rows that are asked for, and decides how the
//! remaining row ranges are driven: by an internal pool, one output at a time by the engine's own
//! threads, or in adjacent pairs. Everything here is the deciding; the reading is the caller's.

pub mod bundle;
pub mod limit;
pub mod output;
pub mod plans;
pub mod policy;
pub mod ranges;
pub mod scan;
