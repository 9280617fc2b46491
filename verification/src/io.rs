//! Positional reads of objects in a store.
//!
//! A store answers a read with an open file or with a stream of bytes. Asking the store and reading
//! from files is the caller's; which read is asked for, what is made of the answers, and what is
//! recorded of them is here.

pub mod assembly;
pub mod device_read_at;
pub mod diagnostic_read_at;
pub mod pooled_read_at;
pub mod read_at;
pub mod segments;
