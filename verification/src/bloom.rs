//! Probing the bloom filters that hash joins build over their build side.
//!
//! A hash join that expects to probe more rows than it built pushes a bloom filter over the
//! build-side keys into the probe-side scan. Applying it inside the scan means that the rows it
//! rules out are never decoded. The filter holds hashes of the keys, so probing it means hashing
//! values exactly as the join did.

pub mod filter;
pub mod hash;
pub mod probe;
