//! Decoder kernels for single encodings, each of which takes its whole encoded form as one
//! payload.

pub mod bitpacked;
pub mod fsst;
