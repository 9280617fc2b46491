//! Verified building blocks of a columnar file format and of the engines that scan it.
//!
//! - What decoder kernels see of their host: the memory they share ([`runtime`], [`host`]), the
//!   arrays that cross it ([`data`], [`decoded`], [`arrow`]), types ([`dtype`]), nodes ([`node`]),
//!   plans ([`plan`]) and the trait that a kernel implements ([`encoding`]), with two kernels
//!   ([`guest_kernels`]).
//! - How scans are planned over the threads of an engine ([`executor`]) and over many files
//!   ([`files`], [`dataset`], [`file_reader`]).
//! - What filters become: scan expressions ([`expr`], [`table_filter`]) and bloom filter probes
//!   ([`bloom`]).
//! - How objects are read at positions, and what is recorded of that ([`io`]).
//! - Which compression schemes compete ([`compressor`]).

pub mod abi;
pub mod arrow;
pub mod bits;
pub mod bloom;
pub mod compressor;
pub mod data;
pub mod dataset;
pub mod decoded;
pub mod dtype;
pub mod dtype_expr;
pub mod dtype_tree;
pub mod encoding;
pub mod error;
pub mod executor;
pub mod expr;
pub mod file_reader;
pub mod files;
pub mod frame;
pub mod guest_kernels;
pub mod host;
pub mod io;
pub mod kernels;
pub mod le;
pub mod location;
pub mod node;
pub mod plan;
pub mod proto;
pub mod runtime;
pub mod table_filter;
pub mod table_init_input;
pub mod text;
pub mod varint;

pub use encoding::WasmEncoding;
pub use encoding::__run_children;
pub use encoding::__run_decode;
pub use error::GuestError;
pub use error::GuestResult;
