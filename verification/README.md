# vortex_verus

Verified building blocks of a columnar file format and of the engines that scan it, written in
Rust and proved with Verus.

- `src/` is the library. Every function states in its contract what it returns, and Verus proves
  it. Laws that relate several functions stand beside them as public proof functions named `law_*`.
- `tests/` runs the library on concrete values.
- `app/` is ordinary Rust around the library: the environment, the clock, threads, the filesystem,
  object stores and floating point.

The library has four parts:

- what decoder kernels share with their host: memory, arrays, types, nodes, plans, and two kernels;
- the planning of scans: morsels, bundles, outputs, files and datasets;
- filters: scan expressions, row selections and bloom filter probes;
- positional reads of objects: streams, promoted files, and what is recorded of them.

Trusted are `core::str::from_utf8`, the parts of a URL as the `url` crate gives them, and the
unpacking of a chunk by the `fastlanes` crate. Each stands behind a small function whose contract
says what is believed of it.
