//! A demonstration client core for an Ethereum-compatible node: the verified
//! logic behind a small monitoring program. The centrepiece is the call-trace
//! flattener, which reduces a hierarchical trace of nested contract calls to a
//! flat mapping from destination address to calldata. Beside it stand the
//! decoding of a 256-bit big-endian amount from a log payload and the startup
//! configuration check. All network I/O lives outside this library.

pub mod config;
pub mod logs;
pub mod trace;
