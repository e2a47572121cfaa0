//! Structural segmentation of source files into named, line-bounded chunks.
//!
//! The library frames JSON-RPC messages over a length-prefixed byte
//! transport, sequences a symbol-query session against an external
//! analysis process, flattens the hierarchical symbol trees it returns
//! into ordered chunk lists, and assigns each chunk a stable file name
//! and manifest record.

pub mod chunking;
pub mod persist;
pub mod session;
pub mod transport;
pub mod text;
