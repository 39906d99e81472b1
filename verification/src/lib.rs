//! Host-side orchestration layer for batched accelerator primitives used in
//! zero-knowledge proof construction: number-theoretic transforms (NTT/INTT),
//! low-degree extension (LDE), bit-reversed matrix transpose, and Merkle-tree
//! digest construction, over one or many devices.
//!
//! The crate manages device selection, per-device transform tables, memory
//! placement, asynchronous streams, single- versus multi-device algorithm
//! selection, and a uniform error taxonomy. Every operation is specified and
//! verified against a mathematical model of the device runtime.

pub mod buffer;
pub mod config;
pub mod context;
pub mod error;
pub mod field;
pub mod merkle;
pub mod stream;
pub mod transform;
