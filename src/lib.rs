//! Byte-addressable memory for an emulated console: mirrored stores with
//! read/write permissions, bank partitioning and a snapshot codec.

pub mod banks;
mod entropy;
pub mod laws;
pub mod memory;
pub mod snapshot;

pub use banks::Banks;
pub use memory::{Addr, Bankable, Byte, MemRead, MemWrite, Memory, MemoryView, Word};
pub use snapshot::SnapshotError;
