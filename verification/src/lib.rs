//! An append-only, log-structured key-value store.
//!
//! The store keeps its state as a byte log (the on-disk file image) together
//! with an in-memory index mapping each key to the offset of its most recent
//! record. Records are framed as a CRC-32 checksum, a key length and a value
//! length (all little-endian `u32`), followed by the key and value bytes.
//!
//! The `cpu` module holds a separate small exercise: a verified
//! CHIP-8-style interpreter with add, multiply, call and return.

pub mod checksum;
pub mod codec;
pub mod cpu;
pub mod record;
pub mod replay;
pub mod store;
