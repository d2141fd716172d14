//! A write-ahead log: an append-only record store that captures
//! state-changing operations before they are applied elsewhere.
//!
//! The library owns the record format, the binary segment encoding, the
//! buffering and flush-threshold policy, the checkpoint-driven segment
//! rotation, and the recovery decision taken over an existing directory of
//! segment files.  All of it is verified.  The caller performs the actual
//! file reads and writes and hands the library plain values: the manager
//! produces the exact bytes each segment file must hold, and commits a state
//! change only once the caller reports the corresponding write durable.

pub mod codec;
pub mod entry;
pub mod manager;
pub mod recovery;
