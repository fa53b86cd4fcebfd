//! An append-only, log-structured key-value store in the Bitcask style.
//!
//! The library holds the logic of the store: the binary record format, the
//! forward scan that recovers entries from a log image, the in-memory index of
//! record locations and the engine that keeps that index consistent with the
//! log.  Reading and writing the log file itself is left to the caller, who
//! hands the engine the bytes it has read and the records it has appended.
pub mod codec;
pub mod engine;
pub mod entry;
pub mod index;
pub mod log;
