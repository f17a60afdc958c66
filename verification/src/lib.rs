//! A small log-structured-merge key-value storage engine.
//!
//! Writes go to an in-memory sorted buffer, the memtable. When the memtable
//! holds more keys than its threshold, the engine lays its contents out as a
//! new immutable segment and records, in a sparse index, where each chunk of
//! the segment begins. Reads consult the memtable first and then the chunk that
//! the sparse index points to.
//!
//! The engine never touches the file system. It decides what is to be written
//! or read and is told what came back; the caller performs the transfer.

pub mod error;
pub mod storage;
