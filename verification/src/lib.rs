//! An embedded, persistent key-value store in the Bitcask style: an
//! append-only log of checksummed records on disk, combined with an
//! in-memory index that maps every live key to the location of its most
//! recent value.
//!
//! The store itself is modelled over plain byte vectors: a log file is a
//! numbered byte buffer, and the storage engine appends records, reads
//! values back by position, and rebuilds its index by scanning the
//! buffers. A thin host layer owns the actual file handles and mirrors
//! the byte-level operations onto disk.

pub mod bitcask;
pub mod bytes;
pub mod checksum;
pub mod disk_logs;
pub mod error;
pub mod laws;
pub mod memory_index;
pub mod storage;
pub mod log_entry;
pub mod log_file;
