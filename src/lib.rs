//! A single-writer log-structured key-value store: an in-memory table of
//! recent writes, a write-ahead log of framed records, and immutable sorted
//! tables on disk, with the rules that join them into one read and write path.

pub mod codec;
pub mod types;
pub mod sorted;
pub mod memtable;
pub mod wal;
pub mod sstable;
pub mod naming;
pub mod database;
