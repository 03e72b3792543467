//! What is held of the readings: in memory, in the log and in chunk files.

pub mod chunk_store;
pub mod memtable;
pub mod records;
pub mod text;
pub mod wal;

pub use chunk_store::ChunkStore;
pub use memtable::MemTable;
pub use wal::WAL;
