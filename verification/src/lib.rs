//! Storage engine core for time-series sensor readings: compression codecs,
//! the in-memory buffer, record framing for the log and the chunk files, and
//! the decisions of the flush pipeline.

pub mod compression;
pub mod flush;
pub mod ingest;
pub mod storage;
