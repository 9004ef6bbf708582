//! A small storage-engine toolkit: a seeded pseudo-random generator, byte
//! encodings for keys and values, an in-memory table, an LRU block cache and
//! an ordered skip list with index levels.

pub mod rand;
pub mod skip_list;
pub mod cache;
pub mod common;
pub mod storage;
pub mod log;
pub mod memtable;
pub mod level;
pub mod debug;
