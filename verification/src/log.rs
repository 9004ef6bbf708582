//! The write-ahead log interface of the table.

use vstd::prelude::*;

verus! {

/// A log that records table writes.
pub trait Log {
    fn add(&mut self, entry: Vec<u8>);
}

/// A log that keeps nothing, for tables that need no durability.
pub struct MockLog {}

impl MockLog {
    pub fn new() -> (r: Self) {
        MockLog {  }
    }
}

impl Log for MockLog {
    /// Discards the entry.
    fn add(&mut self, entry: Vec<u8>) {
    }
}

} // verus!
