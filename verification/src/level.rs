//! A level of the table store: a set of sorted tables with disjoint key
//! ranges.

use vstd::prelude::*;

use crate::common::KeyImp;

verus! {

/// A level of sorted tables, looked up and changed by key range.
pub trait Level {
    /// The table type the level holds.
    type SS;

    /// The table whose key range holds `key`, if any.
    fn get_sstable_contains(&self, key: &KeyImp) -> Option<&Self::SS>;

    /// The number of tables.
    fn length(&self) -> usize;

    /// The tables whose key ranges meet `start_key..=end_key`.
    fn get_sstables_in_range(&self, start_key: &KeyImp, end_key: &KeyImp) -> Vec<&Self::SS>;

    /// Drops the tables whose key ranges meet `start_key..=end_key`.
    fn delete_sstables_in_range(&self, start_key: &KeyImp, end_key: &KeyImp);

    /// Adds a table.
    fn add_sstable(&mut self, sstable: Self::SS);
}

} // verus!
