//! An ordered map kept as a sorted linked list of base nodes with sparse
//! index levels above it. Nodes live in arenas and link to each other by
//! position in those arenas.

pub mod entries;
pub mod node;
pub mod list;
pub mod order_facts;
pub mod skip_list;
pub mod bench;
pub mod context;
