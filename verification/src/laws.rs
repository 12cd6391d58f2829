//! What holds of the store as a whole: of snapshots and logs, of transactions, and of
//! any run of operations.

pub mod collections;
pub mod commands;
pub mod compaction;
pub mod durability;
pub mod formats;
pub mod journals;
pub mod keys;
pub mod orders;
pub mod recovery;
pub mod replays;
pub mod results;
pub mod shortest;
pub mod snapshots;
pub mod sorted_sets;
pub mod structures;
pub mod transactions;
