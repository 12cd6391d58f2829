//! Strenor: an embedded key-value engine with typed structures, expirations,
//! an append-only log, snapshots and transactions.

pub mod bytes;
pub mod classic;
pub mod clock;
pub mod compact;
pub mod crc;
pub mod errors;
pub mod expiry;
pub mod laws;
pub mod log;
pub mod model;
pub mod mutate;
pub mod order;
pub mod ranges;
pub mod record;
pub mod replay;
pub mod score;
pub mod snapshot;
pub mod sorted_map;
pub mod store;
pub mod text;
pub mod value;
pub mod zset;
