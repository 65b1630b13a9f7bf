//! A minimal persistent key-value store kept as an append-only log of
//! checksummed records, with an in-memory index from each key to the offset
//! of its newest record.
pub mod codec;
pub mod database;
pub mod index;
pub mod store;

pub use codec::{decode, encode, Decoded, KeyValuePair, HEADER_LEN};
pub use database::Database;
pub use store::{Corruption, LilRedis, RecordTooLarge};
