//! Keys and key-value entries.

pub mod kv_pair;
pub mod timestamped_key;
