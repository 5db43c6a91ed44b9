//! The in-memory store.

pub mod memtable;
