//! An embedded log-structured merge-tree key-value engine: an in-memory
//! memtable, prefix-compressed sorted blocks, sorted tables with a block
//! index and a bloom filter, and the iterators that merge them into one
//! ordered stream.

pub mod block;
pub mod error;
pub mod iterator;
pub mod kv;
pub mod lex;
pub mod memory;
pub mod state;
pub mod table;
pub mod utils;
