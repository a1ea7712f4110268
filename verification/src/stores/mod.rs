//! The storage engines.

pub mod compaction;
pub mod memory;
pub mod redis;
pub mod sqlite;
pub mod statement;
