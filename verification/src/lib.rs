//! An append-only, time-ordered event log: the in-memory engine, and the
//! logic of the durable and of the stream engine.

pub mod entry;
pub mod errors;
pub mod laws;
pub mod model;
pub mod stores;
pub mod traits;
pub mod utils;
pub mod wire;

pub use crate::entry::{Entry, EntryView};
pub use crate::errors::Error;
pub use crate::stores::memory::{MemoryRange, MemoryStore, MemoryStreamSubscription};
pub use crate::stores::redis::{ConnectionPool, StreamListener, StreamRecord};
pub use crate::stores::sqlite::{SqliteRange, SqliteRangeIterator};
pub use crate::stores::statement::StatementBuilder;
