//! An append-only key-value log with a checksummed record format and an
//! in-memory index from each key to the offset of its latest record.

pub mod codec;
pub mod index;
pub mod replay;
pub mod snapshot;
pub mod store;

pub use codec::{encode, KeyValuePair, RecordError};
pub use index::KeyIndex;
pub use snapshot::SnapshotError;
pub use store::{store_index_on_disk, ActionKV};
