//! An append-only key-value store in the Bitcask style: records are appended
//! to a log of bytes, and an index maps each live key to the offset of its
//! most recent record.
//!
//! The library works on bytes held in memory. Reading the files into those
//! bytes and writing them back is left to the caller.
//!
//! - `wire`: little-endian fields and the checksum.
//! - `record`: the layout of one record, written and read.
//! - `log`: records back to back; appending, scanning, finding, repairing.
//! - `index`: the map from keys to offsets, and its serialized form.
//! - `engine`: the store itself, in its two layouts.
//! - `laws`: what holds of a store across its operations.

pub mod engine;
pub mod index;
pub mod laws;
pub mod log;
pub mod record;
pub mod wire;

pub use crate::engine::ActionKV;
pub use crate::engine::Layout;
pub use crate::index::Index;
pub use crate::record::ByteStr;
pub use crate::record::ByteString;
pub use crate::record::KeyValuePair;
pub use crate::record::StoreError;
