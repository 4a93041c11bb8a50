//! A Bitcask-style key-value store: an append-only log of checksummed
//! records, and an in-memory key directory that points at the latest live
//! record of every key.

pub mod bigendian;
pub mod checksum;
pub mod error;
pub mod keydir;
pub mod laws;
pub mod options;
pub mod record;
pub mod replay;
pub mod scanner;
pub mod store;
pub mod text;

pub use checksum::checksum;
pub use error::{ErrorKind, StoreError};
pub use keydir::Location;
pub use options::{StoreOptions, DEFAULT_SEGMENT_LENGTH};
pub use record::{
    decode, encode_delete, encode_header, encode_record, encode_set, read_exact_or_truncated,
    Command, DecodedRecord, CHECKSUM_LEN, DELETE_TAG, HEADER_LEN, SET_TAG,
};
pub use scanner::{RecordScanner, ScannedRecord};
pub use store::{compacted_record, value_from_record, KVStore, PendingWrite};
