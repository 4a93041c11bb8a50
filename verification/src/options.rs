//! Settings a store is opened with.
use vstd::prelude::*;

use crate::error::StoreError;

verus! {

/// The segment length a store uses unless told otherwise: 64 MiB.
pub const DEFAULT_SEGMENT_LENGTH: u64 = 64 * 1024 * 1024;

/// Settings for a store.
pub struct StoreOptions {
    segment_length: u64,
}

impl View for StoreOptions {
    type V = u64;

    /// The target length of a segment, in bytes.
    closed spec fn view(&self) -> u64 {
        self.segment_length
    }
}

impl Default for StoreOptions {
    fn default() -> (r: Self)
        ensures
            r@ == DEFAULT_SEGMENT_LENGTH,
    {
        Self { segment_length: DEFAULT_SEGMENT_LENGTH }
    }
}

impl StoreOptions {
    /// These settings with a segment length of `bytes`.
    pub fn segment_length(self, bytes: u64) -> (r: Self)
        ensures
            r@ == bytes,
    {
        let mut options = self;
        options.segment_length = bytes;
        options
    }

    /// Refuses a segment length of zero.
    pub fn validate(self) -> (r: Result<(), StoreError>)
        ensures
            r is Err <==> self@ == 0,
            r matches Err(e) ==> e == StoreError::ZeroSegmentLength,
    {
        if self.segment_length == 0 {
            return Err(StoreError::ZeroSegmentLength);
        }
        Ok(())
    }
}

} // verus!
