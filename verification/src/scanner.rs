//! Walks a log record by record.
use vstd::prelude::*;

use crate::error::StoreError;
use crate::record::{decode, lemma_decode_bounds, spec_decode, Command};

verus! {

/// A record found by the scanner, with where it starts and how long it is.
#[derive(Debug)]
pub struct ScannedRecord {
    pub command: Command,
    pub offset: u64,
    pub record_len: u64,
}

/// Reads the records of a log one after another.
pub struct RecordScanner<'a> {
    data: &'a [u8],
    offset: u64,
    finished: bool,
}

impl<'a> RecordScanner<'a> {
    /// The bytes being scanned.
    pub closed spec fn data(&self) -> Seq<u8> {
        self.data@
    }

    /// Where the next record starts.
    pub closed spec fn spec_offset(&self) -> u64 {
        self.offset
    }

    /// Whether the scan has ended, cleanly or at an error.
    pub closed spec fn is_finished(&self) -> bool {
        self.finished
    }

    /// The next record starts within the data.
    #[verifier::type_invariant]
    pub closed spec fn wf(&self) -> bool {
        self.offset <= self.data@.len()
    }

    /// A scanner at the start of `data`.
    pub fn new(data: &'a [u8]) -> (s: Self)
        ensures
            s.data() == data@,
            s.spec_offset() == 0,
            !s.is_finished(),
    {
        RecordScanner { data, offset: 0, finished: false }
    }

    /// Where the next record starts: the end of the last record returned.
    #[verifier::when_used_as_spec(spec_offset)]
    pub fn offset(&self) -> (o: u64)
        ensures
            o == self.spec_offset(),
    {
        self.offset
    }

    /// The next record; `None` at a clean end of the log and ever after an
    /// error, which is returned once.
    pub fn next(&mut self) -> (r: Option<Result<ScannedRecord, StoreError>>)
        ensures
            final(self).data() == old(self).data(),
            old(self).is_finished() ==> r is None && *final(self) == *old(self),
            !old(self).is_finished() ==> {
                let rest = old(self).data().subrange(
                    old(self).spec_offset() as int,
                    old(self).data().len() as int,
                );
                match spec_decode(rest) {
                    Ok(None) => r is None && final(self).is_finished() && final(self).spec_offset()
                        == old(self).spec_offset(),
                    Err(e) => r == Some(Err::<ScannedRecord, StoreError>(e))
                        && final(self).is_finished() && final(self).spec_offset()
                        == old(self).spec_offset(),
                    Ok(Some((c, n))) => r matches Some(Ok(rec)) && rec.command@ == c
                        && rec.offset == old(self).spec_offset() && rec.record_len == n
                        && !final(self).is_finished() && final(self).spec_offset()
                        == old(self).spec_offset() + n,
                }
            },
    {
        proof {
            use_type_invariant(&*self);
        }
        if self.finished {
            return None;
        }
        let rest = vstd::slice::slice_subrange(self.data, self.offset as usize, self.data.len());
        proof {
            lemma_decode_bounds(rest@);
        }
        let decoded = match decode(rest) {
            Ok(Some(record)) => record,
            Ok(None) => {
                self.finished = true;
                return None;
            },
            Err(error) => {
                self.finished = true;
                return Some(Err(error));
            },
        };
        let next_offset = match self.offset.checked_add(decoded.encoded_len) {
            Some(offset) => offset,
            None => {
                self.finished = true;
                return Some(Err(StoreError::RecordOffsetOverflow));
            },
        };
        let record = ScannedRecord {
            command: decoded.command,
            offset: self.offset,
            record_len: decoded.encoded_len,
        };
        self.offset = next_offset;
        Some(Ok(record))
    }
}

} // verus!
