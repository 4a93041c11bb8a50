use vstd::prelude::*;

verus! {

/// The broad class of a failure, as callers distinguish them.
#[derive(Clone, Copy, Debug, PartialEq, Eq, Structural)]
pub enum ErrorKind {
    /// Stored bytes are malformed or inconsistent.
    InvalidData,
    /// An argument is out of the range the format accepts.
    InvalidInput,
    /// The bytes end in the middle of a record.
    UnexpectedEof,
}

/// Everything the library can refuse.
#[derive(Clone, Copy, Debug, PartialEq, Eq, Structural)]
pub enum StoreError {
    TruncatedHeader,
    UnknownOperation,
    TruncatedHeaderChecksum,
    HeaderChecksumMismatch,
    PayloadLengthOverflow,
    TruncatedPayload,
    TruncatedChecksum,
    ChecksumMismatch,
    KeyNotUtf8,
    ValueNotUtf8,
    RecordOffsetOverflow,
    UnsupportedOperation,
    KeyTooLarge,
    ValueTooLarge,
    KeydirPastEnd,
    KeydirWrongRecord,
    KeydirMissingKey,
    ZeroSegmentLength,
}

impl StoreError {
    pub open spec fn spec_kind(&self) -> ErrorKind {
        match self {
            StoreError::TruncatedHeader => ErrorKind::UnexpectedEof,
            StoreError::TruncatedHeaderChecksum => ErrorKind::UnexpectedEof,
            StoreError::TruncatedPayload => ErrorKind::UnexpectedEof,
            StoreError::TruncatedChecksum => ErrorKind::UnexpectedEof,
            StoreError::UnsupportedOperation => ErrorKind::InvalidInput,
            StoreError::KeyTooLarge => ErrorKind::InvalidInput,
            StoreError::ValueTooLarge => ErrorKind::InvalidInput,
            StoreError::ZeroSegmentLength => ErrorKind::InvalidInput,
            _ => ErrorKind::InvalidData,
        }
    }

    /// The class of this error.
    #[verifier::when_used_as_spec(spec_kind)]
    pub fn kind(&self) -> (k: ErrorKind)
        ensures
            k == self.spec_kind(),
    {
        match self {
            StoreError::TruncatedHeader => ErrorKind::UnexpectedEof,
            StoreError::TruncatedHeaderChecksum => ErrorKind::UnexpectedEof,
            StoreError::TruncatedPayload => ErrorKind::UnexpectedEof,
            StoreError::TruncatedChecksum => ErrorKind::UnexpectedEof,
            StoreError::UnsupportedOperation => ErrorKind::InvalidInput,
            StoreError::KeyTooLarge => ErrorKind::InvalidInput,
            StoreError::ValueTooLarge => ErrorKind::InvalidInput,
            StoreError::ZeroSegmentLength => ErrorKind::InvalidInput,
            _ => ErrorKind::InvalidData,
        }
    }

    /// The description of each error.
    pub open spec fn spec_message(&self) -> Seq<char> {
        match self {
            StoreError::TruncatedHeader => "truncated log header"@,
            StoreError::UnknownOperation => "unknown log operation"@,
            StoreError::TruncatedHeaderChecksum => "truncated log header checksum"@,
            StoreError::HeaderChecksumMismatch => "record header checksum mismatch"@,
            StoreError::PayloadLengthOverflow => "record payload length overflow"@,
            StoreError::TruncatedPayload => "truncated log payload"@,
            StoreError::TruncatedChecksum => "truncated log checksum"@,
            StoreError::ChecksumMismatch => "record checksum mismatch"@,
            StoreError::KeyNotUtf8 => "log key is not valid UTF-8"@,
            StoreError::ValueNotUtf8 => "log value is not valid UTF-8"@,
            StoreError::RecordOffsetOverflow => "record offset overflow"@,
            StoreError::UnsupportedOperation => "unsupported operation"@,
            StoreError::KeyTooLarge => "key too large"@,
            StoreError::ValueTooLarge => "value too large"@,
            StoreError::KeydirPastEnd => "keydir points past the end of the log"@,
            StoreError::KeydirWrongRecord => "keydir points to the wrong record"@,
            StoreError::KeydirMissingKey => "keydir contains a missing key"@,
            StoreError::ZeroSegmentLength => "Segment length must be greater than zero"@,
        }
    }

    /// A human-readable description of this error.
    pub fn message(&self) -> (m: &'static str)
        ensures
            m@ == self.spec_message(),
    {
        match self {
            StoreError::TruncatedHeader => "truncated log header",
            StoreError::UnknownOperation => "unknown log operation",
            StoreError::TruncatedHeaderChecksum => "truncated log header checksum",
            StoreError::HeaderChecksumMismatch => "record header checksum mismatch",
            StoreError::PayloadLengthOverflow => "record payload length overflow",
            StoreError::TruncatedPayload => "truncated log payload",
            StoreError::TruncatedChecksum => "truncated log checksum",
            StoreError::ChecksumMismatch => "record checksum mismatch",
            StoreError::KeyNotUtf8 => "log key is not valid UTF-8",
            StoreError::ValueNotUtf8 => "log value is not valid UTF-8",
            StoreError::RecordOffsetOverflow => "record offset overflow",
            StoreError::UnsupportedOperation => "unsupported operation",
            StoreError::KeyTooLarge => "key too large",
            StoreError::ValueTooLarge => "value too large",
            StoreError::KeydirPastEnd => "keydir points past the end of the log",
            StoreError::KeydirWrongRecord => "keydir points to the wrong record",
            StoreError::KeydirMissingKey => "keydir contains a missing key",
            StoreError::ZeroSegmentLength => "Segment length must be greater than zero",
        }
    }
}

} // verus!
