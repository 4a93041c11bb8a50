//! The on-disk record format.
//!
//! A record is a header (operation tag, big-endian key length as `u16`,
//! big-endian value length as `u32`), the checksum of the header, the key
//! bytes, the value bytes, and the checksum of header and payload together.
use vstd::prelude::*;
use vstd::utf8::{decode_utf8, encode_utf8, valid_utf8};

use crate::bigendian::{
    lemma_be16_bytes, lemma_be16_roundtrip, lemma_be32_bytes, lemma_be32_roundtrip,
    be16_at, be16_bytes, be32_at, be32_bytes, u16_from_be, u16_to_be, u32_from_be, u32_to_be,
};
use crate::checksum::{checksum, crc32};
use crate::error::StoreError;
use crate::text::{append_bytes, copy_range, string_from_utf8};

verus! {

broadcast use vstd::utf8::encode_utf8_decode_utf8, vstd::utf8::encode_utf8_valid_utf8;

pub const HEADER_LEN: usize = 7;

pub const CHECKSUM_LEN: usize = 4;

pub const SET_TAG: u8 = 0x01;

pub const DELETE_TAG: u8 = 0x02;

/// The largest key, in bytes, that a header can describe.
pub const MAX_KEY_LEN: usize = 0xffff;

/// The largest value, in bytes, that a header can describe.
pub const MAX_VALUE_LEN: u64 = 0xffff_ffff;

/// An operation stored in the log.
#[derive(Debug, PartialEq, Eq)]
pub enum Command {
    Put(String, String),
    Delete(String),
}

/// The mathematical content of a `Command`.
pub enum CommandView {
    Put(Seq<char>, Seq<char>),
    Delete(Seq<char>),
}

impl View for Command {
    type V = CommandView;

    open spec fn view(&self) -> CommandView {
        match self {
            Command::Put(k, v) => CommandView::Put(k@, v@),
            Command::Delete(k) => CommandView::Delete(k@),
        }
    }
}

impl CommandView {
    pub open spec fn key(self) -> Seq<char> {
        match self {
            CommandView::Put(k, _) => k,
            CommandView::Delete(k) => k,
        }
    }
}

/// A record read back from the log, with the number of bytes it occupies.
#[derive(Debug)]
pub struct DecodedRecord {
    pub command: Command,
    pub encoded_len: u64,
}

/// What decoding the start of a byte sequence gives: nothing at a clean end
/// of input, or a command and the length of its record.
pub open spec fn decoded_view(r: Result<Option<DecodedRecord>, StoreError>) -> Result<
    Option<(CommandView, nat)>,
    StoreError,
> {
    match r {
        Ok(Some(d)) => Ok(Some((d.command@, d.encoded_len as nat))),
        Ok(None) => Ok(None),
        Err(e) => Err(e),
    }
}

/// The header of a record.
pub open spec fn spec_header(operation: u8, key_len: u16, value_len: u32) -> Seq<u8> {
    seq![operation] + be16_bytes(key_len) + be32_bytes(value_len)
}

/// The complete bytes of a record whose lengths fit in its header.
pub open spec fn record_bytes(operation: u8, key: Seq<u8>, value: Seq<u8>) -> Seq<u8> {
    let header = spec_header(operation, key.len() as u16, value.len() as u32);
    header + be32_bytes(crc32(header)) + key + value + be32_bytes(crc32(header + (key + value)))
}

/// The number of bytes a record with this payload occupies.
pub open spec fn record_len(key_len: nat, value_len: nat) -> nat {
    (HEADER_LEN + 2 * CHECKSUM_LEN + key_len + value_len) as nat
}

pub open spec fn is_operation(operation: u8) -> bool {
    operation == SET_TAG || operation == DELETE_TAG
}

/// What encoding a record gives: refusal of an unknown operation or of a
/// payload too long for the header, or the record's bytes.
pub open spec fn spec_encode_record(operation: u8, key: Seq<u8>, value: Seq<u8>) -> Result<
    Seq<u8>,
    StoreError,
> {
    if !is_operation(operation) {
        Err(StoreError::UnsupportedOperation)
    } else if key.len() > MAX_KEY_LEN {
        Err(StoreError::KeyTooLarge)
    } else if value.len() > MAX_VALUE_LEN {
        Err(StoreError::ValueTooLarge)
    } else {
        Ok(record_bytes(operation, key, value))
    }
}

/// The encoding of a command.
pub open spec fn encode_command(c: CommandView) -> Result<Seq<u8>, StoreError> {
    match c {
        CommandView::Put(k, v) => spec_encode_record(SET_TAG, encode_utf8(k), encode_utf8(v)),
        CommandView::Delete(k) => spec_encode_record(DELETE_TAG, encode_utf8(k), seq![]),
    }
}

/// A command has a record when its key and value fit the header and its
/// payload's length fits in memory.
pub open spec fn encodable(c: CommandView) -> bool {
    encode_command(c) matches Ok(bytes) && bytes.len() <= usize::MAX + record_len(0, 0)
}

/// What decoding the start of `s` gives, check by check in the order the
/// bytes are met.
#[verifier::opaque]
pub open spec fn spec_decode(s: Seq<u8>) -> Result<Option<(CommandView, nat)>, StoreError> {
    if s.len() == 0 {
        Ok(None)
    } else if s.len() < HEADER_LEN {
        Err(StoreError::TruncatedHeader)
    } else if !is_operation(s[0]) {
        Err(StoreError::UnknownOperation)
    } else if s.len() < HEADER_LEN + CHECKSUM_LEN {
        Err(StoreError::TruncatedHeaderChecksum)
    } else if be32_at(s, HEADER_LEN as int) != crc32(s.subrange(0, HEADER_LEN as int)) {
        Err(StoreError::HeaderChecksumMismatch)
    } else {
        let key_len = be16_at(s, 1) as nat;
        let value_len = be32_at(s, 3) as nat;
        let payload_len = key_len + value_len;
        let start = (HEADER_LEN + CHECKSUM_LEN) as int;
        if payload_len > usize::MAX {
            Err(StoreError::PayloadLengthOverflow)
        } else if s.len() < start + payload_len {
            Err(StoreError::TruncatedPayload)
        } else if s.len() < start + payload_len + CHECKSUM_LEN {
            Err(StoreError::TruncatedChecksum)
        } else if be32_at(s, start + payload_len) != crc32(
            s.subrange(0, HEADER_LEN as int) + s.subrange(start, start + payload_len),
        ) {
            Err(StoreError::ChecksumMismatch)
        } else if !valid_utf8(s.subrange(start, start + key_len)) {
            Err(StoreError::KeyNotUtf8)
        } else if !valid_utf8(s.subrange(start + key_len, start + payload_len)) {
            Err(StoreError::ValueNotUtf8)
        } else {
            let key = decode_utf8(s.subrange(start, start + key_len));
            let value = decode_utf8(s.subrange(start + key_len, start + payload_len));
            let command = if s[0] == SET_TAG {
                CommandView::Put(key, value)
            } else {
                CommandView::Delete(key)
            };
            Ok(Some((command, record_len(key_len, value_len))))
        }
    }
}

/// The bytes an encoder hands back, or its refusal.
pub open spec fn bytes_result(r: Result<Vec<u8>, StoreError>) -> Result<Seq<u8>, StoreError> {
    match r {
        Ok(v) => Ok(v@),
        Err(e) => Err(e),
    }
}

/// The header of a record.
pub fn encode_header(operation: u8, key_len: u16, value_len: u32) -> (header: [u8; HEADER_LEN])
    ensures
        header@ == spec_header(operation, key_len, value_len),
{
    let k = u16_to_be(key_len);
    let v = u32_to_be(value_len);
    let header = [operation, k[0], k[1], v[0], v[1], v[2], v[3]];
    assert(header@ =~= spec_header(operation, key_len, value_len));
    header
}

/// Encodes a record for `operation` with the given key and value bytes.
pub fn encode_record(operation: u8, key: &str, value_bytes: &[u8]) -> (r: Result<
    Vec<u8>,
    StoreError,
>)
    ensures
        bytes_result(r) == spec_encode_record(operation, encode_utf8(key@), value_bytes@),
{
    if operation != SET_TAG && operation != DELETE_TAG {
        return Err(StoreError::UnsupportedOperation);
    }
    let key_bytes = key.as_bytes();
    if key_bytes.len() > MAX_KEY_LEN {
        return Err(StoreError::KeyTooLarge);
    }
    if value_bytes.len() as u64 > MAX_VALUE_LEN {
        return Err(StoreError::ValueTooLarge);
    }
    let key_len = key_bytes.len() as u16;
    let value_len = value_bytes.len() as u32;
    let header = encode_header(operation, key_len, value_len);
    let header_checksum = checksum(&header, &[]);
    let mut result: Vec<u8> = Vec::new();
    append_bytes(&mut result, &header);
    append_bytes(&mut result, &u32_to_be(header_checksum));
    let payload_start = result.len();
    append_bytes(&mut result, key_bytes);
    append_bytes(&mut result, value_bytes);
    let payload = vstd::slice::slice_subrange(result.as_slice(), payload_start, result.len());
    let record_checksum = checksum(&header, payload);
    append_bytes(&mut result, &u32_to_be(record_checksum));
    proof {
        let h = header@;
        let k = key_bytes@;
        let v = value_bytes@;
        assert(h + Seq::<u8>::empty() =~= h);
        assert((h + be32_bytes(crc32(h)) + k + v).subrange(11, (11 + k.len() + v.len()) as int)
            =~= k + v);
        assert(result@ =~= record_bytes(operation, k, v));
    }
    Ok(result)
}

/// Encodes the record that sets `key` to `value`.
pub fn encode_set(key: &str, value: &str) -> (r: Result<Vec<u8>, StoreError>)
    ensures
        bytes_result(r) == encode_command(CommandView::Put(key@, value@)),
{
    encode_record(SET_TAG, key, value.as_bytes())
}

/// Encodes the record that deletes `key`.
pub fn encode_delete(key: &str) -> (r: Result<Vec<u8>, StoreError>)
    ensures
        bytes_result(r) == encode_command(CommandView::Delete(key@)),
{
    let empty: [u8; 0] = [];
    let r = encode_record(DELETE_TAG, key, &empty);
    assert(empty@ =~= Seq::<u8>::empty());
    r
}

/// The `len` bytes of `bytes` that start at `start`, or `error`, an
/// end-of-input error, when the input ends before them.
pub fn read_exact_or_truncated<'a>(
    bytes: &'a [u8],
    start: usize,
    len: usize,
    error: StoreError,
) -> (r: Result<&'a [u8], StoreError>)
    requires
        start <= bytes@.len(),
        error.spec_kind() == crate::error::ErrorKind::UnexpectedEof,
    ensures
        match r {
            Ok(s) => start + len <= bytes@.len() && s@ == bytes@.subrange(
                start as int,
                start + len,
            ),
            Err(e) => start + len > bytes@.len() && e == error,
        },
{
    if len <= bytes.len() - start {
        Ok(vstd::slice::slice_subrange(bytes, start, start + len))
    } else {
        Err(error)
    }
}

/// Decodes the record at the start of `bytes`.
pub fn decode(bytes: &[u8]) -> (r: Result<Option<DecodedRecord>, StoreError>)
    ensures
        decoded_view(r) == spec_decode(bytes@),
{
    reveal(spec_decode);
    if bytes.len() == 0 {
        return Ok(None);
    }
    let header = read_exact_or_truncated(bytes, 0, HEADER_LEN, StoreError::TruncatedHeader)?;
    let operation = header[0];
    if operation != SET_TAG && operation != DELETE_TAG {
        return Err(StoreError::UnknownOperation);
    }
    let stored_header_checksum = read_exact_or_truncated(
        bytes,
        HEADER_LEN,
        CHECKSUM_LEN,
        StoreError::TruncatedHeaderChecksum,
    )?;
    let stored_header_checksum = u32_from_be(stored_header_checksum, 0);
    let computed_header_checksum = checksum(header, &[]);
    proof {
        assert(header@ + Seq::<u8>::empty() =~= header@);
    }
    if stored_header_checksum != computed_header_checksum {
        return Err(StoreError::HeaderChecksumMismatch);
    }
    let key_len = u16_from_be(header, 1) as usize;
    let value_len = u32_from_be(header, 3) as usize;
    let payload_len = match key_len.checked_add(value_len) {
        Some(n) => n,
        None => {
            return Err(StoreError::PayloadLengthOverflow);
        },
    };
    let start = HEADER_LEN + CHECKSUM_LEN;
    let payload = read_exact_or_truncated(bytes, start, payload_len, StoreError::TruncatedPayload)?;
    proof {
        assert(payload@.subrange(0, key_len as int) =~= bytes@.subrange(
            start as int,
            start + key_len,
        ));
        assert(payload@.subrange(key_len as int, payload_len as int) =~= bytes@.subrange(
            start + key_len,
            start + payload_len,
        ));
    }
    let stored_checksum = read_exact_or_truncated(
        bytes,
        start + payload_len,
        CHECKSUM_LEN,
        StoreError::TruncatedChecksum,
    )?;
    let stored_checksum = u32_from_be(stored_checksum, 0);
    let computed_checksum = checksum(header, payload);
    if stored_checksum != computed_checksum {
        return Err(StoreError::ChecksumMismatch);
    }
    let key = match string_from_utf8(copy_range(payload, 0, key_len)) {
        Some(k) => k,
        None => {
            return Err(StoreError::KeyNotUtf8);
        },
    };
    let value = match string_from_utf8(copy_range(payload, key_len, payload_len)) {
        Some(v) => v,
        None => {
            return Err(StoreError::ValueNotUtf8);
        },
    };
    let encoded_len = (HEADER_LEN + 2 * CHECKSUM_LEN) as u64 + key_len as u64 + value_len as u64;
    let command = if operation == SET_TAG {
        Command::Put(key, value)
    } else {
        Command::Delete(key)
    };
    Ok(Some(DecodedRecord { command, encoded_len }))
}

/// A decoded record lies within the input and is at least a bare header
/// with its checksums; a clean end of input is exactly an empty input.
pub proof fn lemma_decode_bounds(s: Seq<u8>)
    ensures
        spec_decode(s) matches Ok(Some((_, n))) ==> record_len(0, 0) <= n <= s.len(),
        spec_decode(s) == Ok::<Option<(CommandView, nat)>, StoreError>(None) <==> s.len() == 0,
{
    reveal(spec_decode);
}

/// Decoding looks only at the bytes of the record it returns.
pub proof fn lemma_decode_prefix(s: Seq<u8>, s2: Seq<u8>)
    requires
        spec_decode(s) matches Ok(Some((_, n))) && n <= s2.len() && s2.subrange(0, n as int)
            == s.subrange(0, n as int),
    ensures
        spec_decode(s2) == spec_decode(s),
{
    reveal(spec_decode);
    let n = spec_decode(s)->Ok_0->Some_0.1;
    let t = s.subrange(0, n as int);
    assert forall|i: int| 0 <= i < n implies s2[i] == s[i] by {
        assert(s2[i] == t[i]);
    }
    let kl = be16_at(s, 1) as int;
    let vl = be32_at(s, 3) as int;
    assert(s2.subrange(0, 7) =~= s.subrange(0, 7));
    assert(s2.subrange(11, 11 + kl) =~= s.subrange(11, 11 + kl));
    assert(s2.subrange(11 + kl, 11 + kl + vl) =~= s.subrange(11 + kl, 11 + kl + vl));
    assert(s2.subrange(11, 11 + kl + vl) =~= s.subrange(11, 11 + kl + vl));
}

/// Every proper, nonempty prefix of a record reads as a record cut short.
pub proof fn lemma_decode_truncated(s: Seq<u8>, m: nat)
    requires
        spec_decode(s) matches Ok(Some((_, n))) && 0 < m < n,
    ensures
        spec_decode(s.subrange(0, m as int)) matches Err(e) && e.spec_kind()
            == crate::error::ErrorKind::UnexpectedEof,
{
    reveal(spec_decode);
    let t = s.subrange(0, m as int);
    if m >= 11 {
        assert(t.subrange(0, 7) =~= s.subrange(0, 7));
    }
}

/// Decoding the record of an encodable command, whatever follows it, gives
/// back the command and the record's length.
pub proof fn lemma_decode_encoded(c: CommandView, rest: Seq<u8>)
    requires
        encodable(c),
    ensures
        spec_decode(encode_command(c)->Ok_0 + rest) == Ok::<Option<(CommandView, nat)>, StoreError>(
            Some((c, encode_command(c)->Ok_0.len()))),
{
    reveal(spec_decode);
    let (op, k, v) = match c {
        CommandView::Put(k, v) => (SET_TAG, encode_utf8(k), encode_utf8(v)),
        CommandView::Delete(k) => (DELETE_TAG, encode_utf8(k), Seq::<u8>::empty()),
    };
    let h = spec_header(op, k.len() as u16, v.len() as u32);
    let hc = be32_bytes(crc32(h));
    let rc = be32_bytes(crc32(h + (k + v)));
    let r = encode_command(c)->Ok_0;
    assert(r == h + hc + k + v + rc);
    let s = r + rest;
    lemma_be16_roundtrip(k.len() as u16);
    lemma_be32_roundtrip(v.len() as u32);
    lemma_be32_roundtrip(crc32(h));
    lemma_be32_roundtrip(crc32(h + (k + v)));
    let kl = k.len() as int;
    let vl = v.len() as int;
    assert(s.subrange(0, 7) =~= h);
    assert(s[0] == op);
    assert(s.subrange(1, 3) =~= be16_bytes(k.len() as u16));
    assert(be16_at(s, 1) == be16_at(be16_bytes(k.len() as u16), 0));
    assert(s.subrange(3, 7) =~= be32_bytes(v.len() as u32));
    assert(be32_at(s, 3) == be32_at(be32_bytes(v.len() as u32), 0));
    assert(s.subrange(7, 11) =~= hc);
    assert(be32_at(s, 7) == be32_at(hc, 0));
    assert(s.subrange(11, 11 + kl) =~= k);
    assert(s.subrange(11 + kl, 11 + kl + vl) =~= v);
    assert(s.subrange(11, 11 + kl + vl) =~= k + v);
    assert(s.subrange(11 + kl + vl, 15 + kl + vl) =~= rc);
    assert(be32_at(s, 11 + kl + vl) == be32_at(rc, 0));
    match c {
        CommandView::Put(key, value) => {
            assert(decode_utf8(encode_utf8(key)) == key);
            assert(decode_utf8(encode_utf8(value)) == value);
        },
        CommandView::Delete(key) => {
            assert(decode_utf8(encode_utf8(key)) == key);
            assert(valid_utf8(Seq::<u8>::empty()));
        },
    }
}

/// A record that decodes to a `Put` is the encoding of that command.
pub proof fn lemma_decode_canonical(s: Seq<u8>)
    requires
        spec_decode(s) matches Ok(Some((CommandView::Put(_, _), _))),
    ensures
        ({
            let (c, n) = spec_decode(s)->Ok_0->Some_0;
            encodable(c) && encode_command(c) == Ok::<Seq<u8>, StoreError>(s.subrange(0, n as int))
        }),
{
    reveal(spec_decode);
    let (c, n) = spec_decode(s)->Ok_0->Some_0;
    let kl = be16_at(s, 1) as int;
    let vl = be32_at(s, 3) as int;
    let kb = s.subrange(11, 11 + kl);
    let vb = s.subrange(11 + kl, 11 + kl + vl);
    vstd::utf8::decode_utf8_encode_utf8(kb);
    vstd::utf8::decode_utf8_encode_utf8(vb);
    lemma_be16_bytes(s, 1);
    lemma_be32_bytes(s, 3);
    lemma_be32_bytes(s, 7);
    lemma_be32_bytes(s, 11 + kl + vl);
    let h = s.subrange(0, 7);
    assert(h =~= spec_header(s[0], kl as u16, vl as u32));
    assert(s.subrange(11, 11 + kl + vl) =~= kb + vb);
    assert(s.subrange(0, n as int) =~= record_bytes(s[0], kb, vb));
}

} // verus!
