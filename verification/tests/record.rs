use simonkv::{
    checksum, decode, encode_delete, encode_header, encode_record, encode_set,
    read_exact_or_truncated, Command, ErrorKind, StoreError, HEADER_LEN, SET_TAG,
};

#[test]
fn set_roundtrip_includes_encoded_length() {
    let encoded = encode_set("key", "value").unwrap();
    let decoded = decode(&encoded).unwrap().unwrap();

    assert_eq!(decoded.command, Command::Put("key".into(), "value".into()));
    assert_eq!(decoded.encoded_len, encoded.len() as u64);
}

#[test]
fn delete_roundtrip_includes_encoded_length() {
    let encoded = encode_delete("key").unwrap();
    let decoded = decode(&encoded).unwrap().unwrap();

    assert_eq!(decoded.command, Command::Delete("key".into()));
    assert_eq!(decoded.encoded_len, encoded.len() as u64);
}

#[test]
fn clean_end_of_input_has_no_record() {
    assert!(decode(&[]).unwrap().is_none());
}

#[test]
fn encodes_header() {
    let header = encode_header(SET_TAG, 3, 4);

    assert_eq!(header, [0x01, 0x00, 0x03, 0x00, 0x00, 0x00, 0x04]);
}

#[test]
fn checksum_is_crc32_of_header_then_payload() {
    // The standard CRC-32 check value of "123456789".
    assert_eq!(checksum(b"1234", b"56789"), 0xCBF4_3926);
    assert_eq!(checksum(b"123456789", &[]), 0xCBF4_3926);
}

#[test]
fn encoded_set_has_documented_layout() {
    let encoded = encode_set("K", "V").unwrap();
    let header = encode_header(SET_TAG, 1, 1);
    let mut expected = header.to_vec();
    expected.extend_from_slice(&checksum(&header, &[]).to_be_bytes());
    expected.extend_from_slice(b"KV");
    expected.extend_from_slice(&checksum(&header, b"KV").to_be_bytes());
    assert_eq!(encoded, expected);
    assert_eq!(encoded.len(), HEADER_LEN + 2 + 8);
}

#[test]
fn unsupported_operation_is_refused() {
    let error = encode_record(0x03, "K", b"V").unwrap_err();
    assert_eq!(error, StoreError::UnsupportedOperation);
    assert_eq!(error.kind(), ErrorKind::InvalidInput);
}

#[test]
fn oversized_key_is_refused() {
    let key = "k".repeat(65_536);
    assert_eq!(encode_set(&key, "v").unwrap_err(), StoreError::KeyTooLarge);
    let key = "k".repeat(65_535);
    assert!(encode_set(&key, "v").is_ok());
}

#[test]
fn every_proper_prefix_of_a_record_is_truncated() {
    let encoded = encode_set("key", "value").unwrap();
    for cut in 1..encoded.len() {
        let error = decode(&encoded[..cut]).unwrap_err();
        assert_eq!(error.kind(), ErrorKind::UnexpectedEof);
    }
}

#[test]
fn decoding_ignores_bytes_after_the_record() {
    let mut bytes = encode_set("a", "b").unwrap();
    let len = bytes.len() as u64;
    bytes.extend_from_slice(&[0xff, 0xff, 0xff]);
    let decoded = decode(&bytes).unwrap().unwrap();
    assert_eq!(decoded.command, Command::Put("a".into(), "b".into()));
    assert_eq!(decoded.encoded_len, len);
}

#[test]
fn decode_reports_each_malformation() {
    assert_eq!(decode(&[SET_TAG, 0]).unwrap_err(), StoreError::TruncatedHeader);
    assert_eq!(decode(&[0xff, 0, 0, 0, 0, 0, 0]).unwrap_err(), StoreError::UnknownOperation);
    assert_eq!(decode(&[SET_TAG, 0, 1, 0, 0, 0, 1]).unwrap_err(), StoreError::TruncatedHeaderChecksum);

    let mut record = encode_set("K", "V").unwrap();
    record[8] ^= 0x01;
    assert_eq!(decode(&record).unwrap_err(), StoreError::HeaderChecksumMismatch);

    let record = encode_set("K", "V").unwrap();
    assert_eq!(decode(&record[..12]).unwrap_err(), StoreError::TruncatedPayload);
    assert_eq!(decode(&record[..14]).unwrap_err(), StoreError::TruncatedChecksum);

    let mut record = encode_set("K", "V").unwrap();
    record[HEADER_LEN + 4] = b'X';
    assert_eq!(decode(&record).unwrap_err(), StoreError::ChecksumMismatch);
}

fn raw_record(operation: u8, key: &[u8], value: &[u8]) -> Vec<u8> {
    let header = encode_header(operation, key.len() as u16, value.len() as u32);
    let mut payload = key.to_vec();
    payload.extend_from_slice(value);
    let mut record = header.to_vec();
    record.extend_from_slice(&checksum(&header, &[]).to_be_bytes());
    record.extend_from_slice(&payload);
    record.extend_from_slice(&checksum(&header, &payload).to_be_bytes());
    record
}

#[test]
fn non_utf8_key_and_value_are_refused() {
    assert_eq!(decode(&raw_record(SET_TAG, &[0xff], b"v")).unwrap_err(), StoreError::KeyNotUtf8);
    assert_eq!(decode(&raw_record(SET_TAG, b"k", &[0xc0, 0x80])).unwrap_err(), StoreError::ValueNotUtf8);
    let error = decode(&raw_record(SET_TAG, b"k", &[0xed, 0xa0, 0x80])).unwrap_err();
    assert_eq!(error, StoreError::ValueNotUtf8);
    assert_eq!(error.kind(), ErrorKind::InvalidData);
}

#[test]
fn non_ascii_text_roundtrips() {
    let encoded = encode_set("clé", "värde ✓ 😀").unwrap();
    let decoded = decode(&encoded).unwrap().unwrap();
    assert_eq!(decoded.command, Command::Put("clé".into(), "värde ✓ 😀".into()));
}

#[test]
fn read_exact_or_truncated_takes_or_refuses() {
    let bytes = [1u8, 2, 3, 4];
    assert_eq!(read_exact_or_truncated(&bytes, 1, 2, StoreError::TruncatedPayload).unwrap(), &[2, 3]);
    assert_eq!(
        read_exact_or_truncated(&bytes, 3, 2, StoreError::TruncatedPayload).unwrap_err(),
        StoreError::TruncatedPayload
    );
}
