use simonkv::{encode_delete, encode_set, Command, ErrorKind, RecordScanner};

#[test]
fn scans_records_with_offsets_and_lengths() {
    let first = encode_set("key", "value").unwrap();
    let second = encode_delete("another-key").unwrap();
    let mut bytes = first.clone();
    bytes.extend_from_slice(&second);

    let mut scanner = RecordScanner::new(&bytes);
    let first_record = scanner.next().unwrap().unwrap();
    let second_record = scanner.next().unwrap().unwrap();

    assert_eq!(
        first_record.command,
        Command::Put("key".into(), "value".into())
    );
    assert_eq!(first_record.offset, 0);
    assert_eq!(first_record.record_len, first.len() as u64);
    assert_eq!(second_record.command, Command::Delete("another-key".into()));
    assert_eq!(second_record.offset, first.len() as u64);
    assert_eq!(second_record.record_len, second.len() as u64);
    assert_eq!(scanner.offset(), (first.len() + second.len()) as u64);
    assert!(scanner.next().is_none());
}

#[test]
fn offset_stops_after_last_complete_record() {
    let first = encode_set("key", "value").unwrap();
    let second = encode_delete("another-key").unwrap();
    let mut bytes = first.clone();
    bytes.extend_from_slice(&second[..second.len() - 1]);

    let mut scanner = RecordScanner::new(&bytes);

    scanner.next().unwrap().unwrap();
    let error = match scanner.next().unwrap() {
        Ok(_) => panic!("expected a truncated record"),
        Err(error) => error,
    };

    assert_eq!(error.kind(), ErrorKind::UnexpectedEof);
    assert_eq!(scanner.offset(), first.len() as u64);
    assert!(scanner.next().is_none());
}

#[test]
fn scanner_stops_after_an_error() {
    let mut bytes = encode_set("a", "1").unwrap();
    bytes.extend_from_slice(&[0xff, 0, 0, 0, 0, 0, 0]);
    bytes.extend_from_slice(&encode_set("b", "2").unwrap());
    let mut scanner = RecordScanner::new(&bytes);
    assert!(scanner.next().unwrap().is_ok());
    let error = match scanner.next().unwrap() {
        Ok(_) => panic!("expected an unknown operation"),
        Err(error) => error,
    };
    assert_eq!(error.kind(), ErrorKind::InvalidData);
    assert!(scanner.next().is_none());
}

#[test]
fn empty_log_scans_to_nothing() {
    let bytes: Vec<u8> = Vec::new();
    let mut scanner = RecordScanner::new(&bytes);
    assert!(scanner.next().is_none());
    assert_eq!(scanner.offset(), 0);
}
