use simonkv::{ErrorKind, StoreError, StoreOptions, DEFAULT_SEGMENT_LENGTH};

#[test]
fn default_segment_length_is_64_mib() {
    assert_eq!(DEFAULT_SEGMENT_LENGTH, 64 * 1024 * 1024);
    assert!(StoreOptions::default().validate().is_ok());
}

#[test]
fn zero_segment_length_is_refused() {
    let error = StoreOptions::default().segment_length(0).validate().unwrap_err();
    assert_eq!(error, StoreError::ZeroSegmentLength);
    assert_eq!(error.kind(), ErrorKind::InvalidInput);
    assert!(StoreOptions::default().segment_length(1).validate().is_ok());
}
