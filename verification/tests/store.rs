//! The store driven over an in-memory log, as the program drives it over a
//! file: records are appended before they are committed, reads fetch the
//! bytes at a key's location, and compaction rewrites the log and replays it.
use simonkv::{
    checksum, compacted_record, encode_delete, encode_header, encode_set, value_from_record,
    ErrorKind, KVStore, PendingWrite, StoreError, DELETE_TAG, HEADER_LEN, SET_TAG,
};

struct MemStore {
    log: Vec<u8>,
    state: KVStore,
}

/// Opens a store over `log`, cutting a torn tail off it as the program cuts
/// the file.
fn open_in_place(log: &mut Vec<u8>) -> Result<KVStore, StoreError> {
    let (state, torn_tail_start) = KVStore::from_log(log)?;
    if let Some(start) = torn_tail_start {
        log.truncate(start as usize);
    }
    Ok(state)
}

impl MemStore {
    fn open(bytes: Vec<u8>) -> Result<MemStore, StoreError> {
        let mut log = bytes;
        let state = open_in_place(&mut log)?;
        Ok(MemStore { log, state })
    }

    fn new() -> MemStore {
        MemStore::open(Vec::new()).unwrap()
    }

    fn set(&mut self, key: String, value: String) -> Result<(), StoreError> {
        let write = PendingWrite::set(key, value)?;
        self.log.extend_from_slice(write.record());
        self.state.commit(write)
    }

    fn stored_record(&self, key: &str) -> Option<&[u8]> {
        let location = self.state.locate(key)?;
        let start = (location.offset as usize).min(self.log.len());
        let end = (start + location.record_length as usize).min(self.log.len());
        Some(&self.log[start..end])
    }

    fn get(&self, key: &str) -> Result<Option<String>, StoreError> {
        match self.stored_record(key) {
            None => Ok(None),
            Some(record) => value_from_record(key, record).map(Some),
        }
    }

    fn delete(&mut self, key: &str) -> Result<Option<String>, StoreError> {
        let old_value = self.get(key)?;
        let write = PendingWrite::delete(key)?;
        self.log.extend_from_slice(write.record());
        self.state.commit(write)?;
        Ok(old_value)
    }

    fn compact(&mut self) -> Result<(), StoreError> {
        let mut compacted = Vec::new();
        for key in self.state.live_keys() {
            let stored = self.stored_record(&key).ok_or(StoreError::KeydirMissingKey)?;
            compacted.extend_from_slice(&compacted_record(&key, stored)?);
        }
        *self = MemStore::open(compacted)?;
        Ok(())
    }

    fn reopen(self) -> MemStore {
        MemStore::open(self.log).unwrap()
    }

    fn is_empty(&self) -> bool {
        self.state.live_keys().is_empty()
    }
}

#[test]
fn set_get_roundtrip() {
    let mut store = MemStore::new();
    let key = "K";
    let val = "V";
    store.set(key.into(), val.into()).unwrap();
    assert_eq!(store.get(key).unwrap(), Some(val.to_string()));
}

#[test]
fn get_empty_value_returns_none() {
    let store = MemStore::new();
    assert_eq!(store.get("K").unwrap(), None);
}

#[test]
fn get_empty_value_is_distinct_from_missing() {
    let mut store = MemStore::new();
    store.set("K".into(), "".into()).unwrap();
    assert_eq!(store.get("K").unwrap(), Some(String::new()));
    assert_eq!(store.get("absent").unwrap(), None);
}

#[test]
fn set_delete_roundtrip() {
    let mut store = MemStore::new();
    let key = "K";
    let val = "V";

    store.set(key.into(), val.into()).unwrap();
    assert_eq!(store.delete(key).unwrap(), Some(val.into()));
}

#[test]
fn set_delete_get_returns_none() {
    let mut store = MemStore::new();
    let key = "K";
    let val = "V";

    store.set(key.into(), val.into()).unwrap();
    assert_eq!(store.delete(key).unwrap(), Some(val.to_string()));
    assert_eq!(store.get(key).unwrap(), None);
}

#[test]
fn delete_absent_key_returns_none() {
    let mut store = MemStore::new();
    let key = "K";
    assert_eq!(store.delete(key).unwrap(), None);
}

#[test]
fn set_writes_to_log() {
    let mut store = MemStore::new();

    store.set("K".into(), "V".into()).unwrap();

    assert_eq!(store.log, encode_set("K", "V").unwrap());
    assert_eq!(store.state.log_len(), store.log.len() as u64);
}

#[test]
fn del_writes_to_log() {
    let mut store = MemStore::new();

    store.delete("K").unwrap();

    assert_eq!(store.log, encode_delete("K").unwrap());
}

#[test]
fn set_del_roundtrip_writes_to_log() {
    let mut store = MemStore::new();

    store.set("K".into(), "V".into()).unwrap();
    store.delete("K").unwrap();

    let mut expected = encode_set("K", "V").unwrap();
    expected.extend_from_slice(&encode_delete("K").unwrap());
    assert_eq!(store.log, expected);
}

#[test]
fn open_restores_map_from_log() {
    let mut store = MemStore::new();

    store.set("K".into(), "V".into()).unwrap();

    let store = store.reopen();
    assert_eq!(store.get("K").unwrap(), Some("V".to_string()));
}

#[test]
fn open_replays_from_start_when_file_cursor_is_at_end() {
    let record = encode_set("K", "V").unwrap();

    let store = MemStore::open(record).unwrap();

    assert_eq!(store.get("K").unwrap(), Some("V".to_string()));
}

#[test]
fn open_stores_most_recent_set_from_log() {
    let mut store = MemStore::new();

    store.set("K".into(), "V".into()).unwrap();
    store.set("K".into(), "V2".into()).unwrap();

    let store = store.reopen();
    assert_eq!(store.get("K").unwrap(), Some("V2".to_string()));
}

#[test]
fn open_restores_most_recent_data_set_delete() {
    let mut store = MemStore::new();

    store.set("K".into(), "V".into()).unwrap();
    store.set("K2".into(), "V2".into()).unwrap();

    store.delete("K").unwrap();

    let store = store.reopen();
    assert_eq!(store.get("K").unwrap(), None);
    assert_eq!(store.get("K2").unwrap(), Some("V2".to_string()));
}

fn assert_open_rejects(bytes: &[u8]) {
    let error = match MemStore::open(bytes.to_vec()) {
        Ok(_) => panic!("expected malformed log to fail"),
        Err(error) => error,
    };

    assert_eq!(error.kind(), ErrorKind::InvalidData);
}

fn assert_truncated_log_is_recovered_as_empty(bytes: &[u8]) {
    let store = MemStore::open(bytes.to_vec()).unwrap();

    assert!(store.is_empty());
    assert_eq!(store.log.len(), 0);
}

#[test]
fn unknown_operation_returns_error() {
    assert_open_rejects(&[0xff, 0x00, 0x00, 0x00, 0x00, 0x00, 0x00]);
}

#[test]
fn truncated_header_is_discarded() {
    assert_truncated_log_is_recovered_as_empty(&[SET_TAG, 0x00]);
}

#[test]
fn truncated_payload_is_discarded() {
    assert_truncated_log_is_recovered_as_empty(&[SET_TAG, 0x00, 0x01, 0x00, 0x00, 0x00, 0x01]);
}

#[test]
fn invalid_utf8_returns_error() {
    let header = encode_header(SET_TAG, 1, 0);
    let payload = [0xff];
    let mut record = Vec::from(header);
    record.extend_from_slice(&checksum(&header, &[]).to_be_bytes());
    record.extend_from_slice(&payload);
    record.extend_from_slice(&checksum(&header, &payload).to_be_bytes());

    assert_open_rejects(&record);
}

#[test]
fn payload_corruption_returns_error() {
    let mut record = encode_set("K", "V").unwrap();
    record[HEADER_LEN + 1] = b'X';

    assert_open_rejects(&record);
}

#[test]
fn operation_corruption_returns_error() {
    let mut record = encode_set("K", "V").unwrap();
    record[0] = DELETE_TAG;

    assert_open_rejects(&record);
}

#[test]
fn length_corruption_returns_error_without_truncating_log() {
    let mut record = encode_set("K", "V").unwrap();
    record[6] = 0x02;
    let mut log = record.clone();

    let result = open_in_place(&mut log);

    assert!(matches!(
        result,
        Err(ref error) if error.kind() == ErrorKind::InvalidData
    ));
    assert_eq!(log, record);
}

#[test]
fn valid_records_before_truncated_tail_are_recovered() {
    let mut bytes = encode_set("K1", "V1").unwrap();
    let valid_length = bytes.len() as u64;
    let second_record = encode_set("K2", "V2").unwrap();
    bytes.extend_from_slice(&second_record[..second_record.len() - 1]);

    let store = MemStore::open(bytes).unwrap();

    assert_eq!(store.get("K1").unwrap(), Some("V1".to_string()));
    assert_eq!(store.get("K2").unwrap(), None);
    assert_eq!(store.log.len() as u64, valid_length);
}

#[test]
fn handles_whitespace_in_key_value() {
    let key = "   whitespace.   ";
    let value = "    more white space   ";

    let mut store = MemStore::new();

    store.set(key.to_string(), value.to_string()).unwrap();

    let store = store.reopen();

    assert_eq!(store.get(key).unwrap(), Some(value.to_string()));
}

#[test]
fn handles_newlines_in_key_value() {
    let key = "\n new linen\n\n";
    let value = "\n\n\n\n newer line \n";

    let mut store = MemStore::new();

    store.set(key.to_string(), value.to_string()).unwrap();

    let store = store.reopen();

    assert_eq!(store.get(key).unwrap(), Some(value.to_string()));
}

#[test]
fn compact_writes_only_latest_live_values() {
    let mut store = MemStore::new();

    store.set("K".into(), "old".into()).unwrap();
    store.set("K".into(), "new".into()).unwrap();

    store.set("deleted".into(), "value".into()).unwrap();
    store.delete("deleted").unwrap();

    store.compact().unwrap();

    let expected = encode_set("K", "new").unwrap();

    assert_eq!(store.log, expected);
    assert_eq!(store.get("K").unwrap(), Some("new".into()));
    assert_eq!(store.get("deleted").unwrap(), None);
}

#[test]
fn compacted_store_accepts_new_writes_and_reopens() {
    let mut store = MemStore::new();

    store.set("before".into(), "compaction".into()).unwrap();
    store.compact().unwrap();
    store.set("after".into(), "compaction".into()).unwrap();

    let reopened_store = store.reopen();
    assert_eq!(
        reopened_store.get("before").unwrap(),
        Some("compaction".into())
    );
    assert_eq!(
        reopened_store.get("after").unwrap(),
        Some("compaction".into())
    );
}

#[test]
fn store_ending_in_compact_survives() {
    let mut store = MemStore::new();

    store.set("key".into(), "value".into()).unwrap();
    store.set("key".into(), "better value".into()).unwrap();

    store.compact().unwrap();

    assert_eq!(store.get("key").unwrap(), Some("better value".into()));
}

#[test]
fn torn_tail_start_is_where_the_cut_record_starts() {
    let mut bytes = encode_set("a", "1").unwrap();
    let valid = bytes.len() as u64;
    let next = encode_delete("a").unwrap();
    bytes.extend_from_slice(&next[..5]);
    let (state, torn) = KVStore::from_log(&bytes).unwrap();
    assert_eq!(torn, Some(valid));
    assert_eq!(state.log_len(), valid);

    let (_, torn) = KVStore::from_log(&encode_set("a", "1").unwrap()).unwrap();
    assert_eq!(torn, None);
}

#[test]
fn compaction_keeps_every_live_value() {
    let mut store = MemStore::new();
    for i in 0..20 {
        store.set(format!("key{i}"), format!("value{i}")).unwrap();
    }
    for i in (0..20).step_by(3) {
        store.delete(&format!("key{i}")).unwrap();
    }
    store.set("key1".into(), "changed".into()).unwrap();
    store.compact().unwrap();
    let store = store.reopen();
    for i in 0..20 {
        let expected = if i % 3 == 0 {
            None
        } else if i == 1 {
            Some("changed".to_string())
        } else {
            Some(format!("value{i}"))
        };
        assert_eq!(store.get(&format!("key{i}")).unwrap(), expected);
    }
    assert_eq!(store.state.live_keys().len(), 13);
}

#[test]
fn reading_the_wrong_record_is_refused() {
    let record = encode_set("a", "1").unwrap();
    assert_eq!(value_from_record("b", &record).unwrap_err(), StoreError::KeydirWrongRecord);
    let record = encode_delete("a").unwrap();
    assert_eq!(value_from_record("a", &record).unwrap_err(), StoreError::KeydirWrongRecord);
    assert_eq!(value_from_record("a", &[]).unwrap_err(), StoreError::KeydirPastEnd);
    let record = encode_set("a", "1").unwrap();
    assert_eq!(value_from_record("a", &record[..3]).unwrap_err().kind(), ErrorKind::UnexpectedEof);
    assert_eq!(compacted_record("a", &record).unwrap(), record);
}

#[test]
fn to_string_lists_keys_with_offsets() {
    let mut store = MemStore::new();
    assert_eq!(store.state.to_string(), "");
    store.set("K".into(), "V".into()).unwrap();
    assert_eq!(store.state.to_string(), "{K: 0}");
    let first_len = store.log.len();
    store.set("A".into(), "B".into()).unwrap();
    assert_eq!(store.state.to_string(), format!("{{K: 0}}, {{A: {first_len}}}"));
    store.delete("K").unwrap();
    assert_eq!(store.state.to_string(), format!("{{A: {first_len}}}"));
}

#[test]
fn compaction_never_grows_the_log() {
    let mut store = MemStore::new();
    store.set("a".into(), "1".into()).unwrap();
    store.set("b".into(), "22".into()).unwrap();
    store.set("a".into(), "333".into()).unwrap();
    store.delete("b").unwrap();
    store.set("c".into(), "".into()).unwrap();
    let before = store.log.len();
    store.compact().unwrap();
    assert!(store.log.len() <= before);
    let mut expected = encode_set("a", "333").unwrap().len();
    expected += encode_set("c", "").unwrap().len();
    assert_eq!(store.log.len(), expected);
}

#[test]
fn compacting_twice_keeps_the_same_records() {
    let mut store = MemStore::new();
    for (k, v) in [("x", "1"), ("y", "2"), ("x", "3"), ("z", "4")] {
        store.set(k.into(), v.into()).unwrap();
    }
    store.delete("y").unwrap();
    store.compact().unwrap();
    let once = store.log.clone();
    store.compact().unwrap();
    let twice = store.log.clone();
    assert_eq!(once, twice);
    let x = encode_set("x", "3").unwrap();
    let z = encode_set("z", "4").unwrap();
    assert!(once == [x.clone(), z.clone()].concat() || once == [z, x].concat());
    assert_eq!(store.get("x").unwrap(), Some("3".into()));
    assert_eq!(store.get("y").unwrap(), None);
    assert_eq!(store.get("z").unwrap(), Some("4".into()));
}

#[test]
fn get_returns_the_latest_write_of_a_history() {
    let mut log = Vec::new();
    log.extend_from_slice(&encode_set("k", "first").unwrap());
    log.extend_from_slice(&encode_set("j", "other").unwrap());
    log.extend_from_slice(&encode_delete("k").unwrap());
    log.extend_from_slice(&encode_set("k", "second").unwrap());
    log.extend_from_slice(&encode_delete("j").unwrap());
    log.extend_from_slice(&encode_delete("never").unwrap());
    let store = MemStore::open(log).unwrap();
    assert_eq!(store.get("k").unwrap(), Some("second".into()));
    assert_eq!(store.get("j").unwrap(), None);
    assert_eq!(store.get("never").unwrap(), None);
}
