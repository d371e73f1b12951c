use lsm_store::codec::encode_frame;
use lsm_store::memtable::MemTable;
use lsm_store::types::{LogEntry, StoreError};
use lsm_store::wal::{read_log, recover_log, replay_into, LogEnd};
use std::sync::Arc;

fn encode_log_entry(e: &LogEntry<String, String>) -> Vec<u8> {
    match e {
        LogEntry::Put(k, v) => bincode::serialize(&(0u32, k, v.as_str())).unwrap(),
        LogEntry::Delete(k) => bincode::serialize(&(1u32, k)).unwrap(),
    }
}

fn decode_log_entry(bytes: &[u8]) -> LogEntry<String, String> {
    let tag: u32 = bincode::deserialize(&bytes[..4]).unwrap();
    if tag == 0 {
        let (k, v): (String, String) = bincode::deserialize(&bytes[4..]).unwrap();
        LogEntry::Put(k, Arc::new(v))
    } else {
        LogEntry::Delete(bincode::deserialize(&bytes[4..]).unwrap())
    }
}

fn log_of(entries: &[LogEntry<String, String>]) -> Vec<u8> {
    let mut log = Vec::new();
    for e in entries {
        log.extend_from_slice(&encode_frame(&encode_log_entry(e)));
    }
    log
}

#[test]
fn recovery_and_iter() {
    let log = log_of(&[
        LogEntry::Put("k1".to_string(), Arc::new("v1".to_string())),
        LogEntry::Delete("k2".to_string()),
        LogEntry::Put("k3".to_string(), Arc::new("v3".to_string())),
    ]);

    let (records, end) = read_log(&log);
    assert_eq!(end, LogEnd::Clean, "Expected no more entries");
    assert!(records.len() >= 1, "Expected entry1");
    assert_eq!(
        decode_log_entry(&records[0]),
        LogEntry::Put("k1".to_string(), Arc::new("v1".to_string()))
    );
    assert!(records.len() >= 2, "Expected entry2");
    assert_eq!(decode_log_entry(&records[1]), LogEntry::Delete("k2".to_string()));
    assert!(records.len() >= 3, "Expected entry3");
    assert_eq!(
        decode_log_entry(&records[2]),
        LogEntry::Put("k3".to_string(), Arc::new("v3".to_string()))
    );
    assert_eq!(records.len(), 3, "Expected no more entries");
}

#[test]
fn corrupt_entry() {
    let mut log = log_of(&[LogEntry::Put("k1".to_string(), Arc::new("v1".to_string()))]);
    log[0..4].copy_from_slice(&[0x00, 0x00, 0x00, 0x00]);
    let (records, end) = read_log(&log);
    assert!(records.is_empty(), "Expected an entry, potentially corrupted");
    assert_eq!(end, LogEnd::Corrupt, "Expected an error due to checksum mismatch");
    assert_eq!(recover_log(&log), Err(StoreError::CorruptRecord));
}

#[test]
fn empty_log_has_no_records() {
    assert_eq!(read_log(&[]), (vec![], LogEnd::Clean));
    assert_eq!(recover_log(&[]), Ok(vec![]));
}

#[test]
fn torn_tail_is_reported_and_dropped_by_recovery() {
    let whole = log_of(&[
        LogEntry::Put("a".to_string(), Arc::new("1".to_string())),
        LogEntry::Put("b".to_string(), Arc::new("2".to_string())),
    ]);
    let last = encode_frame(&encode_log_entry(&LogEntry::Delete("a".to_string())));
    for cut in 0..last.len() {
        let mut log = whole.clone();
        log.extend_from_slice(&last[..cut]);
        let (records, end) = read_log(&log);
        assert_eq!(records.len(), 2, "cut at {}", cut);
        assert_eq!(end, if cut == 0 { LogEnd::Clean } else { LogEnd::Torn }, "cut at {}", cut);
        assert_eq!(recover_log(&log).unwrap(), records);
        assert_eq!(
            decode_log_entry(&records[1]),
            LogEntry::Put("b".to_string(), Arc::new("2".to_string()))
        );
    }
    let mut log = whole.clone();
    log.extend_from_slice(&last);
    let (records, end) = read_log(&log);
    assert_eq!((records.len(), end), (3, LogEnd::Clean));
}

#[test]
fn corruption_before_more_records_is_fatal() {
    let mut log = log_of(&[
        LogEntry::Put("a".to_string(), Arc::new("1".to_string())),
        LogEntry::Put("b".to_string(), Arc::new("2".to_string())),
    ]);
    log[12] ^= 0x40;
    assert_eq!(read_log(&log), (vec![], LogEnd::Corrupt));
    assert_eq!(recover_log(&log), Err(StoreError::CorruptRecord));
}

#[test]
fn short_header_or_payload_is_torn() {
    let whole = log_of(&[LogEntry::Put("a".to_string(), Arc::new("1".to_string()))]);
    for extra in [vec![1u8], vec![1u8; 11], {
        let mut header = vec![0u8; 4];
        header.extend_from_slice(&100u64.to_le_bytes());
        header.extend_from_slice(&[7u8; 5]);
        header
    }] {
        let mut log = whole.clone();
        log.extend_from_slice(&extra);
        let (records, end) = read_log(&log);
        assert_eq!(records.len(), 1);
        assert_eq!(end, LogEnd::Torn);
    }
}

#[test]
fn corrupt_record_after_good_ones_keeps_them() {
    let mut log = log_of(&[
        LogEntry::Put("a".to_string(), Arc::new("1".to_string())),
        LogEntry::Put("b".to_string(), Arc::new("2".to_string())),
    ]);
    let n = log.len();
    log[n - 1] ^= 0x01;
    let (records, end) = read_log(&log);
    assert_eq!(records.len(), 1);
    assert_eq!(end, LogEnd::Corrupt);
}

#[test]
fn replay_applies_records_in_order() {
    let records = vec![
        LogEntry::Put("a".to_string(), Arc::new("1".to_string())),
        LogEntry::Put("b".to_string(), Arc::new("2".to_string())),
        LogEntry::Delete("a".to_string()),
        LogEntry::Put("b".to_string(), Arc::new("3".to_string())),
    ];
    let mut memtable: MemTable<String, String> = MemTable::new();
    replay_into(&mut memtable, &records);
    assert_eq!(memtable.get(&"a".to_string()), None);
    assert_eq!(memtable.get(&"b".to_string()), Some(Arc::new("3".to_string())));
    assert_eq!(memtable.len(), 1);
    assert_eq!(memtable.entry_count(), 2);
}

#[test]
fn replaying_twice_changes_nothing() {
    let records = vec![
        LogEntry::Put("a".to_string(), Arc::new("1".to_string())),
        LogEntry::Delete("b".to_string()),
        LogEntry::Put("c".to_string(), Arc::new("2".to_string())),
        LogEntry::Put("a".to_string(), Arc::new("4".to_string())),
    ];
    let mut once: MemTable<String, String> = MemTable::new();
    replay_into(&mut once, &records);
    let mut twice: MemTable<String, String> = MemTable::new();
    replay_into(&mut twice, &records);
    replay_into(&mut twice, &records);
    let a: Vec<(String, Option<String>, bool)> = once
        .iter()
        .into_iter()
        .map(|(k, e)| (k.clone(), e.value.as_ref().map(|v| v.to_string()), e.is_tombstone))
        .collect();
    let b: Vec<(String, Option<String>, bool)> = twice
        .iter()
        .into_iter()
        .map(|(k, e)| (k.clone(), e.value.as_ref().map(|v| v.to_string()), e.is_tombstone))
        .collect();
    assert_eq!(a, b);
    assert_eq!(a.len(), 3);
}
