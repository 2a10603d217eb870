use kvs::error::KvsError;
use kvs::wal::{decode_entry_at, encode_entry, LogEntry, WalLog};

#[test]
fn encode_put_record_exact_bytes() {
    let e = LogEntry::Put { key: "a".to_string(), value: "1".to_string() };
    assert_eq!(
        encode_entry(&e),
        vec![1u8, 0, 0, 0, 1, b'a', 0, 0, 0, 1, b'1']
    );
}

#[test]
fn encode_rm_record_exact_bytes() {
    let e = LogEntry::Rm { key: "ab".to_string() };
    assert_eq!(encode_entry(&e), vec![2u8, 0, 0, 0, 2, b'a', b'b']);
}

#[test]
fn decode_reads_back_what_encode_wrote() {
    let e = LogEntry::Put { key: "key".to_string(), value: "value".to_string() };
    let bytes = encode_entry(&e);
    let (decoded, end) = decode_entry_at(&bytes, 0).unwrap();
    assert_eq!(end, bytes.len());
    assert_eq!(decoded, e);
}

#[test]
fn decode_rejects_bad_tag_and_truncation() {
    assert!(decode_entry_at(&[], 0).is_none());
    assert!(decode_entry_at(&[7u8, 0, 0, 0, 1, b'a'], 0).is_none());
    assert!(decode_entry_at(&[1u8, 0, 0, 0, 9, b'a'], 0).is_none());
    assert!(decode_entry_at(&[2u8, 0, 0], 0).is_none());
}

#[test]
fn decode_rejects_invalid_utf8_key() {
    assert!(decode_entry_at(&[2u8, 0, 0, 0, 1, 0xFF], 0).is_none());
}

#[test]
fn new_wal_defaults_its_file_name() {
    let log = WalLog::new(String::new());
    assert_eq!(log.file_name().as_str(), "log.txt");
    let named = WalLog::new("segments.bin".to_string());
    assert_eq!(named.file_name().as_str(), "segments.bin");
}

#[test]
fn set_file_name_renames() {
    let mut log = WalLog::new("a.txt".to_string());
    log.set_file_name("b.txt".to_string());
    assert_eq!(log.file_name().as_str(), "b.txt");
}

#[test]
fn write_returns_offsets_and_read_all_replays() {
    let mut log = WalLog::new(String::new());
    let e1 = LogEntry::Put { key: "a".to_string(), value: "1".to_string() };
    let e2 = LogEntry::Rm { key: "a".to_string() };
    let e3 = LogEntry::Put { key: "b".to_string(), value: "22".to_string() };
    let p1 = log.write(&e1).unwrap();
    let p2 = log.write(&e2).unwrap();
    let p3 = log.write(&e3).unwrap();
    assert_eq!(p1, 0);
    assert_eq!(p2, 11);
    assert_eq!(p3, 11 + 6);

    let all = log.read_all().unwrap();
    assert_eq!(all.len(), 3);
    assert_eq!(all[0].idx, p1);
    assert_eq!(all[1].idx, p2);
    assert_eq!(all[2].idx, p3);
    assert!(matches!(
        &all[0].entry,
        LogEntry::Put { key, value } if key == "a" && value == "1"
    ));
    assert!(matches!(&all[1].entry, LogEntry::Rm { key } if key == "a"));
    assert!(matches!(
        &all[2].entry,
        LogEntry::Put { key, value } if key == "b" && value == "22"
    ));
}

#[test]
fn read_line_at_returns_put_values_only() {
    let mut log = WalLog::new(String::new());
    let p1 = log
        .write(&LogEntry::Put { key: "a".to_string(), value: "1".to_string() })
        .unwrap();
    let p2 = log.write(&LogEntry::Rm { key: "a".to_string() }).unwrap();
    assert_eq!(log.read_line_at(p1).unwrap(), "1");
    assert_eq!(log.read_line_at(p2).unwrap_err(), KvsError::KeyNotFound);
    assert_eq!(log.read_line_at(3).unwrap_err(), KvsError::Serde);
    assert_eq!(log.read_line_at(10_000).unwrap_err(), KvsError::Serde);
}

#[test]
fn compacting_keeps_the_log() {
    let mut log = WalLog::new(String::new());
    log.write(&LogEntry::Put { key: "k".to_string(), value: "v".to_string() })
        .unwrap();
    let before = log.data().clone();
    log.compacting();
    assert_eq!(log.data(), &before);
}
