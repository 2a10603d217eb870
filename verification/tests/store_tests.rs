use kvs::error::KvsError;
use kvs::store::{log_path, sorted_gen_list, KvStore, Segment};

fn fresh_store() -> KvStore {
    KvStore::open(Vec::new()).unwrap()
}

fn snapshot_segments(store: &KvStore) -> Vec<Segment> {
    let mut files = Vec::new();
    for seg in store.segments() {
        files.push(Segment { gen: seg.gen, data: seg.data.clone() });
    }
    files
}

#[test]
fn set_then_get_round_trip() {
    let mut store = fresh_store();
    store.set("key1".to_string(), "value1".to_string()).unwrap();
    assert_eq!(
        store.get("key1".to_string()).unwrap(),
        Some("value1".to_string())
    );
}

#[test]
fn set_overwrites_previous_value() {
    let mut store = fresh_store();
    store.set("key1".to_string(), "value1".to_string()).unwrap();
    store.set("key1".to_string(), "value2".to_string()).unwrap();
    assert_eq!(
        store.get("key1".to_string()).unwrap(),
        Some("value2".to_string())
    );
}

#[test]
fn get_absent_returns_no_value() {
    let store = fresh_store();
    assert_eq!(store.get("missing".to_string()).unwrap(), None);
}

#[test]
fn empty_key_and_empty_value() {
    let mut store = fresh_store();
    store.set(String::new(), String::new()).unwrap();
    assert_eq!(store.get(String::new()).unwrap(), Some(String::new()));
    store.set("k".to_string(), String::new()).unwrap();
    assert_eq!(store.get("k".to_string()).unwrap(), Some(String::new()));
}

#[test]
fn delete_then_get_returns_no_value() {
    let mut store = fresh_store();
    store.set("key1".to_string(), "value1".to_string()).unwrap();
    store.remove("key1".to_string()).unwrap();
    assert_eq!(store.get("key1".to_string()).unwrap(), None);
}

#[test]
fn delete_absent_fails_and_leaves_store_unchanged() {
    let mut store = fresh_store();
    store.set("kept".to_string(), "v".to_string()).unwrap();
    let err = store.remove("never-set".to_string()).unwrap_err();
    assert_eq!(err, KvsError::KeyNotFound);
    assert_eq!(store.get("kept".to_string()).unwrap(), Some("v".to_string()));
    store.remove("kept".to_string()).unwrap();
    let err = store.remove("kept".to_string()).unwrap_err();
    assert_eq!(err, KvsError::KeyNotFound);
}

#[test]
fn reopen_preserves_contents() {
    let mut store = fresh_store();
    store.set("a".to_string(), "1".to_string()).unwrap();
    store.set("b".to_string(), "2".to_string()).unwrap();
    store.set("a".to_string(), "3".to_string()).unwrap();
    store.remove("b".to_string()).unwrap();
    store.set("c".to_string(), "4".to_string()).unwrap();
    store.set("c".to_string(), "5".to_string()).unwrap();

    let reopened = KvStore::open(snapshot_segments(&store)).unwrap();
    for key in ["a", "b", "c", "d"] {
        assert_eq!(
            reopened.get(key.to_string()).unwrap(),
            store.get(key.to_string()).unwrap()
        );
    }
    assert_eq!(reopened.get("a".to_string()).unwrap(), Some("3".to_string()));
    assert_eq!(reopened.get("b".to_string()).unwrap(), None);
    assert_eq!(reopened.get("c".to_string()).unwrap(), Some("5".to_string()));
}

#[test]
fn reopen_twice_is_stable() {
    let mut store = fresh_store();
    store.set("x".to_string(), "y".to_string()).unwrap();
    let once = KvStore::open(snapshot_segments(&store)).unwrap();
    let twice = KvStore::open(snapshot_segments(&once)).unwrap();
    assert_eq!(twice.get("x".to_string()).unwrap(), Some("y".to_string()));
}

#[test]
fn open_refuses_malformed_segment() {
    let files = vec![Segment { gen: 1, data: vec![9, 9, 9] }];
    let err = KvStore::open(files).unwrap_err();
    assert_eq!(err, KvsError::Serde);
}

#[test]
fn open_refuses_truncated_record() {
    // A Put record cut off inside its value run.
    let data = vec![1u8, 0, 0, 0, 1, b'a', 0, 0, 0, 5, b'v'];
    let err = KvStore::open(vec![Segment { gen: 1, data }]).unwrap_err();
    assert_eq!(err, KvsError::Serde);
}

#[test]
fn compaction_preserves_values_and_drops_old_generations() {
    let mut store = fresh_store();
    let big = "x".repeat(1024);
    // Overwrite a handful of keys until well past the threshold, so the
    // mutation path compacts on its own.
    for round in 0..1200 {
        let key = format!("k{}", round % 8);
        store.set(key, format!("{}-{}", big, round)).unwrap();
    }
    let gens_after: Vec<u64> = store.segments().iter().map(|s| s.gen).collect();
    // Everything before the latest compaction target is gone.
    assert_eq!(gens_after.len(), 2);
    assert!(gens_after[0] < gens_after[1]);
    for k in 0..8 {
        assert!(store.get(format!("k{}", k)).unwrap().is_some());
    }

    // An explicit compaction afterwards keeps every live value and
    // leaves exactly two fresh generations.
    let before: Vec<Option<String>> = (0..8)
        .map(|k| store.get(format!("k{}", k)).unwrap())
        .collect();
    let old_writer = store.segments().last().unwrap().gen;
    store.compact().unwrap();
    let gens: Vec<u64> = store.segments().iter().map(|s| s.gen).collect();
    assert_eq!(gens, vec![old_writer + 1, old_writer + 2]);
    for k in 0..8 {
        assert_eq!(store.get(format!("k{}", k)).unwrap(), before[k]);
    }
}

#[test]
fn compaction_after_removals_reclaims_and_preserves() {
    let mut store = fresh_store();
    for i in 0..100 {
        store.set(format!("key{}", i), format!("value{}", i)).unwrap();
    }
    for i in 0..50 {
        store.remove(format!("key{}", i)).unwrap();
    }
    let data_before: u64 = store.segments().iter().map(|s| s.data.len() as u64).sum();
    store.compact().unwrap();
    let data_after: u64 = store.segments().iter().map(|s| s.data.len() as u64).sum();
    assert!(data_after < data_before);
    for i in 0..50 {
        assert_eq!(store.get(format!("key{}", i)).unwrap(), None);
    }
    for i in 50..100 {
        assert_eq!(
            store.get(format!("key{}", i)).unwrap(),
            Some(format!("value{}", i))
        );
    }
}

#[test]
fn reopen_after_compaction_preserves_contents() {
    let mut store = fresh_store();
    for i in 0..40 {
        store.set(format!("k{}", i), format!("v{}", i)).unwrap();
    }
    for i in 0..20 {
        store.remove(format!("k{}", i)).unwrap();
    }
    store.compact().unwrap();
    let reopened = KvStore::open(snapshot_segments(&store)).unwrap();
    for i in 0..20 {
        assert_eq!(reopened.get(format!("k{}", i)).unwrap(), None);
    }
    for i in 20..40 {
        assert_eq!(
            reopened.get(format!("k{}", i)).unwrap(),
            Some(format!("v{}", i))
        );
    }
}

#[test]
fn distinct_keys_all_retrievable_with_last_written_values() {
    let mut store = fresh_store();
    for i in 0..200 {
        store.set(format!("key{}", i), format!("first{}", i)).unwrap();
    }
    for i in 0..200 {
        store.set(format!("key{}", i), format!("last{}", i)).unwrap();
    }
    for i in 0..200 {
        assert_eq!(
            store.get(format!("key{}", i)).unwrap(),
            Some(format!("last{}", i))
        );
    }
}

#[test]
fn sorted_gen_list_parses_and_sorts() {
    let names = vec![
        "2.log".to_string(),
        "10.log".to_string(),
        "1.log".to_string(),
        "notes.txt".to_string(),
        "x.log".to_string(),
        "3log".to_string(),
        ".log".to_string(),
        "00.log".to_string(),
    ];
    assert_eq!(sorted_gen_list(&names), vec![0, 1, 2, 10]);
}

#[test]
fn sorted_gen_list_ignores_overflowing_numbers() {
    let names = vec![
        "18446744073709551615.log".to_string(),
        "18446744073709551616.log".to_string(),
        "5.log".to_string(),
    ];
    assert_eq!(sorted_gen_list(&names), vec![5, u64::MAX]);
}

#[test]
fn log_path_names_generation_files() {
    assert_eq!(log_path(0), "0.log");
    assert_eq!(log_path(7), "7.log");
    assert_eq!(log_path(1234567890123456789), "1234567890123456789.log");
}
