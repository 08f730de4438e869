use kvs::error::Error;
use kvs::kv::{KvStore, KvStoreBuilder};

fn open(dir: &tempfile::TempDir) -> KvStore {
    KvStore::open(dir.path().to_str().unwrap()).unwrap()
}

#[test]
fn set_then_get() {
    let dir = tempfile::TempDir::new().unwrap();
    let mut store = open(&dir);
    assert_eq!(store.key_count(), 0);
    store.set("k".to_string(), "v".to_string()).unwrap();
    assert_eq!(store.key_count(), 1);
    assert_eq!(store.get("k".to_string()).unwrap(), Some("v".to_string()));
    assert_eq!(store.get("m".to_string()).unwrap(), None);
}

#[test]
fn overwrite_and_reopen() {
    let dir = tempfile::TempDir::new().unwrap();
    {
        let mut store = open(&dir);
        store.set("k".to_string(), "v1".to_string()).unwrap();
        store.set("k".to_string(), "v2".to_string()).unwrap();
        assert_eq!(store.get("k".to_string()).unwrap(), Some("v2".to_string()));
        assert!(store.is_durable());
    }
    let store = open(&dir);
    assert_eq!(store.get("k".to_string()).unwrap(), Some("v2".to_string()));
}

#[test]
fn remove_then_missing() {
    let dir = tempfile::TempDir::new().unwrap();
    let mut store = open(&dir);
    store.set("k".to_string(), "v".to_string()).unwrap();
    assert!(store.remove("k".to_string()).is_ok());
    match store.remove("k".to_string()) {
        Err(Error::KeyNotFound(k)) => assert_eq!(k, "k".to_string()),
        other => panic!("expected KeyNotFound, got {:?}", other),
    }
    assert_eq!(store.get("k".to_string()).unwrap(), None);
}

#[test]
fn remove_missing_key_is_key_not_found() {
    let dir = tempfile::TempDir::new().unwrap();
    let mut store = open(&dir);
    match store.remove("absent".to_string()) {
        Err(Error::KeyNotFound(_)) => (),
        other => panic!("expected KeyNotFound, got {:?}", other),
    }
}

#[test]
fn removal_survives_reopen() {
    let dir = tempfile::TempDir::new().unwrap();
    {
        let mut store = open(&dir);
        store.set("a".to_string(), "1".to_string()).unwrap();
        store.set("b".to_string(), "2".to_string()).unwrap();
        store.remove("a".to_string()).unwrap();
    }
    let store = open(&dir);
    assert_eq!(store.get("a".to_string()).unwrap(), None);
    assert_eq!(store.get("b".to_string()).unwrap(), Some("2".to_string()));
}

#[test]
fn compaction_runs_and_preserves_state() {
    let dir = tempfile::TempDir::new().unwrap();
    let mut store = KvStoreBuilder::new(dir.path().to_str().unwrap())
        .compact_threshold(1024)
        .build()
        .unwrap();
    let big = "x".repeat(256);
    for i in 0..64 {
        store.set(format!("key{}", i), big.clone()).unwrap();
    }
    for i in 0..64 {
        store.set(format!("key{}", i), "small".to_string()).unwrap();
    }
    let ids = store.segment_ids();
    assert!(ids.len() < 64, "compaction should have collapsed segments: {:?}", ids);
    assert!(ids[0] > 1, "compaction should have advanced the lowest live id");
    for i in 0..64 {
        assert_eq!(
            store.get(format!("key{}", i)).unwrap(),
            Some("small".to_string()),
            "key{} lost",
            i
        );
    }
    assert!(store.is_durable());
}

#[test]
fn explicit_compaction_preserves_contents_and_reopens() {
    let dir = tempfile::TempDir::new().unwrap();
    {
        let mut store = open(&dir);
        for i in 0..10 {
            store.set(format!("k{}", i), format!("v{}", i)).unwrap();
        }
        store.remove("k3".to_string()).unwrap();
        store.compact().unwrap();
        assert_eq!(store.segment_ids().len(), 2);
        for i in 0..10 {
            let want = if i == 3 { None } else { Some(format!("v{}", i)) };
            assert_eq!(store.get(format!("k{}", i)).unwrap(), want);
        }
    }
    let store = open(&dir);
    for i in 0..10 {
        let want = if i == 3 { None } else { Some(format!("v{}", i)) };
        assert_eq!(store.get(format!("k{}", i)).unwrap(), want);
    }
}

#[test]
fn compaction_of_empty_index() {
    let dir = tempfile::TempDir::new().unwrap();
    let mut store = open(&dir);
    store.set("k".to_string(), "v".to_string()).unwrap();
    store.remove("k".to_string()).unwrap();
    store.compact().unwrap();
    assert_eq!(store.get("k".to_string()).unwrap(), None);
    assert_eq!(store.segment_ids().len(), 1);
}

#[test]
fn meta_file_guards_the_directory() {
    let dir = tempfile::TempDir::new().unwrap();
    fs_err::write(dir.path().join("meta"), b"sled").unwrap();
    match KvStore::open(dir.path().to_str().unwrap()) {
        Err(Error::InvalidMeta(_)) => (),
        other => panic!("expected InvalidMeta, got {:?}", other.map(|_| ())),
    }
}

#[test]
fn meta_directory_is_rejected() {
    let dir = tempfile::TempDir::new().unwrap();
    fs_err::create_dir(dir.path().join("meta")).unwrap();
    match KvStore::open(dir.path().to_str().unwrap()) {
        Err(Error::InvalidMeta(_)) => (),
        other => panic!("expected InvalidMeta, got {:?}", other.map(|_| ())),
    }
}

#[test]
fn empty_value_and_unicode_round_trip() {
    let dir = tempfile::TempDir::new().unwrap();
    {
        let mut store = open(&dir);
        store.set("empty".to_string(), "".to_string()).unwrap();
        store.set("uni".to_string(), "καλημέρα ✨".to_string()).unwrap();
    }
    let store = open(&dir);
    assert_eq!(store.get("empty".to_string()).unwrap(), Some("".to_string()));
    assert_eq!(store.get("uni".to_string()).unwrap(), Some("καλημέρα ✨".to_string()));
}

#[test]
fn many_keys_reopen_identical() {
    let dir = tempfile::TempDir::new().unwrap();
    {
        let mut store = open(&dir);
        for i in 0..200 {
            store.set(format!("k{}", i), format!("v{}", i)).unwrap();
        }
        for i in (0..200).step_by(3) {
            store.remove(format!("k{}", i)).unwrap();
        }
    }
    let store = open(&dir);
    for i in 0..200 {
        let want = if i % 3 == 0 { None } else { Some(format!("v{}", i)) };
        assert_eq!(store.get(format!("k{}", i)).unwrap(), want, "key k{}", i);
    }
}

#[test]
fn compaction_leaves_no_wasted_bytes() {
    let dir = tempfile::TempDir::new().unwrap();
    let mut store = open(&dir);
    for i in 0..8 {
        store.set(format!("k{}", i), "old-value".to_string()).unwrap();
        store.set(format!("k{}", i), format!("v{}", i)).unwrap();
    }
    store.compact().unwrap();
    assert_eq!(store.garbage_bytes(), 0);
    // After compaction the live segments hold exactly the bytes of the
    // eight live records: tag + two 8-byte lengths + key + value each.
    let expected: u64 = (0..8).map(|i| 17 + format!("k{}", i).len() as u64 + format!("v{}", i).len() as u64).sum();
    let mut on_disk: u64 = 0;
    for id in store.segment_ids() {
        let name = format!("{}.data", id);
        on_disk += fs_err::metadata(dir.path().join(name)).unwrap().len();
    }
    assert_eq!(on_disk, expected);
    for i in 0..8 {
        assert_eq!(store.get(format!("k{}", i)).unwrap(), Some(format!("v{}", i)));
    }
}

#[test]
fn error_kind_names() {
    let dir = tempfile::TempDir::new().unwrap();
    let mut store = open(&dir);
    let err = store.remove("nope".to_string()).unwrap_err();
    assert_eq!(err.kind(), "key not found");
}

#[test]
fn garbage_counter_follows_superseded_bytes() {
    let dir = tempfile::TempDir::new().unwrap();
    let mut store = open(&dir);
    assert_eq!(store.garbage_bytes(), 0);
    store.set("k".to_string(), "v1".to_string()).unwrap();
    assert_eq!(store.garbage_bytes(), 0);
    store.set("k".to_string(), "v2".to_string()).unwrap();
    // The first record is now superseded: tag + two lengths + "k" + "v1".
    assert_eq!(store.garbage_bytes(), 17 + 1 + 2);
    store.remove("k".to_string()).unwrap();
    // Plus the superseded second record and the tombstone (tag + length + "k").
    assert_eq!(store.garbage_bytes(), (17 + 1 + 2) + (17 + 1 + 2) + (9 + 1));
}

#[test]
fn compaction_reports_segment_ids() {
    let dir = tempfile::TempDir::new().unwrap();
    let mut store = open(&dir);
    store.set("k".to_string(), "v".to_string()).unwrap();
    assert_eq!(store.segment_ids(), vec![1]);
    store.compact().unwrap();
    // The merge segment and the fresh active one.
    assert_eq!(store.segment_ids(), vec![2, 3]);
    store.remove("k".to_string()).unwrap();
    store.compact().unwrap();
    // An empty snapshot leaves only the fresh active segment.
    assert_eq!(store.segment_ids(), vec![5]);
}

#[test]
fn garbage_is_rebuilt_on_reopen() {
    let dir = tempfile::TempDir::new().unwrap();
    let before = {
        let mut store = open(&dir);
        store.set("k".to_string(), "v1".to_string()).unwrap();
        store.set("k".to_string(), "v2".to_string()).unwrap();
        store.remove("k".to_string()).unwrap();
        store.garbage_bytes()
    };
    let store = open(&dir);
    assert_eq!(store.garbage_bytes(), before);
}
