use kvs::kv::KvStore;
use std::sync::Mutex;

#[test]
fn two_writers_disjoint_ranges() {
    let dir = tempfile::TempDir::new().unwrap();
    let store = Mutex::new(KvStore::open(dir.path().to_str().unwrap()).unwrap());
    crossbeam_utils::thread::scope(|s| {
        s.spawn(|_| {
            for i in 0..1000 {
                store.lock().unwrap().set(format!("a{}", i), format!("va{}", i)).unwrap();
            }
        });
        s.spawn(|_| {
            for i in 0..1000 {
                store.lock().unwrap().set(format!("b{}", i), format!("vb{}", i)).unwrap();
            }
        });
    })
    .unwrap();
    let mut guard = store.lock().unwrap();
    for i in 0..1000 {
        assert_eq!(guard.get(format!("a{}", i)).unwrap(), Some(format!("va{}", i)));
        assert_eq!(guard.get(format!("b{}", i)).unwrap(), Some(format!("vb{}", i)));
    }
}

#[test]
fn two_writers_one_key_last_write_wins() {
    let dir = tempfile::TempDir::new().unwrap();
    let store = Mutex::new(KvStore::open(dir.path().to_str().unwrap()).unwrap());
    crossbeam_utils::thread::scope(|s| {
        s.spawn(|_| {
            for _ in 0..10000 {
                store.lock().unwrap().set("k".to_string(), "a".to_string()).unwrap();
            }
        });
        s.spawn(|_| {
            for _ in 0..10000 {
                store.lock().unwrap().set("k".to_string(), "b".to_string()).unwrap();
            }
        });
    })
    .unwrap();
    let pre_close = {
        let guard = store.lock().unwrap();
        let v = guard.get("k".to_string()).unwrap().unwrap();
        assert!(v == "a" || v == "b");
        v
    };
    drop(store);
    let reopened = KvStore::open(dir.path().to_str().unwrap()).unwrap();
    assert_eq!(reopened.get("k".to_string()).unwrap(), Some(pre_close));
}
