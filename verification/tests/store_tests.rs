use kvs::store::KvStore;

fn fresh() -> KvStore {
    KvStore::open(Vec::new()).unwrap()
}

#[test]
fn open_empty_get_none() {
    let store = fresh();
    let r = store.get("a".to_string()).unwrap();
    assert!(r.is_none());
}

#[test]
fn set_then_get() {
    let mut store = fresh();
    store.set("key1".to_string(), "value1".to_string()).unwrap();
    let r = store.get("key1".to_string()).unwrap();
    assert_eq!(r, Some("value1".to_string()));
}

#[test]
fn last_writer_wins() {
    let mut store = fresh();
    store.set("k".to_string(), "v1".to_string()).unwrap();
    store.set("k".to_string(), "v2".to_string()).unwrap();
    assert_eq!(store.get("k".to_string()).unwrap(), Some("v2".to_string()));
}

#[test]
fn remove_hides() {
    let mut store = fresh();
    store.set("k".to_string(), "v".to_string()).unwrap();
    store.remove("k".to_string()).unwrap();
    assert!(store.get("k".to_string()).unwrap().is_none());
}

#[test]
fn remove_absent_key_fails() {
    let mut store = fresh();
    let r = store.remove("k".to_string());
    assert!(matches!(r, Err(kvs::KvsError::KeyNotFound)));
}

#[test]
fn overwrite_survives_reopen() {
    let mut store = fresh();
    store.set("k".to_string(), "v1".to_string()).unwrap();
    store.set("k".to_string(), "v2".to_string()).unwrap();
    let on_disk = store.segments();
    drop(store);
    let reopened = KvStore::open(on_disk).unwrap();
    assert_eq!(reopened.get("k".to_string()).unwrap(), Some("v2".to_string()));
}

#[test]
fn remove_survives_reopen() {
    let mut store = fresh();
    store.set("k".to_string(), "v".to_string()).unwrap();
    store.remove("k".to_string()).unwrap();
    let on_disk = store.segments();
    drop(store);
    let reopened = KvStore::open(on_disk).unwrap();
    assert!(reopened.get("k".to_string()).unwrap().is_none());
}

#[test]
fn several_keys_survive_reopen() {
    let mut store = fresh();
    for i in 0..20 {
        store.set(format!("key{}", i), format!("value{}", i)).unwrap();
    }
    store.remove("key7".to_string()).unwrap();
    let on_disk = store.segments();
    let reopened = KvStore::open(on_disk).unwrap();
    for i in 0..20 {
        let want = if i == 7 { None } else { Some(format!("value{}", i)) };
        assert_eq!(reopened.get(format!("key{}", i)).unwrap(), want);
    }
}

#[test]
fn keys_with_special_characters() {
    let mut store = fresh();
    let key = "a;b\\c\nd".to_string();
    let value = ";;\\\\\u{1F600};".to_string();
    store.set(key.clone(), value.clone()).unwrap();
    let on_disk = store.segments();
    let reopened = KvStore::open(on_disk).unwrap();
    assert_eq!(reopened.get(key).unwrap(), Some(value));
}

#[test]
fn open_rejects_corrupt_segment() {
    let r = KvStore::open(vec![(1, "not a record".to_string())]);
    assert!(matches!(r, Err(kvs::KvsError::Serde(_))));
}

#[test]
fn open_accepts_written_segments_only_once_truncated() {
    let mut store = fresh();
    store.set("k".to_string(), "v".to_string()).unwrap();
    let mut on_disk = store.segments();
    let (gen, text) = on_disk.pop().unwrap();
    let mut cut = text.clone();
    cut.pop();
    on_disk.push((gen, cut));
    let r = KvStore::open(on_disk);
    assert!(matches!(r, Err(kvs::KvsError::Serde(_))));
}

#[test]
fn explicit_compaction_preserves_state() {
    let mut store = fresh();
    for i in 0..30 {
        store.set(format!("k{}", i), format!("v{}", i)).unwrap();
    }
    for i in 0..30 {
        store.set(format!("k{}", i), format!("w{}", i)).unwrap();
    }
    store.remove("k3".to_string()).unwrap();
    let gen_before = store.current_gen();
    store.compact().unwrap();
    assert_eq!(store.current_gen(), gen_before + 2);
    assert_eq!(store.uncompacted(), 0);
    for i in 0..30 {
        let want = if i == 3 { None } else { Some(format!("w{}", i)) };
        assert_eq!(store.get(format!("k{}", i)).unwrap(), want);
    }
}

#[test]
fn compaction_bounds_disk_use() {
    let mut store = fresh();
    let value = "0123456789".to_string();
    // Repeatedly overwrite the same 50 keys until well past the
    // compaction threshold of written bytes.
    for round in 0..1300 {
        for i in 0..50 {
            store.set(format!("key{}", i), value.clone()).unwrap();
        }
        if round % 100 == 0 {
            assert!(store.uncompacted() <= 1048576);
        }
    }
    let gen_after = store.current_gen();
    assert!(gen_after > 1, "compaction never ran");
    // Live data is 50 short records; after the workload the log may hold
    // at most the live data plus the compaction threshold.
    let disk: usize = store.segments().iter().map(|(_g, t)| t.len()).sum();
    assert!(disk <= 1048576 + 50 * 64);
    // Far less than the ~1.3 million records' worth that was written.
    assert!(disk < 2 * 1048576);
    for i in 0..50 {
        assert_eq!(store.get(format!("key{}", i)).unwrap(), Some(value.clone()));
    }
    store.compact().unwrap();
    let disk_compacted: usize = store.segments().iter().map(|(_g, t)| t.len()).sum();
    assert!(disk_compacted <= 50 * 64);
}

#[test]
fn reopen_continues_generation_numbering() {
    let mut store = fresh();
    assert_eq!(store.current_gen(), 1);
    store.set("k".to_string(), "v".to_string()).unwrap();
    let on_disk = store.segments();
    let reopened = KvStore::open(on_disk).unwrap();
    assert_eq!(reopened.current_gen(), 2);
}

#[test]
fn error_messages() {
    assert_eq!(kvs::KvsError::KeyNotFound.message(), "Key not found");
    assert_eq!(
        kvs::KvsError::UnexpectedCommandType.message(),
        "Unexpected command type"
    );
    assert_eq!(kvs::KvsError::StringError("boom".to_string()).message(), "boom");
    assert_eq!(kvs::KvsError::Io("disk gone".to_string()).message(), "disk gone");
    assert_eq!(kvs::KvsError::Utf8("bad byte".to_string()).message(), "bad byte");
    assert_eq!(kvs::KvsError::Serde("bad frame".to_string()).message(), "bad frame");
}
