use kvs::kv::Segment;
use kvs::KvStore;
use kvs::KvsEngine;
use kvs::KvStoreError;

fn fresh() -> KvStore {
    KvStore::open(Vec::new()).expect("open empty store")
}

fn export(store: &KvStore) -> Vec<Segment> {
    let mut out = Vec::new();
    let n = store.segment_count();
    let mut i = 0;
    while i < n {
        let seg = store.segment_at(i);
        out.push(Segment { id: seg.id, data: seg.data.clone() });
        i += 1;
    }
    out
}

#[test]
fn fresh_store_set_get() {
    let mut store = fresh();
    store.set("foo".to_owned(), "bar".to_owned()).expect("set");
    assert_eq!(store.get("foo".to_owned()).expect("get"), Some("bar".to_owned()));
    assert_eq!(store.get("missing".to_owned()).expect("get"), None);
}

#[test]
fn overwrite_keeps_last_value() {
    let mut store = fresh();
    store.set("k".to_owned(), "1".to_owned()).expect("set");
    store.set("k".to_owned(), "2".to_owned()).expect("set");
    assert_eq!(store.get("k".to_owned()).expect("get"), Some("2".to_owned()));
}

#[test]
fn remove_unbinds_and_reports_missing() {
    let mut store = fresh();
    store.set("k".to_owned(), "v".to_owned()).expect("set");
    assert!(store.remove("k".to_owned()).is_ok());
    assert_eq!(store.get("k".to_owned()).expect("get"), None);
    match store.remove("k".to_owned()) {
        Err(KvStoreError::KeyNotFoundError) => {}
        other => panic!("expected KeyNotFoundError, got {:?}", other),
    }
}

#[test]
fn remove_missing_key_on_empty_store() {
    let mut store = fresh();
    match store.remove("nothing".to_owned()) {
        Err(KvStoreError::KeyNotFoundError) => {}
        other => panic!("expected KeyNotFoundError, got {:?}", other),
    }
}

#[test]
fn persistence_across_reopen() {
    let mut store = fresh();
    store.set("a".to_owned(), "1".to_owned()).expect("set");
    let files = export(&store);
    drop(store);
    let store = KvStore::open(files).expect("reopen");
    assert_eq!(store.get("a".to_owned()).expect("get"), Some("1".to_owned()));
}

#[test]
fn reopen_preserves_every_get() {
    let mut store = fresh();
    for i in 0..200 {
        store
            .set(format!("key{}", i), format!("value{}", i))
            .expect("set");
    }
    store.remove("key7".to_owned()).expect("remove");
    let reopened = KvStore::open(export(&store)).expect("reopen");
    for i in 0..200 {
        let expected = if i == 7 { None } else { Some(format!("value{}", i)) };
        assert_eq!(reopened.get(format!("key{}", i)).expect("get"), expected);
        assert_eq!(store.get(format!("key{}", i)).expect("get"), expected);
    }
}

#[test]
fn compaction_reclaims_space_and_keeps_values() {
    let mut store = fresh();
    for i in 0..1000 {
        store.set(format!("k{}", i), format!("v{}", i)).expect("set");
    }
    let mut peak: u128 = store.total_size();
    for i in 0..1000 {
        store.set(format!("k{}", i), format!("w{}", i)).expect("set");
        let size = store.total_size();
        if size > peak {
            peak = size;
        }
    }
    store.compact();
    assert!(store.total_size() < peak);
    for i in 0..1000 {
        assert_eq!(
            store.get(format!("k{}", i)).expect("get"),
            Some(format!("w{}", i))
        );
    }
}

#[test]
fn compaction_is_invisible_to_reads() {
    let mut plain = fresh();
    let mut compacted = fresh();
    for i in 0..300 {
        plain.set(format!("k{}", i), format!("v{}", i)).expect("set");
        compacted
            .set(format!("k{}", i), format!("v{}", i))
            .expect("set");
        if i % 50 == 0 {
            compacted.compact();
        }
    }
    plain.remove("k3".to_owned()).expect("remove");
    compacted.remove("k3".to_owned()).expect("remove");
    compacted.compact();
    for i in 0..300 {
        assert_eq!(
            plain.get(format!("k{}", i)).expect("get"),
            compacted.get(format!("k{}", i)).expect("get")
        );
    }
}

#[test]
fn open_rejects_a_corrupt_segment() {
    let data: Vec<char> = "{\"cmd\":\"Set\",\"key\":\"a\"".chars().collect();
    let segs = vec![Segment { id: 0, data }];
    match KvStore::open(segs) {
        Err(KvStoreError::SerdeError { .. }) => {}
        Err(other) => panic!("expected SerdeError, got {:?}", other),
        Ok(_) => panic!("expected SerdeError, store opened"),
    }
}

#[test]
fn open_rejects_colliding_ids() {
    let segs = vec![
        Segment { id: 3, data: Vec::new() },
        Segment { id: 3, data: Vec::new() },
    ];
    match KvStore::open(segs) {
        Err(KvStoreError::IoError { .. }) => {}
        Err(other) => panic!("expected IoError, got {:?}", other),
        Ok(_) => panic!("expected IoError, store opened"),
    }
}

#[test]
fn open_replays_records_in_id_order() {
    let older: Vec<char> = "{\"cmd\":\"Set\",\"key\":\"a\",\"value\":\"old\"}"
        .chars()
        .collect();
    let newer: Vec<char> = "{\"cmd\":\"Set\",\"key\":\"a\",\"value\":\"new\"}"
        .chars()
        .collect();
    // Handed newest-first, the store still replays ascending ids.
    let segs = vec![
        Segment { id: 8, data: newer },
        Segment { id: 2, data: older },
    ];
    let store = KvStore::open(segs).expect("open");
    assert_eq!(store.get("a".to_owned()).expect("get"), Some("new".to_owned()));
}

#[test]
fn open_applies_removals_during_replay() {
    let data: Vec<char> =
        "{\"cmd\":\"Set\",\"key\":\"a\",\"value\":\"1\"}{\"cmd\":\"Rm\",\"key\":\"a\",\"value\":\"\"}"
            .chars()
            .collect();
    let store = KvStore::open(vec![Segment { id: 0, data }]).expect("open");
    assert_eq!(store.get("a".to_owned()).expect("get"), None);
}

#[test]
fn keys_with_special_characters_round_trip() {
    let mut store = fresh();
    let key = "a \"quoted\" \\ key".to_owned();
    let value = "line\\break\"v\"".to_owned();
    store.set(key.clone(), value.clone()).expect("set");
    assert_eq!(store.get(key.clone()).expect("get"), Some(value.clone()));
    let reopened = KvStore::open(export(&store)).expect("reopen");
    assert_eq!(reopened.get(key).expect("get"), Some(value));
}

#[test]
fn open_rejects_exhausted_id_space() {
    let segs = vec![Segment { id: 65535, data: Vec::new() }];
    match KvStore::open(segs) {
        Err(KvStoreError::IoError { .. }) => {}
        Err(other) => panic!("expected IoError, got {:?}", other),
        Ok(_) => panic!("expected IoError, store opened"),
    }
}

#[test]
fn highest_usable_id_still_opens() {
    let segs = vec![Segment { id: 65534, data: Vec::new() }];
    let mut store = KvStore::open(segs).expect("open");
    store.set("k".to_owned(), "v".to_owned()).expect("set");
    assert_eq!(store.get("k".to_owned()).expect("get"), Some("v".to_owned()));
}

#[test]
fn set_and_remove_append_one_record_each() {
    let mut store = fresh();
    store.set("a".to_owned(), "1".to_owned()).expect("set");
    assert_eq!(store.segment_count(), 1);
    let before: String = store.segment_at(0).data.iter().collect();
    store.set("b".to_owned(), "2".to_owned()).expect("set");
    assert_eq!(store.segment_count(), 1);
    let after: String = store.segment_at(0).data.iter().collect();
    assert!(after.starts_with(&before));
    assert_eq!(
        &after[before.len()..],
        "{\"cmd\":\"Set\",\"key\":\"b\",\"value\":\"2\"}"
    );
    store.remove("a".to_owned()).expect("remove");
    let removed: String = store.segment_at(0).data.iter().collect();
    assert!(removed.starts_with(&after));
    assert_eq!(
        &removed[after.len()..],
        "{\"cmd\":\"Rm\",\"key\":\"a\",\"value\":\"\"}"
    );
}

#[test]
fn compaction_publishes_the_reserved_id() {
    let mut store = fresh();
    for i in 0..100 {
        store.set(format!("k{}", i), format!("v{}", i)).expect("set");
    }
    let pre_active = store.segment_at(store.segment_count() - 1).id;
    store.compact();
    assert_eq!(store.segment_count(), 2);
    let merged = store.segment_at(0).id;
    let active = store.segment_at(1).id;
    assert_eq!(merged + 1, active);
    assert_eq!(active, pre_active + 2);
    for i in 0..100 {
        assert_eq!(
            store.get(format!("k{}", i)).expect("get"),
            Some(format!("v{}", i))
        );
    }
}
