use wasm_storage::store_hashmap::{TimestampValue, TsValueStore};

#[test]
fn store_hashmap_get() {
    let mut store = TsValueStore::new();
    store
        .put(b"a".to_vec(), TimestampValue::new(b"10".to_vec()))
        .unwrap();
    store
        .put(b"b".to_vec(), TimestampValue::new(b"20".to_vec()))
        .unwrap();

    assert_eq!(store.get(&b"a".to_vec()), Some(b"10".to_vec()));
    assert_eq!(store.get(&b"ccc".to_vec()), None);
}

#[test]
fn new_store_is_empty() {
    let store = TsValueStore::new();
    assert_eq!(store.get(&b"a".to_vec()), None);
    assert_eq!(store.get(&Vec::new()), None);
}

#[test]
fn put_of_newer_value_replaces_older() {
    let mut store = TsValueStore::new();
    store.put(b"k".to_vec(), TimestampValue::with_timestamp(b"old".to_vec(), 5)).unwrap();
    store.put(b"k".to_vec(), TimestampValue::with_timestamp(b"new".to_vec(), 6)).unwrap();
    assert_eq!(store.get(&b"k".to_vec()), Some(b"new".to_vec()));
}

#[test]
fn put_of_older_value_is_ignored() {
    let mut store = TsValueStore::new();
    store.put(b"k".to_vec(), TimestampValue::with_timestamp(b"new".to_vec(), 9)).unwrap();
    store.put(b"k".to_vec(), TimestampValue::with_timestamp(b"old".to_vec(), 3)).unwrap();
    assert_eq!(store.get(&b"k".to_vec()), Some(b"new".to_vec()));
}

#[test]
fn put_with_equal_timestamp_keeps_first() {
    let mut store = TsValueStore::new();
    store.put(b"k".to_vec(), TimestampValue::with_timestamp(b"first".to_vec(), 7)).unwrap();
    store.put(b"k".to_vec(), TimestampValue::with_timestamp(b"second".to_vec(), 7)).unwrap();
    assert_eq!(store.get(&b"k".to_vec()), Some(b"first".to_vec()));
}

#[test]
fn put_leaves_other_keys_alone() {
    let mut store = TsValueStore::new();
    store.put(b"a".to_vec(), TimestampValue::with_timestamp(b"1".to_vec(), 1)).unwrap();
    store.put(b"b".to_vec(), TimestampValue::with_timestamp(b"2".to_vec(), 100)).unwrap();
    store.put(b"c".to_vec(), TimestampValue::with_timestamp(b"3".to_vec(), -4)).unwrap();
    assert_eq!(store.get(&b"a".to_vec()), Some(b"1".to_vec()));
    assert_eq!(store.get(&b"b".to_vec()), Some(b"2".to_vec()));
    assert_eq!(store.get(&b"c".to_vec()), Some(b"3".to_vec()));
    assert_eq!(store.get(&b"ab".to_vec()), None);
}

#[test]
fn put_twice_is_put_once() {
    let mut once = TsValueStore::new();
    let mut twice = TsValueStore::new();
    once.put(b"k".to_vec(), TimestampValue::with_timestamp(b"v".to_vec(), 3)).unwrap();
    twice.put(b"k".to_vec(), TimestampValue::with_timestamp(b"v".to_vec(), 3)).unwrap();
    twice.put(b"k".to_vec(), TimestampValue::with_timestamp(b"v".to_vec(), 3)).unwrap();
    assert_eq!(once.get(&b"k".to_vec()), twice.get(&b"k".to_vec()));
}

#[test]
fn puts_in_either_order_converge() {
    let writes = [
        (b"x".to_vec(), b"one".to_vec(), 10i64),
        (b"x".to_vec(), b"two".to_vec(), 20i64),
        (b"y".to_vec(), b"three".to_vec(), 15i64),
    ];
    let mut forward = TsValueStore::new();
    for (k, v, t) in writes.iter() {
        forward.put(k.clone(), TimestampValue::with_timestamp(v.clone(), *t)).unwrap();
    }
    let mut backward = TsValueStore::new();
    for (k, v, t) in writes.iter().rev() {
        backward.put(k.clone(), TimestampValue::with_timestamp(v.clone(), *t)).unwrap();
    }
    for key in [b"x".to_vec(), b"y".to_vec(), b"z".to_vec()] {
        assert_eq!(forward.get(&key), backward.get(&key));
    }
    assert_eq!(forward.get(&b"x".to_vec()), Some(b"two".to_vec()));
    assert_eq!(forward.get(&b"y".to_vec()), Some(b"three".to_vec()));
}

#[test]
fn merge_takes_newer_value() {
    let mut a = TimestampValue::with_timestamp(b"a".to_vec(), 1);
    let b = TimestampValue::with_timestamp(b"b".to_vec(), 2);
    a.merge(&b);
    let mut store = TsValueStore::new();
    store.put(b"k".to_vec(), a).unwrap();
    store.put(b"k".to_vec(), TimestampValue::with_timestamp(b"c".to_vec(), 2)).unwrap();
    // the merged value carries timestamp 2, so an equal timestamp does not replace it
    assert_eq!(store.get(&b"k".to_vec()), Some(b"b".to_vec()));
}

#[test]
fn merge_keeps_value_when_other_is_not_newer() {
    let mut a = TimestampValue::with_timestamp(b"a".to_vec(), 5);
    a.merge(&TimestampValue::with_timestamp(b"b".to_vec(), 5));
    a.merge(&TimestampValue::with_timestamp(b"c".to_vec(), 4));
    let mut store = TsValueStore::new();
    store.put(b"k".to_vec(), a).unwrap();
    store.put(b"k".to_vec(), TimestampValue::with_timestamp(b"d".to_vec(), 6)).unwrap();
    assert_eq!(store.get(&b"k".to_vec()), Some(b"d".to_vec()));
    let mut a2 = TimestampValue::with_timestamp(b"a".to_vec(), 5);
    a2.merge(&TimestampValue::with_timestamp(b"b".to_vec(), 5));
    let mut store2 = TsValueStore::new();
    store2.put(b"k".to_vec(), a2).unwrap();
    assert_eq!(store2.get(&b"k".to_vec()), Some(b"a".to_vec()));
}

#[test]
fn value_stamped_now_is_newer_than_a_negative_stamp() {
    let mut store = TsValueStore::new();
    store.put(b"k".to_vec(), TimestampValue::with_timestamp(b"past".to_vec(), -1)).unwrap();
    store.put(b"k".to_vec(), TimestampValue::new(b"now".to_vec())).unwrap();
    assert_eq!(store.get(&b"k".to_vec()), Some(b"now".to_vec()));
}

#[test]
fn earliest_write_with_latest_timestamp_wins() {
    let mut store = TsValueStore::new();
    let writes: [(&[u8], &[u8], i64); 6] = [
        (b"k", b"v1", 3),
        (b"other", b"o1", 50),
        (b"k", b"v2", 8),
        (b"k", b"v3", 8),
        (b"other", b"o2", 1),
        (b"k", b"v4", 5),
    ];
    for (k, v, t) in writes.iter() {
        store.put(k.to_vec(), TimestampValue::with_timestamp(v.to_vec(), *t)).unwrap();
    }
    assert_eq!(store.get(&b"k".to_vec()), Some(b"v2".to_vec()));
    assert_eq!(store.get(&b"other".to_vec()), Some(b"o1".to_vec()));
}

#[test]
fn key_once_put_stays_present() {
    let mut store = TsValueStore::new();
    store.put(b"k".to_vec(), TimestampValue::with_timestamp(b"v".to_vec(), 0)).unwrap();
    for i in 0..20i64 {
        let key = vec![b'a' + (i % 5) as u8];
        store.put(key, TimestampValue::with_timestamp(vec![i as u8], i - 10)).unwrap();
        store.put(b"k".to_vec(), TimestampValue::with_timestamp(vec![i as u8], -i)).unwrap();
        assert!(store.get(&b"k".to_vec()).is_some());
    }
    assert_eq!(store.get(&b"k".to_vec()), Some(b"v".to_vec()));
}
