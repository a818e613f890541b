//! Point operations of the storage engine.

use kvs::{KvStore, MyError};

#[test]
fn it_works() {
    assert_eq!(2 + 2, 4);
}

#[test]
fn set_then_get() {
    let mut store = KvStore::open(Vec::new());
    store.set("key1".to_string(), "value1".to_string()).unwrap();
    assert_eq!(
        store.get(&"key1".to_string()).unwrap(),
        Some("value1".to_string())
    );
}

#[test]
fn set_then_get_empty_strings() {
    let mut store = KvStore::open(Vec::new());
    store.set("".to_string(), "".to_string()).unwrap();
    assert_eq!(store.get(&"".to_string()).unwrap(), Some("".to_string()));
    store.set("k".to_string(), "".to_string()).unwrap();
    assert_eq!(store.get(&"k".to_string()).unwrap(), Some("".to_string()));
}

#[test]
fn set_then_get_non_ascii() {
    let mut store = KvStore::open(Vec::new());
    let cases = [
        ("héllo", "wörld"),
        ("日本語", "漢字"),
        ("emoji-\u{1F600}", "\u{1F680}rocket"),
        ("tab\tand\nnewline", "quote\"and\\backslash"),
        ("nul\u{0}char", "ctl\u{1}\u{1f}"),
    ];
    for (k, v) in cases.iter() {
        store.set(k.to_string(), v.to_string()).unwrap();
    }
    for (k, v) in cases.iter() {
        assert_eq!(store.get(&k.to_string()).unwrap(), Some(v.to_string()));
    }
}

#[test]
fn get_missing_is_none_not_error() {
    let store = KvStore::open(Vec::new());
    assert_eq!(store.get(&"absent".to_string()).unwrap(), None);
}

#[test]
fn remove_missing_fails_with_key_not_found() {
    let mut store = KvStore::open(Vec::new());
    let err = store.remove(&"never-set".to_string()).unwrap_err();
    assert!(matches!(err, MyError::KeyNotFound));
    // the miss is still not an error for get
    assert_eq!(store.get(&"never-set".to_string()).unwrap(), None);
}

#[test]
fn overwrite_keeps_latest_value() {
    let mut store = KvStore::open(Vec::new());
    store.set("k".to_string(), "a".to_string()).unwrap();
    store.set("k".to_string(), "b".to_string()).unwrap();
    assert_eq!(store.get(&"k".to_string()).unwrap(), Some("b".to_string()));
}

#[test]
fn remove_then_get_is_none() {
    let mut store = KvStore::open(Vec::new());
    store.set("k".to_string(), "v".to_string()).unwrap();
    store.remove(&"k".to_string()).unwrap();
    assert_eq!(store.get(&"k".to_string()).unwrap(), None);
}

#[test]
fn key_not_found_message() {
    assert_eq!(MyError::KeyNotFound.message(), "Key not found".to_string());
}

#[test]
fn io_failure_message_carries_description() {
    let err = MyError::IoFailure("disk full".to_string());
    assert_eq!(err.message(), "I/O failure: disk full".to_string());
}

#[test]
fn every_error_variant_describes_itself() {
    // the verified engine proves the decode and internal-fault errors can
    // never escape it; their descriptions still exist for the taxonomy
    assert_eq!(MyError::DecodeFailure.message(), "malformed record".to_string());
    assert_eq!(
        MyError::InternalInvariant.message(),
        "internal invariant violated".to_string()
    );
    assert_eq!(
        MyError::StringError("wire says no".to_string()).message(),
        "wire says no".to_string()
    );
}
