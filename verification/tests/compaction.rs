//! Compaction: space is reclaimed and the visible state is untouched.

use kvs::store::LogEffect;
use kvs::KvStore;

fn apply_effects(file: &mut Vec<u8>, effects: Vec<LogEffect>) {
    for effect in effects {
        match effect {
            LogEffect::Append(bytes) => file.extend(bytes),
            LogEffect::Replace(bytes) => *file = bytes,
        }
    }
}

#[test]
fn compaction_preserves_visible_state() {
    let mut store = KvStore::open(Vec::new());
    for round in 0..30 {
        for k in 0..10 {
            store
                .set(format!("key{}", k), format!("round{}value{}", round, k))
                .unwrap();
        }
    }
    let before = store.log_len();
    store.force_compaction();
    let after = store.log_len();
    assert!(after <= before);
    for k in 0..10 {
        assert_eq!(
            store.get(&format!("key{}", k)).unwrap(),
            Some(format!("round{}value{}", 29, k))
        );
    }
}

#[test]
fn compaction_shrinks_the_file() {
    let mut file: Vec<u8> = Vec::new();
    let mut store = KvStore::open(file.clone());
    for round in 0..50 {
        store.set("only".to_string(), format!("v{}", round)).unwrap();
    }
    apply_effects(&mut file, store.take_effects());
    let before = file.len();
    store.force_compaction();
    apply_effects(&mut file, store.take_effects());
    assert!(file.len() <= before);
    assert!(file.len() < before / 10);
    let reopened = KvStore::open(file);
    assert_eq!(
        reopened.get(&"only".to_string()).unwrap(),
        Some("v49".to_string())
    );
}

#[test]
fn automatic_compaction_bounds_the_log() {
    // a small threshold makes every set check and reclaim stale bytes
    let mut store = KvStore::open_with_threshold(Vec::new(), 500);
    for round in 0..200 {
        store.set("k".to_string(), format!("value{}", round)).unwrap();
    }
    // two hundred overwrites wrote far more than this; compaction kept the
    // live segment near one record
    assert!(store.log_len() < 600);
    assert_eq!(
        store.get(&"k".to_string()).unwrap(),
        Some("value199".to_string())
    );
}

#[test]
fn thousand_keys_with_removals_and_compaction() {
    let mut store = KvStore::open(Vec::new());
    for i in 0..1000 {
        store.set(format!("key{:04}", i), format!("value{:04}", i)).unwrap();
    }
    for i in 0..200 {
        store.remove(&format!("key{:04}", i * 5)).unwrap();
    }
    store.force_compaction();
    for i in 0..1000 {
        let got = store.get(&format!("key{:04}", i)).unwrap();
        if i % 5 == 0 && i / 5 < 200 {
            assert_eq!(got, None);
        } else {
            assert_eq!(got, Some(format!("value{:04}", i)));
        }
    }
}
