//! Durability: replaying the log file reproduces the acknowledged state.

use kvs::store::LogEffect;
use kvs::KvStore;

/// Apply drained effects to a simulated log file, as the process that owns
/// the real file would.
fn apply_effects(file: &mut Vec<u8>, effects: Vec<LogEffect>) {
    for effect in effects {
        match effect {
            LogEffect::Append(bytes) => file.extend(bytes),
            LogEffect::Replace(bytes) => *file = bytes,
        }
    }
}

#[test]
fn reopen_after_sets_and_removes() {
    let mut file: Vec<u8> = Vec::new();
    {
        let mut store = KvStore::open(file.clone());
        store.set("a".to_string(), "1".to_string()).unwrap();
        store.set("b".to_string(), "2".to_string()).unwrap();
        store.set("a".to_string(), "3".to_string()).unwrap();
        store.remove(&"b".to_string()).unwrap();
        store.set("c".to_string(), "4".to_string()).unwrap();
        apply_effects(&mut file, store.take_effects());
        // the store is dropped without any further ceremony, as a crash
        // immediately after the acknowledged writes would leave it
    }
    let reopened = KvStore::open(file);
    assert_eq!(reopened.get(&"a".to_string()).unwrap(), Some("3".to_string()));
    assert_eq!(reopened.get(&"b".to_string()).unwrap(), None);
    assert_eq!(reopened.get(&"c".to_string()).unwrap(), Some("4".to_string()));
}

#[test]
fn reopen_after_every_single_write() {
    // crash after each acknowledged write: the file replays to exactly the
    // state built so far
    let mut file: Vec<u8> = Vec::new();
    let mut store = KvStore::open(file.clone());
    for i in 0..20 {
        let key = format!("key{}", i % 5);
        let value = format!("value{}", i);
        store.set(key.clone(), value.clone()).unwrap();
        apply_effects(&mut file, store.take_effects());
        let reopened = KvStore::open(file.clone());
        assert_eq!(reopened.get(&key).unwrap(), Some(value));
    }
}

#[test]
fn torn_trailing_record_is_ignored() {
    let mut file: Vec<u8> = Vec::new();
    let mut store = KvStore::open(file.clone());
    store.set("good".to_string(), "kept".to_string()).unwrap();
    apply_effects(&mut file, store.take_effects());

    // a crash mid-append leaves an incomplete record at the tail
    let mut torn = file.clone();
    torn.extend(b"{\"Set\":{\"key\":\"half".to_vec());

    let reopened = KvStore::open(torn);
    assert_eq!(
        reopened.get(&"good".to_string()).unwrap(),
        Some("kept".to_string())
    );

    // the recovered store discards the torn tail and asks for the file to
    // be rewritten without it
    let mut recovered = reopened;
    let mut cleaned: Vec<u8> = Vec::new();
    apply_effects(&mut cleaned, recovered.take_effects());
    assert_eq!(cleaned, file);
}

#[test]
fn trailing_garbage_is_ignored() {
    let mut file: Vec<u8> = Vec::new();
    let mut store = KvStore::open(file.clone());
    store.set("k".to_string(), "v".to_string()).unwrap();
    apply_effects(&mut file, store.take_effects());

    let mut dirty = file.clone();
    dirty.extend(vec![0xffu8, 0x00, 0x7b, 0x22]);
    let reopened = KvStore::open(dirty);
    assert_eq!(reopened.get(&"k".to_string()).unwrap(), Some("v".to_string()));
}

#[test]
fn compaction_crash_before_rename_loses_nothing() {
    let mut file: Vec<u8> = Vec::new();
    let mut store = KvStore::open(file.clone());
    for i in 0..50 {
        store.set("hot".to_string(), format!("v{}", i)).unwrap();
        store.set(format!("cold{}", i), "x".to_string()).unwrap();
    }
    apply_effects(&mut file, store.take_effects());
    let before_len = file.len();

    store.force_compaction();
    let mut effects = store.take_effects();

    // the compaction effect is the final file replacement
    let replacement = effects.pop().unwrap();
    let new_segment = match replacement {
        LogEffect::Replace(bytes) => bytes,
        LogEffect::Append(_) => panic!("compaction must replace the segment"),
    };
    // nothing else was pending
    assert!(effects.is_empty());

    // crash before the rename: the old file is intact and fully valid
    let old_reopened = KvStore::open(file.clone());
    assert_eq!(
        old_reopened.get(&"hot".to_string()).unwrap(),
        Some("v49".to_string())
    );
    assert_eq!(
        old_reopened.get(&"cold0".to_string()).unwrap(),
        Some("x".to_string())
    );

    // crash after the rename: the new segment carries the same state and
    // is no larger
    assert!(new_segment.len() <= before_len);
    let new_reopened = KvStore::open(new_segment);
    assert_eq!(
        new_reopened.get(&"hot".to_string()).unwrap(),
        Some("v49".to_string())
    );
    assert_eq!(
        new_reopened.get(&"cold49".to_string()).unwrap(),
        Some("x".to_string())
    );
}
