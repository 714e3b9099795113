use keyval::engine::{Engine, LoadError};
use keyval::store::Store;

#[test]
fn test_state() {
    let mut origin = Store::new();
    origin.insert(String::from("sample_key"), String::from("sample_value"));
    let saved = origin.encode();

    // State loaded correctly from the saved bytes
    let engine = Engine::from_state_or_empty(Some(saved.as_slice()));
    assert!(!engine.is_empty());

    // A missing state file yields no bytes to load from
    let no_file = Engine::from_state(None);
    assert!(no_file.is_err())
}

#[test]
fn strict_load_of_missing_snapshot_is_io_error() {
    let r = Engine::from_state(None);
    assert!(matches!(r, Err(LoadError::Io)));
}

#[test]
fn strict_load_of_corrupt_snapshot_is_decode_error() {
    let garbage: Vec<u8> = vec![0xde, 0xad, 0xbe, 0xef];
    let r = Engine::from_state(Some(garbage.as_slice()));
    assert!(matches!(r, Err(LoadError::Decode)));
}

#[test]
fn loose_load_of_missing_snapshot_is_empty() {
    let engine = Engine::from_state_or_empty(None);
    assert!(engine.is_empty());
    assert_eq!(engine.len(), 0);
}

#[test]
fn loose_load_of_corrupt_snapshot_is_empty() {
    let garbage: Vec<u8> = vec![1, 2, 3, 4, 5, 6, 7, 8, 9];
    let engine = Engine::from_state_or_empty(Some(garbage.as_slice()));
    assert!(engine.is_empty());
}

#[test]
fn default_engine_is_empty() {
    let engine = Engine::default();
    assert!(engine.is_empty());
}

#[test]
fn snapshot_restores_inserted_data() {
    let mut engine = Engine::default();
    engine.insert(String::from("k1"), String::from("v1"));
    engine.insert(String::from("k2"), String::from("v2"));

    let bytes = engine.snapshot();
    let restored = Engine::from_state(Some(bytes.as_slice())).expect("snapshot must load");

    assert_eq!(restored.len(), 2);
    assert_eq!(restored.get(&String::from("k1")), Some(&String::from("v1")));
    assert_eq!(restored.get(&String::from("k2")), Some(&String::from("v2")));
}

#[test]
fn snapshot_overwrite_keeps_latest_content() {
    let mut engine = Engine::default();
    engine.insert(String::from("k"), String::from("first"));
    let mut saved = engine.snapshot();

    engine.insert(String::from("k"), String::from("second"));
    // Saving again replaces the snapshot wholesale
    saved = engine.snapshot();

    let restored = Engine::from_state_or_empty(Some(saved.as_slice()));
    assert_eq!(restored.get(&String::from("k")), Some(&String::from("second")));
    assert_eq!(restored.len(), 1);
}
