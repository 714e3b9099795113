use keyval::service::KeyValueService;

#[test]
fn lookup_on_fresh_engine_is_not_found() {
    let service = KeyValueService::with_preload(None);
    let r = service.get_value(&String::from("missing"));
    assert!(r.is_err());
}

#[test]
fn insert_then_get_returns_value() {
    let mut service = KeyValueService::with_preload(None);
    let ack = service.insert_key_value(String::from("k"), String::from("v"));
    assert_eq!(ack, "value");
    let r = service.get_value(&String::from("k"));
    assert_eq!(r.unwrap(), "v");
}

#[test]
fn upsert_through_service_keeps_latest() {
    let mut service = KeyValueService::with_preload(None);
    service.insert_key_value(String::from("k"), String::from("v1"));
    service.insert_key_value(String::from("k"), String::from("v2"));
    assert_eq!(service.len(), 1);
    assert_eq!(service.get_value(&String::from("k")).unwrap(), "v2");
}

#[test]
fn end_to_end_snapshot_reload() {
    // empty store -> insert -> save -> load elsewhere -> read back
    let mut service = KeyValueService::with_preload(None);
    service.insert_key_value(String::from("sample_key"), String::from("sample_value"));
    let saved = service.snapshot();

    let reloaded = KeyValueService::with_preload(Some(saved.as_slice()));
    let r = reloaded.get_value(&String::from("sample_key"));
    assert_eq!(r.unwrap(), "sample_value");
}

#[test]
fn preload_of_corrupt_snapshot_starts_empty() {
    let garbage: Vec<u8> = vec![42];
    let service = KeyValueService::with_preload(Some(garbage.as_slice()));
    assert_eq!(service.len(), 0);
    assert!(service.get_value(&String::from("sample_key")).is_err());
}
