use keyval::store::Store;

#[test]
fn round_trip_preserves_map() {
    let mut origin = Store::new();
    origin.insert(String::from("alpha"), String::from("one"));
    origin.insert(String::from("beta"), String::from("two"));
    origin.insert(String::from("gamma"), String::from("three"));

    let bytes = origin.encode();
    let decoded = Store::decode(bytes.as_slice()).expect("snapshot must decode");

    assert_eq!(decoded.len(), 3);
    assert_eq!(decoded.get(&String::from("alpha")), Some(&String::from("one")));
    assert_eq!(decoded.get(&String::from("beta")), Some(&String::from("two")));
    assert_eq!(decoded.get(&String::from("gamma")), Some(&String::from("three")));
}

#[test]
fn round_trip_empty_store() {
    let origin = Store::new();
    let bytes = origin.encode();
    assert_eq!(bytes.len(), 8);
    let decoded = Store::decode(bytes.as_slice()).expect("empty snapshot must decode");
    assert!(decoded.is_empty());
}

#[test]
fn round_trip_non_ascii_text() {
    let mut origin = Store::new();
    origin.insert(String::from("gr\u{00fc}\u{00df}e"), String::from("\u{65e5}\u{672c}\u{8a9e}"));
    origin.insert(String::from("emoji"), String::from("\u{1f600}"));

    let bytes = origin.encode();
    let decoded = Store::decode(bytes.as_slice()).expect("snapshot must decode");

    assert_eq!(decoded.len(), 2);
    assert_eq!(
        decoded.get(&String::from("gr\u{00fc}\u{00df}e")),
        Some(&String::from("\u{65e5}\u{672c}\u{8a9e}"))
    );
    assert_eq!(decoded.get(&String::from("emoji")), Some(&String::from("\u{1f600}")));
}

#[test]
fn encoding_layout_is_exact() {
    let mut origin = Store::new();
    origin.insert(String::from("a"), String::from("b"));
    let bytes = origin.encode();
    let expected: Vec<u8> = vec![
        1, 0, 0, 0, 0, 0, 0, 0, // one entry
        1, 0, 0, 0, 0, 0, 0, 0, // key length
        b'a', // key bytes
        1, 0, 0, 0, 0, 0, 0, 0, // value length
        b'b', // value bytes
    ];
    assert_eq!(bytes, expected);
}

#[test]
fn decode_empty_buffer_is_error() {
    let empty: Vec<u8> = Vec::new();
    assert!(Store::decode(empty.as_slice()).is_err());
}

#[test]
fn decode_truncated_header_is_error() {
    let short: Vec<u8> = vec![1, 0, 0];
    assert!(Store::decode(short.as_slice()).is_err());
}

#[test]
fn decode_truncated_entry_is_error() {
    let mut origin = Store::new();
    origin.insert(String::from("key"), String::from("value"));
    let mut bytes = origin.encode();
    bytes.pop();
    assert!(Store::decode(bytes.as_slice()).is_err());
}

#[test]
fn decode_trailing_bytes_is_error() {
    let mut origin = Store::new();
    origin.insert(String::from("key"), String::from("value"));
    let mut bytes = origin.encode();
    bytes.push(0);
    assert!(Store::decode(bytes.as_slice()).is_err());
}

#[test]
fn decode_invalid_utf8_is_error() {
    let bytes: Vec<u8> = vec![
        1, 0, 0, 0, 0, 0, 0, 0, // one entry
        1, 0, 0, 0, 0, 0, 0, 0, // key length
        0xff, // not valid UTF-8
        1, 0, 0, 0, 0, 0, 0, 0, // value length
        b'b', // value bytes
    ];
    assert!(Store::decode(bytes.as_slice()).is_err());
}

#[test]
fn decode_overlong_length_field_is_error() {
    let bytes: Vec<u8> = vec![
        1, 0, 0, 0, 0, 0, 0, 0, // one entry
        9, 0, 0, 0, 0, 0, 0, 0, // key length beyond the buffer
        b'a',
    ];
    assert!(Store::decode(bytes.as_slice()).is_err());
}

#[test]
fn upsert_keeps_one_entry_with_latest_value() {
    let mut store = Store::new();
    store.insert(String::from("k"), String::from("v1"));
    store.insert(String::from("k"), String::from("v2"));
    assert_eq!(store.len(), 1);
    assert_eq!(store.get(&String::from("k")), Some(&String::from("v2")));
}

#[test]
fn get_missing_key_is_none() {
    let store = Store::new();
    assert_eq!(store.get(&String::from("anything")), None);
}

#[test]
fn empty_key_and_empty_value_round_trip() {
    let mut origin = Store::new();
    origin.insert(String::new(), String::new());
    let bytes = origin.encode();
    let decoded = Store::decode(bytes.as_slice()).expect("snapshot must decode");
    assert_eq!(decoded.len(), 1);
    assert_eq!(decoded.get(&String::new()), Some(&String::new()));
}
