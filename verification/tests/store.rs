use base64::Engine;
use agni::store::{Entry, Store};

#[test]
fn test_set_and_get() {
    let store = Store::new();
    store.set("name".to_string(), b"agni".to_vec());
    assert_eq!(store.get("name"), Some(b"agni".to_vec()));
}

#[test]
fn test_get_missing_key() {
    let store = Store::new();
    assert_eq!(store.get("missing"), None);
}

#[test]
fn test_overwrite_value() {
    let store = Store::new();
    store.set("key".to_string(), b"first".to_vec());
    store.set("key".to_string(), b"second".to_vec());
    assert_eq!(store.get("key"), Some(b"second".to_vec()));
}

#[test]
fn test_delete_existing_key() {
    let store = Store::new();
    store.set("key".to_string(), b"value".to_vec());
    assert!(store.delete("key"));
    assert_eq!(store.get("key"), None);
}

#[test]
fn test_delete_missing_key() {
    let store = Store::new();
    assert!(!store.delete("missing"));
}

#[test]
fn test_shared_across_clones() {
    let store = Store::new();
    let store2 = store.clone();
    store.set("key".to_string(), b"value".to_vec());
    assert_eq!(store2.get("key"), Some(b"value".to_vec()));
}

#[test]
fn test_get_as_json_contains_key_and_base64_value() {
    let store = Store::new();
    store.set("hello".to_string(), b"world".to_vec());
    let json = store.get_as_json("hello").unwrap().unwrap();
    let parsed: serde_json::Value = serde_json::from_str(&json).unwrap();
    assert_eq!(parsed["key"], "hello");
    assert_eq!(parsed["value"], "d29ybGQ=");
    assert!(parsed["id"].is_string());
}

#[test]
fn test_get_as_json_missing_key() {
    let store = Store::new();
    assert!(store.get_as_json("missing").is_none());
}

#[test]
fn delete_twice_reports_only_the_first_removal() {
    let store = Store::new();
    store.set("k".to_string(), b"v".to_vec());
    assert!(store.delete("k"));
    assert!(!store.delete("k"));
}

#[test]
fn empty_key_and_empty_value_round_trip() {
    let store = Store::new();
    store.set(String::new(), Vec::new());
    assert_eq!(store.get(""), Some(Vec::new()));
}

#[test]
fn keys_are_case_sensitive() {
    let store = Store::new();
    store.set("Key".to_string(), b"a".to_vec());
    assert_eq!(store.get("key"), None);
    assert_eq!(store.get("Key"), Some(b"a".to_vec()));
}

#[test]
fn entry_new_keeps_key_and_value_and_is_version_4() {
    let e = Entry::new("k".to_string(), vec![1, 2, 3]);
    assert_eq!(e.key, "k");
    assert_eq!(e.value, vec![1, 2, 3]);
    assert_eq!((e.id >> 76) & 0xf, 4);
    assert_eq!((e.id >> 62) & 0x3, 2);
}

#[test]
fn entry_json_has_exact_layout() {
    let e = Entry {
        id: 0x67e5_5044_10b1_426f_9247_bb68_0e5f_e0c8,
        key: "hello".to_string(),
        value: b"world".to_vec(),
    };
    let json = e.to_json().unwrap();
    assert_eq!(
        json,
        "{\"id\":\"67e55044-10b1-426f-9247-bb680e5fe0c8\",\"key\":\"hello\",\"value\":\"d29ybGQ=\"}"
    );
}

#[test]
fn entry_json_escapes_the_key() {
    let e = Entry {
        id: 0,
        key: "a\"b\\c\nd\u{1}".to_string(),
        value: vec![0xff, 0x00],
    };
    let json = e.to_json().unwrap();
    assert_eq!(
        json,
        "{\"id\":\"00000000-0000-0000-0000-000000000000\",\"key\":\"a\\\"b\\\\c\\nd\\u0001\",\"value\":\"/wA=\"}"
    );
    let parsed: serde_json::Value = serde_json::from_str(&json).unwrap();
    assert_eq!(parsed["key"], "a\"b\\c\nd\u{1}");
}

#[test]
fn stored_entry_json_has_version_4_id() {
    let store = Store::new();
    store.set("x".to_string(), Vec::new());
    let json = store.get_as_json("x").unwrap().unwrap();
    let parsed: serde_json::Value = serde_json::from_str(&json).unwrap();
    let id = parsed["id"].as_str().unwrap();
    assert_eq!(id.len(), 36);
    assert_eq!(&id[14..15], "4");
    assert!(matches!(&id[19..20], "8" | "9" | "a" | "b"));
    assert_eq!(parsed["value"], "");
}

fn entry_json(id: u128, key: &str, value: &[u8]) -> String {
    let e = Entry { id, key: key.to_string(), value: value.to_vec() };
    e.to_json().unwrap()
}

fn value_text(value: &[u8]) -> String {
    let json = entry_json(0, "", value);
    let prefix = "{\"id\":\"00000000-0000-0000-0000-000000000000\",\"key\":\"\",\"value\":\"";
    assert!(json.starts_with(prefix));
    assert!(json.ends_with("\"}"));
    json[prefix.len()..json.len() - 2].to_string()
}

#[test]
fn base64_groups_and_padding() {
    assert_eq!(value_text(b""), "");
    assert_eq!(value_text(b"f"), "Zg==");
    assert_eq!(value_text(b"fo"), "Zm8=");
    assert_eq!(value_text(b"foo"), "Zm9v");
    assert_eq!(value_text(b"foobar"), "Zm9vYmFy");
    assert_eq!(value_text(&[0xfb, 0xff]), "+/8=");
}

#[test]
fn json_string_escapes_control_characters() {
    assert_eq!(
        entry_json(0, "\u{8}\u{c}\t\r\u{1f}\u{7f}é/", b""),
        "{\"id\":\"00000000-0000-0000-0000-000000000000\",\"key\":\"\\b\\f\\t\\r\\u001f\u{7f}é/\",\"value\":\"\"}"
    );
}

#[test]
fn uuid_text_layout() {
    let json = entry_json(u128::MAX, "k", b"");
    assert!(json.starts_with("{\"id\":\"ffffffff-ffff-ffff-ffff-ffffffffffff\","));
    let json = entry_json(0x0123_4567_89ab_cdef_0011_2233_4455_6677, "k", b"");
    assert!(json.starts_with("{\"id\":\"01234567-89ab-cdef-0011-223344556677\","));
}

#[test]
fn answers_once_the_map_has_been_searched() {
    let e = Entry { id: 0, key: "k".to_string(), value: b"v".to_vec() };
    assert_eq!(Store::value_found(Some(e.clone())), Some(b"v".to_vec()));
    assert_eq!(Store::value_found(None), None);
    assert!(Store::removal_found(Some(("k".to_string(), e.clone()))));
    assert!(!Store::removal_found(None));
    let json = Store::json_found(Some(e.clone())).unwrap().unwrap();
    assert_eq!(json, e.to_json().unwrap());
    assert!(Store::json_found(None).is_none());
}

#[test]
fn entry_json_round_trips() {
    let e = Entry::new("k\"ey\u{7}".to_string(), vec![0, 1, 2, 250, 251]);
    let json = e.to_json().unwrap();
    let v: serde_json::Value = serde_json::from_str(&json).unwrap();
    assert_eq!(v["key"], e.key.as_str());
    let value = base64::engine::general_purpose::STANDARD
        .decode(v["value"].as_str().unwrap())
        .unwrap();
    assert_eq!(value, e.value);
    let id = uuid::Uuid::parse_str(v["id"].as_str().unwrap()).unwrap();
    assert_eq!(id.as_u128(), e.id);
}
