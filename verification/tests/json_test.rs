use m_desk_new::json::{object_insert, JsonNumber, JsonValue};

#[test]
fn objects_keep_their_keys_in_order_and_once() {
    let mut e = Vec::new();
    object_insert(&mut e, "b".to_string(), JsonValue::Bool(true));
    object_insert(&mut e, "a".to_string(), JsonValue::Null);
    object_insert(&mut e, "c".to_string(), JsonValue::from_i64(1));
    object_insert(&mut e, "a".to_string(), JsonValue::from_i64(2));
    object_insert(&mut e, "B".to_string(), JsonValue::Null);
    let keys: Vec<&str> = e.iter().map(|(k, _)| k.as_str()).collect();
    assert_eq!(keys, vec!["B", "a", "b", "c"]);
    let v = JsonValue::Object(e);
    // a read gives back the last write of each key
    assert_eq!(v.get("a"), Some(&JsonValue::from_i64(2)));
    assert_eq!(v.get("b"), Some(&JsonValue::Bool(true)));
    assert_eq!(v.get("missing"), None);
}

#[test]
fn numbers_read_as_integers_when_they_fit() {
    assert_eq!(JsonValue::from_i64(-5), JsonValue::Number(JsonNumber::NegInt(-5)));
    assert_eq!(JsonValue::from_i64(5), JsonValue::Number(JsonNumber::PosInt(5)));
    assert_eq!(JsonValue::from_u64(u64::MAX).as_i64(), None);
    assert_eq!(JsonValue::from_u64(u64::MAX).as_u64(), Some(u64::MAX));
    assert_eq!(JsonValue::from_i64(-1).as_u64(), None);
    assert_eq!(JsonValue::Number(JsonNumber::Float("1.5".to_string())).as_i64(), None);
    assert_eq!(JsonValue::String("x".to_string()).as_str(), Some("x"));
    assert!(JsonValue::Null.as_str().is_none());
}

#[test]
fn copies_are_equal() {
    let mut e = Vec::new();
    object_insert(&mut e, "k".to_string(), JsonValue::Array(vec![JsonValue::Number(JsonNumber::Float("2.5".to_string()))]));
    let v = JsonValue::Object(e);
    assert_eq!(v.deep_copy(), v);
}
