use m_desk_new::json::{object_insert, JsonValue};
use m_desk_new::parameter_validation::ParameterValidator;
use m_desk_new::tool::Tool;

fn obj(pairs: Vec<(&str, JsonValue)>) -> JsonValue {
    let mut entries = Vec::new();
    for (k, v) in pairs {
        object_insert(&mut entries, k.to_string(), v);
    }
    JsonValue::Object(entries)
}

fn s(t: &str) -> JsonValue {
    JsonValue::String(t.to_string())
}

fn num(i: i64) -> JsonValue {
    JsonValue::from_i64(i)
}

#[test]
fn test_parameter_validation() {
    let test_tool = Tool::new(
        "test_tool".to_string(),
        "A test tool".to_string(),
        obj(vec![
            ("type", s("object")),
            (
                "properties",
                obj(vec![
                    ("query", obj(vec![("type", s("string")), ("minLength", num(1))])),
                    ("count", obj(vec![("type", s("integer")), ("minimum", num(0)), ("default", num(10))])),
                ]),
            ),
            ("required", JsonValue::Array(vec![s("query")])),
        ]),
    );

    let valid_params = obj(vec![("query", s("test query")), ("count", num(5))]);
    assert!(ParameterValidator::validate_parameters(&test_tool, &valid_params).is_ok());

    let invalid_params = obj(vec![("count", num(5))]);
    assert!(ParameterValidator::validate_parameters(&test_tool, &invalid_params).is_err());

    let fixed_params = ParameterValidator::fix_parameters(&test_tool, invalid_params).unwrap();
    assert!(fixed_params.get("query").is_some());
    assert_eq!(fixed_params.get("count"), Some(&num(5)));
    assert!(ParameterValidator::validate_parameters(&test_tool, &fixed_params).is_ok());
}

#[test]
fn test_parameter_defaults() {
    let test_tool = Tool::new(
        "test_tool".to_string(),
        "A test tool".to_string(),
        obj(vec![
            ("type", s("object")),
            (
                "properties",
                obj(vec![
                    ("name", obj(vec![("type", s("string")), ("default", s("default_name"))])),
                    ("value", obj(vec![("type", s("integer")), ("default", num(42))])),
                ]),
            ),
            ("required", JsonValue::Array(vec![s("name"), s("value")])),
        ]),
    );

    let empty_params = obj(vec![]);
    let fixed = ParameterValidator::fix_parameters(&test_tool, empty_params).unwrap();

    assert_eq!(fixed.get("name"), Some(&s("default_name")));
    assert_eq!(fixed.get("value"), Some(&num(42)));
}

#[test]
fn default_values_follow_the_schema() {
    // smart defaults by property name come before the type
    assert_eq!(ParameterValidator::create_default_value(&obj(vec![("name", s("path")), ("type", s("integer"))])), s("/path/to/file"));
    assert_eq!(ParameterValidator::create_default_value(&obj(vec![("name", s("dir"))])), s("/path/to/directory"));
    assert_eq!(ParameterValidator::create_default_value(&obj(vec![("name", s("filename"))])), s("filename.txt"));
    assert_eq!(ParameterValidator::create_default_value(&obj(vec![("name", s("content"))])), s("Content goes here"));
    assert_eq!(ParameterValidator::create_default_value(&obj(vec![("name", s("query"))])), s("search query"));
    // formats of strings
    assert_eq!(ParameterValidator::create_default_value(&obj(vec![("type", s("string")), ("format", s("date"))])), s("2023-01-01"));
    assert_eq!(ParameterValidator::create_default_value(&obj(vec![("type", s("string")), ("format", s("date-time"))])), s("2023-01-01T00:00:00Z"));
    assert_eq!(ParameterValidator::create_default_value(&obj(vec![("type", s("string")), ("format", s("email"))])), s("user@example.com"));
    assert_eq!(ParameterValidator::create_default_value(&obj(vec![("type", s("string")), ("format", s("url"))])), s("https://example.com"));
    // enums, lengths
    assert_eq!(
        ParameterValidator::create_default_value(&obj(vec![("type", s("string")), ("enum", JsonValue::Array(vec![s("red"), s("blue")]))])),
        s("red")
    );
    assert_eq!(ParameterValidator::create_default_value(&obj(vec![("type", s("string")), ("minLength", num(3))])), s("xxx"));
    assert_eq!(ParameterValidator::create_default_value(&obj(vec![("type", s("string"))])), s(""));
    // numbers
    assert_eq!(ParameterValidator::create_default_value(&obj(vec![("type", s("integer")), ("minimum", num(-4))])), num(-4));
    assert_eq!(ParameterValidator::create_default_value(&obj(vec![("type", s("integer"))])), num(0));
    let number = ParameterValidator::create_default_value(&obj(vec![("type", s("number")), ("minimum", num(5))]));
    match number {
        JsonValue::Number(m_desk_new::json::JsonNumber::Float(text)) => assert_eq!(text, "5.0"),
        other => panic!("expected a floating point number, got {:?}", other),
    }
    assert_eq!(ParameterValidator::create_default_value(&obj(vec![("type", s("boolean"))])), JsonValue::Bool(false));
    assert_eq!(ParameterValidator::create_default_value(&obj(vec![("type", s("nothing"))])), JsonValue::Null);
    assert_eq!(ParameterValidator::create_default_value(&obj(vec![])), JsonValue::Null);
    // arrays
    assert_eq!(
        ParameterValidator::create_default_value(&obj(vec![("type", s("array")), ("items", obj(vec![("type", s("boolean"))])), ("minItems", num(2))])),
        JsonValue::Array(vec![JsonValue::Bool(false), JsonValue::Bool(false)])
    );
    assert_eq!(
        ParameterValidator::create_default_value(&obj(vec![("type", s("array")), ("examples", JsonValue::Array(vec![num(7)]))])),
        JsonValue::Array(vec![num(7)])
    );
    assert_eq!(ParameterValidator::create_default_value(&obj(vec![("type", s("array"))])), JsonValue::Array(vec![]));
    // objects: only the required properties
    let schema = obj(vec![
        ("type", s("object")),
        ("properties", obj(vec![("a", obj(vec![("type", s("integer"))])), ("b", obj(vec![("type", s("boolean"))]))])),
        ("required", JsonValue::Array(vec![s("b"), s("missing")])),
    ]);
    assert_eq!(ParameterValidator::create_default_value(&schema), obj(vec![("b", JsonValue::Bool(false))]));
}

#[test]
fn invalid_schema_is_reported() {
    let tool = Tool::new("t".to_string(), "d".to_string(), obj(vec![("type", num(12))]));
    let err = ParameterValidator::validate_parameters(&tool, &obj(vec![])).unwrap_err();
    assert!(err.starts_with("Invalid schema: "), "{}", err);
}

#[test]
fn fix_turns_non_objects_into_objects() {
    let tool = Tool::new(
        "t".to_string(),
        "d".to_string(),
        obj(vec![
            ("type", s("object")),
            ("properties", obj(vec![("flag", obj(vec![("type", s("boolean"))]))])),
            ("required", JsonValue::Array(vec![s("flag")])),
        ]),
    );
    let fixed = ParameterValidator::fix_parameters(&tool, s("not an object")).unwrap();
    assert_eq!(fixed, obj(vec![("flag", JsonValue::Bool(false))]));
    let err = ParameterValidator::validate_parameters(&tool, &obj(vec![])).unwrap_err();
    assert!(err.starts_with("Parameter validation failed: "), "{}", err);
    assert!(err.contains("\"flag\" is a required property"), "{}", err);
}
