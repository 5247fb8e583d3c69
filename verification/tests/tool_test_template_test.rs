use m_desk_new::json::{object_insert, JsonNumber, JsonValue};
use m_desk_new::tool_test::parameter_template;

fn obj(pairs: Vec<(&str, JsonValue)>) -> JsonValue {
    let mut entries = Vec::new();
    for (k, v) in pairs {
        object_insert(&mut entries, k.to_string(), v);
    }
    JsonValue::Object(entries)
}

fn s(t: &str) -> JsonValue {
    JsonValue::String(t.to_string())
}

#[test]
fn every_property_gets_a_placeholder_by_type() {
    let schema = obj(vec![
        ("type", s("object")),
        (
            "properties",
            obj(vec![
                ("path", obj(vec![("type", s("string"))])),
                ("count", obj(vec![("type", s("number"))])),
                ("limit", obj(vec![("type", s("integer"))])),
                ("flag", obj(vec![("type", s("boolean"))])),
                ("items", obj(vec![("type", s("array"))])),
                ("options", obj(vec![("type", s("object"))])),
                ("untyped", obj(vec![])),
            ]),
        ),
    ]);
    let template = parameter_template(&schema).unwrap();
    assert_eq!(
        template,
        obj(vec![
            ("count", JsonValue::Number(JsonNumber::PosInt(0))),
            ("flag", JsonValue::Bool(false)),
            ("items", JsonValue::Array(vec![])),
            ("limit", s("")),
            ("options", obj(vec![])),
            ("path", s("")),
            ("untyped", s("")),
        ])
    );
}

#[test]
fn schemas_without_properties_give_no_template() {
    assert!(parameter_template(&obj(vec![("type", s("object"))])).is_none());
    assert!(parameter_template(&obj(vec![("properties", JsonValue::Array(vec![]))])).is_none());
    assert_eq!(parameter_template(&obj(vec![("properties", obj(vec![]))])), Some(obj(vec![])));
}
