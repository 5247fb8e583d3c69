use m_desk_new::json::{object_insert, JsonValue};
use m_desk_new::tool::Tool;
use m_desk_new::validation_pipeline::{ValidationPipeline, ValidationState};

fn obj(pairs: Vec<(&str, JsonValue)>) -> JsonValue {
    let mut entries = Vec::new();
    for (k, v) in pairs {
        object_insert(&mut entries, k.to_string(), v);
    }
    JsonValue::Object(entries)
}

fn s(t: &str) -> JsonValue {
    JsonValue::String(t.to_string())
}

fn num(i: i64) -> JsonValue {
    JsonValue::from_i64(i)
}

fn create_test_tool() -> Tool {
    Tool::new(
        "test_tool".to_string(),
        "A test tool".to_string(),
        obj(vec![
            ("type", s("object")),
            ("required", JsonValue::Array(vec![s("name"), s("count")])),
            (
                "properties",
                obj(vec![
                    ("name", obj(vec![("type", s("string")), ("minLength", num(1)), ("maxLength", num(50))])),
                    ("count", obj(vec![("type", s("integer")), ("minimum", num(0)), ("maximum", num(100))])),
                    ("tags", obj(vec![("type", s("array")), ("items", obj(vec![("type", s("string"))]))])),
                ]),
            ),
        ]),
    )
}

#[test]
fn test_validation_pipeline_valid_input() {
    let pipeline = ValidationPipeline::new();
    let tool = create_test_tool();

    let input = obj(vec![
        ("name", s("test")),
        ("count", num(42)),
        ("tags", JsonValue::Array(vec![s("tag1"), s("tag2")])),
    ]);

    let result = pipeline.validate_input(&tool, input.deep_copy());
    match result {
        ValidationState::Valid(value) => {
            assert_eq!(value, input);
        }
        _ => panic!("Expected Valid state"),
    }
}

#[test]
fn test_validation_pipeline_sanitized_input() {
    let pipeline = ValidationPipeline::new();
    let tool = create_test_tool();

    let input = obj(vec![
        ("name", s("  test with spaces  ")),
        ("count", num(42)),
        ("tags", JsonValue::Array(vec![s("<script>alert('xss')</script>")])),
    ]);

    let result = pipeline.validate_input(&tool, input.deep_copy());
    match result {
        ValidationState::Sanitized { original, sanitized, changes } => {
            assert_eq!(original, input);
            assert_eq!(sanitized.get("name").and_then(JsonValue::as_str).unwrap(), "test with spaces");
            assert_eq!(sanitized.get("count").and_then(JsonValue::as_i64).unwrap(), 42);
            let tags = sanitized.get("tags").and_then(JsonValue::as_array).unwrap();
            let tag = tags[0].as_str().unwrap();
            assert!(tag.contains("&lt;script&gt;") && tag.contains("alert") && tag.contains("&lt;/script&gt;"));
            assert!(!changes.is_empty());
        }
        _ => panic!("Expected Sanitized state"),
    }
}

#[test]
fn test_validation_pipeline_invalid_input() {
    let pipeline = ValidationPipeline::new().with_auto_fix(false);
    let tool = create_test_tool();

    let input = obj(vec![("name", s("")), ("count", num(200)), ("tags", s("not_an_array"))]);

    let result = pipeline.validate_input(&tool, input.deep_copy());
    match result {
        ValidationState::Invalid { input: original, errors } => {
            assert_eq!(original, input);
            assert!(!errors.is_empty());
        }
        _ => panic!("Expected Invalid state"),
    }
}

#[test]
fn test_validation_pipeline_depth_limit() {
    let pipeline = ValidationPipeline::new().with_max_depth(2);
    let tool = create_test_tool();

    let input = obj(vec![
        ("name", s("test")),
        ("count", num(42)),
        ("nested", obj(vec![("level1", obj(vec![("level2", obj(vec![("level3", s("too deep"))]))]))])),
    ]);

    let result = pipeline.validate_input(&tool, input.deep_copy());
    match result {
        ValidationState::Invalid { errors, .. } => {
            assert!(errors.iter().any(|e| e.contains("depth") || e.contains("nest")));
        }
        ValidationState::Sanitized { changes, sanitized, .. } => {
            let nested_empty = match sanitized.get("nested") {
                None => true,
                Some(n) => n.as_object().map_or(true, |o| o.is_empty()),
            };
            assert!(changes.iter().any(|c| c.contains("depth") || c.contains("nest")) || nested_empty);
        }
        ValidationState::Valid(value) => {
            if value.as_object().is_some() {
                if let Some(nested) = value.get("nested") {
                    let deep = nested
                        .get("level1")
                        .and_then(|l1| l1.get("level2"))
                        .and_then(|l2| l2.get("level3"))
                        .is_some();
                    assert!(!deep, "Deep nested structure should not exist in valid result");
                }
            } else {
                panic!("Expected an object result");
            }
        }
    }
}

#[test]
fn test_validation_pipeline_string_length() {
    let pipeline = ValidationPipeline::new().with_max_string_length(10);
    let tool = create_test_tool();

    let input = obj(vec![("name", s("this string is way too long")), ("count", num(42))]);

    let result = pipeline.validate_input(&tool, input.deep_copy());
    match result {
        ValidationState::Sanitized { sanitized, .. } => {
            if let Some(name) = sanitized.get("name").and_then(JsonValue::as_str) {
                assert!(name.len() <= 10);
            } else {
                panic!("Expected sanitized name field");
            }
        }
        _ => panic!("Expected Sanitized or Recovered state"),
    }
}

#[test]
fn test_validation_pipeline_auto_fix() {
    let pipeline = ValidationPipeline::new();
    let tool = create_test_tool();

    let input = obj(vec![("name", s("test")), ("count", num(150))]);

    let result = pipeline.validate_input(&tool, input.deep_copy());
    match result {
        ValidationState::Sanitized { sanitized, .. } => {
            if let Some(count) = sanitized.get("count").and_then(JsonValue::as_i64) {
                assert!(count <= 100);
            } else {
                panic!("Expected sanitized count field");
            }
        }
        ValidationState::Valid(value) => {
            if let Some(count) = value.get("count").and_then(JsonValue::as_i64) {
                assert!(count <= 100);
            } else {
                panic!("Expected count field in valid response");
            }
        }
        ValidationState::Invalid { errors, .. } => {
            assert!(errors.iter().any(|e| e.contains("greater than the maximum")));
        }
    }
}

#[test]
fn test_validation_pipeline_default_values() {
    let pipeline = ValidationPipeline::new();
    let tool = create_test_tool();

    let input = obj(vec![("name", s("test"))]);

    let result = pipeline.validate_input(&tool, input.deep_copy());
    match result {
        ValidationState::Sanitized { sanitized, .. } => {
            assert!(sanitized.get("count").is_some());
        }
        _ => panic!("Expected Recovered or Sanitized state"),
    }
}

#[test]
fn test_validation_pipeline_field_removal() {
    let pipeline = ValidationPipeline::new();
    let tool = create_test_tool();

    let input = obj(vec![("name", s("test")), ("count", num(42)), ("invalid_field", s("this shouldn't be here"))]);

    let result = pipeline.validate_input(&tool, input.deep_copy());
    match result {
        ValidationState::Valid(_) | ValidationState::Sanitized { .. } => {}
        _ => panic!("Expected Recovered, Valid or Sanitized state"),
    }
}

fn sanitize(pipeline: &ValidationPipeline, text: &str) -> String {
    let any = Tool::new("t".to_string(), "d".to_string(), obj(vec![]));
    let state = pipeline.validate_input(&any, s(text));
    state.get_value().and_then(JsonValue::as_str).unwrap().to_string()
}

#[test]
fn sanitizing_strings_trims_cuts_strips_and_escapes() {
    let wide = ValidationPipeline::new();
    assert_eq!(sanitize(&wide, "  plain  "), "plain");
    assert_eq!(sanitize(&wide, "a<b>&\"c'"), "a&lt;b&gt;&amp;&quot;c&#x27;");
    assert_eq!(sanitize(&wide, "x\u{1}y"), "xy");
    let pipeline = ValidationPipeline::new().with_max_string_length(12);
    // the cut comes first, then control codes go
    assert_eq!(sanitize(&pipeline, "tab\there\nnl\u{7}bell"), "tab\there\nnl");
    let three = ValidationPipeline::new().with_max_string_length(3);
    assert_eq!(sanitize(&three, "\u{7}\u{7}abc"), "a");
    // the escaped text fits the limit, and no entity is cut
    assert_eq!(sanitize(&pipeline, "<<<<<<<<<<<<<<"), "&lt;".repeat(3));
    assert_eq!(sanitize(&pipeline, "a<b>&\"c'"), "a&lt;b&gt;");
    let tiny = ValidationPipeline::new().with_max_string_length(1);
    assert_eq!(sanitize(&tiny, "<"), "");
    assert_eq!(sanitize(&tiny, "é"), "");
    assert_eq!(sanitize(&tiny, "ab"), "a");
    for text in ["<<<<<<<<<<<<<<", "tab\there", "ééééééé", "'quoted' & \"double\""] {
        assert!(sanitize(&pipeline, text).len() <= 12, "{}", text);
    }
}

#[test]
fn values_with_dropped_parts_are_not_reported_valid() {
    // a depth limit of 0 drops the elements of a top-level array
    let pipeline = ValidationPipeline::new().with_max_depth(0);
    let any = Tool::new("t".to_string(), "d".to_string(), obj(vec![]));
    let result = pipeline.validate_input(&any, JsonValue::Array(vec![num(1)]));
    match result {
        ValidationState::Sanitized { original, sanitized, changes } => {
            assert_eq!(original, JsonValue::Array(vec![num(1)]));
            assert_eq!(sanitized, JsonValue::Array(vec![]));
            assert_eq!(changes, vec!["Error in array index 0: Maximum nesting depth exceeded".to_string()]);
        }
        other => panic!("expected a sanitized state, got {:?}", other),
    }
}

#[test]
fn the_state_accessors_report_what_happened() {
    let pipeline = ValidationPipeline::new();
    let tool = create_test_tool();

    let valid = pipeline.validate_input(&tool, obj(vec![("name", s("n")), ("count", num(1))]));
    assert!(valid.is_valid());
    assert!(valid.get_changes().is_empty());
    assert!(valid.get_errors().is_empty());
    assert_eq!(valid.get_value(), Some(&obj(vec![("name", s("n")), ("count", num(1))])));

    let sanitized = pipeline.validate_input(&tool, obj(vec![("name", s(" n ")), ("count", num(1))]));
    assert!(sanitized.is_valid());
    assert_eq!(sanitized.get_changes(), vec!["Sanitized string value".to_string()]);
    assert_eq!(sanitized.get_value().unwrap().get("name"), Some(&s("n")));

    let fixed = pipeline.validate_input(&tool, obj(vec![("name", s("n"))]));
    let changes = fixed.get_changes();
    assert_eq!(changes.len(), 1);
    assert!(changes[0].starts_with("Parameters automatically fixed: Parameter validation failed: "), "{}", changes[0]);
    assert_eq!(fixed.get_value().unwrap().get("count"), Some(&num(0)));

    let invalid = pipeline.validate_input(&tool, obj(vec![("name", s("n")), ("count", num(500))]));
    assert!(!invalid.is_valid());
    assert!(invalid.get_value().is_none());
    let errors = invalid.get_errors();
    assert_eq!(errors.len(), 2);
    assert!(errors[0].starts_with("Parameter validation failed: "), "{}", errors[0]);
    assert!(errors[1].starts_with("Auto-fix failed: "), "{}", errors[1]);
}

#[test]
fn too_deep_values_are_dropped_and_reported() {
    let pipeline = ValidationPipeline::new().with_max_depth(1).with_auto_fix(false);
    let tool = create_test_tool();
    let input = obj(vec![
        ("name", s("n")),
        ("count", num(1)),
        ("tags", JsonValue::Array(vec![JsonValue::Array(vec![s("deep")])])),
    ]);
    let result = pipeline.validate_input(&tool, input);
    let errors = result.get_errors();
    assert_eq!(errors, vec!["Error in array index 0: Maximum nesting depth exceeded".to_string()]);
}

#[test]
fn sanitized_keys_are_reported() {
    let pipeline = ValidationPipeline::new();
    let tool = Tool::new("t".to_string(), "d".to_string(), obj(vec![("type", s("object"))]));
    let result = pipeline.validate_input(&tool, obj(vec![("<k>", num(1))]));
    assert_eq!(result.get_changes(), vec!["Sanitized object key: <k> -> &lt;k&gt;".to_string()]);
    assert_eq!(result.get_value().unwrap().get("&lt;k&gt;"), Some(&num(1)));
}

#[test]
fn reordered_keys_are_reported_as_sanitized() {
    let pipeline = ValidationPipeline::new();
    let any = Tool::new("t".to_string(), "d".to_string(), obj(vec![]));
    let unordered = JsonValue::Object(vec![("b".to_string(), num(1)), ("a".to_string(), num(2))]);
    match pipeline.validate_input(&any, unordered) {
        ValidationState::Sanitized { sanitized, changes, .. } => {
            assert_eq!(sanitized, JsonValue::Object(vec![("a".to_string(), num(2)), ("b".to_string(), num(1))]));
            assert_eq!(changes, vec!["Object keys were put in order and repeated keys merged".to_string()]);
        }
        other => panic!("expected a sanitized state, got {:?}", other),
    }
    let ordered = JsonValue::Object(vec![("a".to_string(), num(2)), ("b".to_string(), num(1))]);
    assert!(matches!(pipeline.validate_input(&any, ordered), ValidationState::Valid(_)));
}
