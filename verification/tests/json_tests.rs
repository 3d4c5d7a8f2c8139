use wikimerge::json::get_json_array;
use wikimerge::json::get_json_number;
use wikimerge::json::get_json_string;
use wikimerge::json::JsonPathElement::Key;
use wikimerge::json::JsonPathElement::Only;
use wikimerge::json::JsonValue;

use rustc_serialize::json::Json;

/// Parses with rustc_serialize and converts to the library's JSON model.
fn parse(json_str: &str) -> JsonValue {
    convert(&Json::from_str(json_str).unwrap())
}

fn convert(j: &Json) -> JsonValue {
    match j {
        Json::Null => JsonValue::Null,
        Json::Boolean(b) => JsonValue::Boolean(*b),
        Json::I64(n) => {
            if *n >= 0 {
                JsonValue::Number(*n as u64)
            } else {
                JsonValue::Null
            }
        }
        Json::U64(n) => JsonValue::Number(*n),
        Json::F64(_) => JsonValue::Null,
        Json::String(s) => JsonValue::String(s.clone()),
        Json::Array(v) => JsonValue::Array(v.iter().map(convert).collect()),
        Json::Object(o) => {
            JsonValue::Object(o.iter().map(|(k, v)| (k.clone(), convert(v))).collect())
        }
    }
}

fn assert_error_message<T: std::fmt::Debug>(result: &Result<T, String>, expected_message: &str) {
    match result {
        Ok(..) => panic!("Expected error message: \"{}\"", expected_message),
        Err(message) if message == expected_message => (),
        Err(message) => panic!("Wrong error message: \"{}\"", message),
    }
}

#[test]
fn test_doc_example() {
    let json_str = r#"{"key1": {"key2": {"key3": "val1"}},
                                "key4": "val2"}"#;
    let json = parse(json_str);
    assert_eq!(Ok("val1"), get_json_string(&json, &[Key("key1"), Key("key2"), Only]));
}

#[test]
fn test_get_json_value_key() {
    assert_eq!(Ok("val"), get_json_string(&parse("{\"key\": \"val\"}"), &[Key("key")]))
}

#[test]
fn test_get_json_value_only_with_object() {
    let json = parse("{\"key\": \"val\"}");
    let value = get_json_string(&json, &[Only]);
    assert_eq!(Ok("val"), value);
}

#[test]
fn test_get_json_value_only_with_array() {
    let json = parse("[\"val1\"]");
    let value = get_json_string(&json, &[Only]);
    assert_eq!(Ok("val1"), value);
}

#[test]
fn test_get_json_value_multiple_elements() {
    assert_eq!(
        Ok("val3"),
        get_json_string(
            &parse("{\"key1\": \"val1\", \"key2\": [{\"key3\": \"val3\"}]}"),
            &[Key("key2"), Only, Only]
        )
    )
}

#[test]
fn test_get_json_value_key_not_found() {
    assert_error_message(
        &get_json_string(&parse("{\"key\": \"val\"}"), &[Key("wrong_key")]),
        "Key wrong_key not found in (root)",
    );
}

#[test]
fn test_get_json_value_key_not_object() {
    for json in &[
        "{\"key1\": 4}",
        "{\"key1\": false}",
        "{\"key1\": \"val1\"}",
        "{\"key1\": [1, 2, 3]}",
        "{\"key1\": null}",
    ] {
        assert_error_message(
            &get_json_string(&parse(json), &[Key("key1"), Key("key2")]),
            "Asked for key key2 in (root).key1, but value is not an object",
        );
    }
}

#[test]
fn test_get_json_value_only_object_empty() {
    assert_error_message(
        &get_json_string(&parse("{\"key\": {}}"), &[Key("key"), Only]),
        "Asked for only key in (root).key, but object has 0 values",
    );
}

#[test]
fn test_get_json_value_only_object_multiple_values() {
    assert_error_message(
        &get_json_string(
            &parse("{\"key\": {\"key1\": \"val1\", \"key2\": \"val2\"}}"),
            &[Key("key"), Only],
        ),
        "Asked for only key in (root).key, but object has 2 values",
    );
}

#[test]
fn test_get_json_value_only_array_empty() {
    assert_error_message(
        &get_json_string(&parse("{\"key\": []}"), &[Key("key"), Only]),
        "Asked for only key in (root).key, but array has 0 elements",
    );
}

#[test]
fn test_get_json_value_only_array_multiple_values() {
    assert_error_message(
        &get_json_string(&parse("{\"key\": [\"val1\", \"val2\"]}"), &[Key("key"), Only]),
        "Asked for only key in (root).key, but array has 2 elements",
    );
}

#[test]
fn test_get_json_value_only_not_object_or_array() {
    for json in &["{\"key1\": 4}", "{\"key1\": false}", "{\"key1\": \"val1\"}", "{\"key1\": null}"]
    {
        assert_error_message(
            &get_json_string(&parse(json), &[Key("key1"), Only]),
            "Asked for only key in (root).key1, but value is not an object or array",
        );
    }
}

#[test]
fn test_get_json_array_wrong_type() {
    for json in &[
        "{\"key1\": 4}",
        "{\"key1\": \"val1\"}",
        "{\"key1\": false}",
        "{\"key1\": {\"key2\": \"val1\"}}",
        "{\"key1\": null}",
    ] {
        assert_error_message(
            &get_json_array(&parse(json), &[Key("key1")]),
            "Asked for array (root).key1, but value is not an array",
        );
    }
}

#[test]
fn test_get_json_number_wrong_type() {
    for json in &[
        "{\"key1\": \"val1\"}",
        "{\"key1\": false}",
        "{\"key1\": [\"val1\"]}",
        "{\"key1\": {\"key2\": \"val1\"}}",
        "{\"key1\": null}",
    ] {
        assert_error_message(
            &get_json_number(&parse(json), &[Key("key1")]),
            "Asked for number (root).key1, but value is not a number",
        );
    }
}

#[test]
fn test_get_json_string_wrong_type() {
    for json in &[
        "{\"key1\": 4}",
        "{\"key1\": false}",
        "{\"key1\": [\"val1\"]}",
        "{\"key1\": {\"key2\": \"val1\"}}",
        "{\"key1\": null}",
    ] {
        assert_error_message(
            &get_json_string(&parse(json), &[Key("key1")]),
            "Asked for string (root).key1, but value is not a string",
        );
    }
}
