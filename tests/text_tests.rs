use json_parser::{parse, to_json_text, to_pretty_json_text, JsonValue};

#[test]
fn stringify_simple_values() {
    assert_eq!(to_json_text(&JsonValue::Null), "null");
    assert_eq!(to_json_text(&JsonValue::Bool(true)), "true");
    assert_eq!(to_json_text(&JsonValue::Bool(false)), "false");
    assert_eq!(to_json_text(&JsonValue::Number("42".to_string())), "42");
    assert_eq!(to_json_text(&JsonValue::Number("3.14".to_string())), "3.14");
    assert_eq!(to_json_text(&JsonValue::String("hello".to_string())), "\"hello\"");
}

#[test]
fn stringify_array() {
    let arr = parse("[1, 2, 3]").unwrap();
    assert_eq!(to_json_text(&arr), "[1,2,3]");
}

#[test]
fn stringify_object() {
    let obj = parse(r#"{"a": 1}"#).unwrap();
    let s = to_json_text(&obj);
    assert!(s.contains("\"a\":1") || s.contains("\"a\": 1"));
}

#[test]
fn stringify_roundtrip() {
    let original = r#"{"name":"John","age":30,"active":true}"#;
    let parsed = parse(original).unwrap();
    let stringified = to_json_text(&parsed);
    let reparsed = parse(&stringified).unwrap();

    assert_eq!(parsed.get("name").unwrap().as_str(), reparsed.get("name").unwrap().as_str());
    assert_eq!(
        parsed.get("age").unwrap().as_number_text(),
        reparsed.get("age").unwrap().as_number_text()
    );
    assert_eq!(parsed.get("active").unwrap().as_bool(), reparsed.get("active").unwrap().as_bool());
}

#[test]
fn stringify_escapes_special_chars() {
    let val = JsonValue::String("hello\nworld\ttab".to_string());
    let s = to_json_text(&val);
    assert_eq!(s, "\"hello\\nworld\\ttab\"");
}

#[test]
fn text_of_nested_value_is_compact() {
    let text = " { \"a\" : [ 1 , { \"b\" : null } , \"x\\\"y\" ] , \"c\" : -0.5e3 } ";
    let v = parse(text).unwrap();
    assert_eq!(to_json_text(&v), r#"{"a":[1,{"b":null},"x\"y"],"c":-0.5e3}"#);
}

#[test]
fn control_characters_are_escaped() {
    let s = JsonValue::String("q\"b\\s/\u{8}\u{c}\r\u{1}\u{1f}\u{e9}".to_string());
    assert_eq!(to_json_text(&s), "\"q\\\"b\\\\s/\\b\\f\\r\\u0001\\u001f\u{e9}\"");
}

#[test]
fn parse_of_text_gives_the_value_back() {
    let s = "tab\there \"quoted\" back\\slash \u{1} \u{2764}".to_string();
    let v = JsonValue::Array(vec![
        JsonValue::String(s.clone()),
        JsonValue::Object(vec![
            ("k".to_string(), JsonValue::Number("-12.5E+3".to_string())),
            (s.clone(), JsonValue::Null),
        ]),
        JsonValue::Array(vec![]),
        JsonValue::Object(vec![]),
        JsonValue::Bool(false),
    ]);
    let back = parse(&to_json_text(&v)).unwrap();
    assert_eq!(format!("{:?}", back), format!("{:?}", v));
}

#[test]
fn stringify_pretty_object() {
    let obj = parse(r#"{"name": "John", "age": 30}"#).unwrap();
    let pretty = to_pretty_json_text(&obj);
    assert!(pretty.contains('\n'));
    assert!(pretty.contains("  "));
}

#[test]
fn pretty_text_indents_two_spaces_per_level() {
    let v = parse(r#"{"a":[1,{"b":[]}],"c":{}}"#).unwrap();
    assert_eq!(
        to_pretty_json_text(&v),
        "{\n  \"a\": [\n    1,\n    {\n      \"b\": []\n    }\n  ],\n  \"c\": {}\n}"
    );
    assert_eq!(to_pretty_json_text(&JsonValue::Null), "null");
    let back = parse(&to_pretty_json_text(&v)).unwrap();
    assert_eq!(format!("{:?}", back), format!("{:?}", v));
}

#[test]
fn json_value_display() {
    let obj = parse(r#"{"key": "value"}"#).unwrap();
    let display = to_json_text(&obj);
    assert!(display.contains("\"key\""));
    assert!(display.contains("\"value\""));
}

#[test]
fn json_value_from_types() {
    let bool_val: JsonValue = true.into();
    assert_eq!(bool_val.as_bool(), Some(true));

    let num_val: JsonValue = 42i32.into();
    assert_eq!(num_val.as_number_text().and_then(|t| t.parse::<f64>().ok()), Some(42.0));

    let str_val: JsonValue = "hello".into();
    assert_eq!(str_val.as_str(), Some("hello"));

    let neg: JsonValue = (-2147483648i32).into();
    assert_eq!(neg.as_number_text(), Some("-2147483648"));
}
