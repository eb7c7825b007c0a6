use json_parser::{parse, JsonValue, ParseError, Parser, Tokenizer};

fn parse_str(json: &str) -> Result<JsonValue, String> {
    let tokenizer = Tokenizer::from_text(json);
    let mut parser = Parser::new(tokenizer);
    parser.parse().map_err(|e: ParseError| e.to_string())
}

#[test]
fn test_escape_sequences() {
    let json = r#"
    {
        "quote": "\"",
        "backslash": "\\",
        "slash": "\/",
        "backspace": "\b",
        "formfeed": "\f",
        "newline": "\n",
        "carriage": "\r",
        "tab": "\t",
        "unicode": "\u00A9"
    }
    "#;
    let res = parse_str(json).expect("Failed to parse");
    if res.is_object() {
        assert_eq!(res.get("quote").unwrap().as_str(), Some("\""));
        assert_eq!(res.get("backslash").unwrap().as_str(), Some("\\"));
        assert_eq!(res.get("slash").unwrap().as_str(), Some("/"));
        assert_eq!(res.get("backspace").unwrap().as_str(), Some("\x08"));
        assert_eq!(res.get("formfeed").unwrap().as_str(), Some("\x0c"));
        assert_eq!(res.get("newline").unwrap().as_str(), Some("\n"));
        assert_eq!(res.get("carriage").unwrap().as_str(), Some("\r"));
        assert_eq!(res.get("tab").unwrap().as_str(), Some("\t"));
        assert_eq!(res.get("unicode").unwrap().as_str(), Some("\u{00A9}"));
    } else {
        panic!("Expected object");
    }
}

#[test]
fn test_complex_unicode() {
    let json_bmp = r#"{ "heart": "\u2764" }"#;
    let res = parse_str(json_bmp).expect("Parsing BMP unicode failed");
    assert_eq!(res.get("heart").unwrap().as_str(), Some("\u{2764}"));
}

#[test]
fn test_trailing_comma_fail() {
    let json = r#"[1, 2,]"#;
    let res = parse_str(json);
    assert!(res.is_err());
}

#[test]
fn test_multiple_top_level_values() {
    let json = r#"{} {}"#;
    let res = parse_str(json);
    assert!(res.is_err());
    assert!(res.unwrap_err().contains("Unexpected token after root value"));
}

#[test]
fn error_display_names_offset_and_message() {
    let err = parse("{} {}").unwrap_err();
    assert_eq!(err.byte_offset, 3);
    assert_eq!(err.to_string(), "Parse error at position 3: Unexpected token after root value");
}
