use json_parser::{
    parse, BufferedStringReader, ByteReader, ErrorKind, JsonValue, ParserState,
    TokenType, TokenTypeRelationShips,
};

fn reader(text: &str) -> BufferedStringReader {
    BufferedStringReader::new(text.as_bytes().to_vec())
}

#[test]
fn non_string_key_is_rejected() {
    let err = parse("{1:2}").unwrap_err();
    assert_eq!(err.kind, ErrorKind::NotAllowed { prev: Some(TokenType::LeftBrace), found: TokenType::Number });
    assert_eq!(err.byte_offset, 1);
}

#[test]
fn terminator_after_comma_is_rejected() {
    let err = parse("[1,2,]").unwrap_err();
    assert_eq!(
        err.kind,
        ErrorKind::NotAllowed { prev: Some(TokenType::Comma), found: TokenType::RightSquareBracket }
    );
    assert_eq!(err.byte_offset, 5);
}

#[test]
fn second_root_value_is_rejected() {
    let err = parse("{} {}").unwrap_err();
    assert_eq!(err.kind, ErrorKind::TrailingContent);
    assert!(err.message().contains("after root value"));
}

#[test]
fn escapes_decode_to_their_characters() {
    let v = parse(r#""\n\t\"\\""#).unwrap();
    assert_eq!(v.as_str(), Some("\n\t\"\\"));
    assert_eq!(v.as_str().unwrap().chars().count(), 4);
    let c = parse(r#""\u00A9""#).unwrap();
    assert_eq!(c.as_str(), Some("\u{00A9}"));
}

#[test]
fn scalars_at_the_root() {
    assert!(parse("null").unwrap().is_null());
    assert_eq!(parse("true").unwrap().as_bool(), Some(true));
    assert_eq!(parse("false").unwrap().as_bool(), Some(false));
    let n = parse("-123.45e2").unwrap();
    assert_eq!(n.as_number_text(), Some("-123.45e2"));
    assert_eq!(n.as_number_text().unwrap().parse::<f64>().unwrap(), -12345.0);
    assert_eq!(parse("\"\"").unwrap().as_str(), Some(""));
}

#[test]
fn deep_nesting_parses() {
    let depth = 5000;
    let text = format!("{}{}", "[".repeat(depth), "]".repeat(depth));
    let mut v = parse(&text).unwrap();
    let mut levels = 0;
    loop {
        let inner = match v {
            JsonValue::Array(mut items) => items.pop(),
            _ => None,
        };
        levels += 1;
        match inner {
            Some(x) => v = x,
            None => break,
        }
    }
    assert_eq!(levels, depth);
}

#[test]
fn whitespace_between_tokens_changes_nothing() {
    let a = parse(r#"{"a":[1,true,null],"b":"x"}"#).unwrap();
    let b = parse(" \t{ \"a\" :\r\n[ 1 ,\ttrue , null ] ,\n\"b\"\t: \"x\" }\r\n").unwrap();
    assert_eq!(format!("{:?}", a), format!("{:?}", b));
}

#[test]
fn duplicate_keys_keep_the_last_value_in_the_first_place() {
    let v = parse(r#"{"k":1,"j":2,"k":3}"#).unwrap();
    let entries = v.as_object().unwrap();
    assert_eq!(entries.len(), 2);
    assert_eq!(entries[0].0, "k");
    assert_eq!(v.get("k").unwrap().as_number_text(), Some("3"));
    assert_eq!(v.get("j").unwrap().as_number_text(), Some("2"));
}

#[test]
fn each_error_kind_has_an_input() {
    assert_eq!(parse("\"abc").unwrap_err().kind, ErrorKind::UnterminatedString);
    assert_eq!(parse(r#""a\qb""#).unwrap_err().kind, ErrorKind::InvalidEscape);
    assert_eq!(parse(r#""\uD83D""#).unwrap_err().kind, ErrorKind::InvalidEscape);
    assert_eq!(parse("01").unwrap_err().kind, ErrorKind::InvalidNumber);
    assert_eq!(parse("1.").unwrap_err().kind, ErrorKind::InvalidNumber);
    assert_eq!(parse("-").unwrap_err().kind, ErrorKind::InvalidNumber);
    assert_eq!(parse("nul").unwrap_err().kind, ErrorKind::UnknownKeyword);
    assert_eq!(parse("[value]").unwrap_err().kind, ErrorKind::UnknownKeyword);
    assert_eq!(parse("+1").unwrap_err().kind, ErrorKind::UnexpectedByte);
    assert_eq!(parse("").unwrap_err().kind, ErrorKind::NotAllowed { prev: None, found: TokenType::EOF });
    assert_eq!(parse("[1").unwrap_err().kind, ErrorKind::UnexpectedEnd);
    let e = parse("[1 2]").unwrap_err();
    assert_eq!(e.kind, ErrorKind::NotAllowed { prev: Some(TokenType::Number), found: TokenType::Number });
    assert_eq!(e.byte_offset, 3);
    assert_eq!(parse("[1}").unwrap_err().kind, ErrorKind::Mismatch { found: TokenType::RightBrace });
    assert_eq!(parse("{\"a\":1,}").unwrap_err().kind, ErrorKind::NotAllowed {
        prev: Some(TokenType::Comma),
        found: TokenType::RightBrace,
    });
    assert_eq!(parse("{\"a\" 1}").unwrap_err().kind, ErrorKind::NotAllowed {
        prev: Some(TokenType::Text),
        found: TokenType::Number,
    });
    assert_eq!(parse("[\"a\":1]").unwrap_err().kind, ErrorKind::UnexpectedToken {
        state: ParserState::ExpectCommaOrEnd,
        found: TokenType::Colon,
    });
}

#[test]
fn error_messages_name_the_categories() {
    let e = parse("[1 2]").unwrap_err();
    assert_eq!(e.message(), "Token Number may not follow Number");
    assert_eq!(e.to_string(), "Parse error at position 3: Token Number may not follow Number");
    let e = parse("[\"a\":1]").unwrap_err();
    assert_eq!(e.message(), "Expected ',' or a closing bracket, found Colon");
    let e = parse(&format!("{}[1", " ".repeat(1234))).unwrap_err();
    assert_eq!(e.to_string(), "Parse error at position 1236: Unexpected end of input");
}

#[test]
fn numbers_keep_their_text() {
    for t in ["0", "-0", "10", "1.5", "1e5", "1E+5", "2.5E-4", "-123.45e2"] {
        assert_eq!(parse(t).unwrap().as_number_text(), Some(t));
    }
    for t in ["00", "1.e5", ".5", "1e", "--1", "1-"] {
        assert!(parse(t).is_err(), "{}", t);
    }
}

#[test]
fn non_ascii_text_passes_through() {
    let v = parse("[\"h\u{e9}llo \u{1F600}\"]").unwrap();
    assert_eq!(v.as_array().unwrap()[0].as_str(), Some("h\u{e9}llo \u{1F600}"));
}

#[test]
fn classifier_and_table() {
    assert_eq!(TokenType::get_token_type_from_byte(b'{'), TokenType::LeftBrace);
    assert_eq!(TokenType::get_token_type_from_byte(b'7'), TokenType::Number);
    assert_eq!(TokenType::get_token_type_from_byte(b'x'), TokenType::Text);
    assert_eq!(TokenType::get_token_type_from_byte(0xC3), TokenType::Unknown);
    assert!(TokenType::is_single_byte_token(b','));
    assert!(TokenType::is_single_byte_token(b' '));
    assert!(!TokenType::is_single_byte_token(b'-'));
    assert_eq!(
        TokenTypeRelationShips::get_allowed_next_tokens(TokenType::LeftBrace),
        vec![TokenType::Text, TokenType::RightBrace]
    );
    assert!(TokenTypeRelationShips::get_allowed_next_tokens(TokenType::EOF).is_empty());
    assert!(TokenTypeRelationShips::may_follow(None, TokenType::Null));
    assert!(!TokenTypeRelationShips::may_follow(Some(TokenType::Colon), TokenType::Comma));
}

#[test]
fn reader_offsets_count_the_bytes_handed_out() {
    let mut r = reader("ab \n cd\"ef").with_chunk_size(2);
    assert_eq!(r.offset(), 0);
    assert_eq!(r.next_byte(), Ok(b'a'));
    assert_eq!(r.offset(), 1);
    assert_eq!(r.peek_byte(), Some(b'b'));
    assert_eq!(r.offset(), 1);
    assert_eq!(r.next_chunk().unwrap(), b"b ".to_vec());
    assert_eq!(r.offset(), 3);
    r.skip_whitespace();
    assert_eq!(r.offset(), 5);
    assert_eq!(r.next_until(b'"').unwrap(), b"cd\"".to_vec());
    assert_eq!(r.offset(), 8);
    assert!(r.next_until(b'"').is_err());
    assert_eq!(r.offset(), 8);
    assert_eq!(r.next_until_any(b"x").unwrap(), b"ef".to_vec());
    assert_eq!(r.offset(), 10);
}

#[test]
fn reader_next_until_any_stops_at_first_delimiter() {
    let mut r = reader("abc,def]g");
    assert_eq!(r.next_until_any(b"],").unwrap(), b"abc,".to_vec());
    assert_eq!(r.next_until_any(b"],").unwrap(), b"def]".to_vec());
    assert_eq!(r.offset(), 8);
}

#[test]
fn reader_stays_exhausted() {
    let mut r = reader("x");
    assert_eq!(r.next_byte(), Ok(b'x'));
    for _ in 0..3 {
        assert!(r.next_byte().is_err());
        assert!(r.next_chunk().is_err());
        assert!(r.next_until(b'x').is_err());
        assert!(r.next_until_any(b"x").is_err());
        assert_eq!(r.peek_byte(), None);
        r.skip_whitespace();
        assert_eq!(r.offset(), 1);
    }
}

#[test]
fn end_of_input_repeats() {
    let mut t = json_parser::Tokenizer::from_text("[] ");
    assert_eq!(t.next_token().unwrap().token_type(), TokenType::LeftSquareBracket);
    assert_eq!(t.next_token().unwrap().token_type(), TokenType::RightSquareBracket);
    let e1 = t.next_token().unwrap();
    let e2 = t.next_token().unwrap();
    assert_eq!(e1.token_type(), TokenType::EOF);
    assert_eq!(e2.token_type(), TokenType::EOF);
    assert_eq!(e1.start_pos(), 3);
    assert_eq!(e2.start_pos(), 3);
    assert_eq!(e1.token_idx(), e2.token_idx());
}
