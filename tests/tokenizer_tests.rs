use json_parser::{Token, TokenType, TokenValue, Tokenizer};

fn tokenize(json: &str) -> Vec<Token> {
    let mut tokenizer = Tokenizer::from_text(json);
    let mut tokens = Vec::new();
    loop {
        let t = tokenizer.next_token().expect("Tokenization failed");
        let end = t.token_type() == TokenType::EOF;
        tokens.push(t);
        if end {
            return tokens;
        }
    }
}

fn text_of(t: &Token) -> Option<String> {
    match t.value() {
        Some(TokenValue::Text(s)) | Some(TokenValue::Number(s)) => Some(s.clone()),
        Some(TokenValue::Bool(b)) => Some(b.to_string()),
        None => None,
    }
}

#[test]
fn test_tokenize_empty_object() {
    let tokens = tokenize("{}");
    assert_eq!(tokens.len(), 3);
    assert_eq!(tokens[0].token_type(), TokenType::LeftBrace);
    assert_eq!(tokens[1].token_type(), TokenType::RightBrace);
    assert_eq!(tokens[2].token_type(), TokenType::EOF);
}

#[test]
fn test_tokenize_empty_array() {
    let tokens = tokenize("[]");
    assert_eq!(tokens.len(), 3);
    assert_eq!(tokens[0].token_type(), TokenType::LeftSquareBracket);
    assert_eq!(tokens[1].token_type(), TokenType::RightSquareBracket);
    assert_eq!(tokens[2].token_type(), TokenType::EOF);
}

#[test]
fn test_tokenize_simple_object() {
    let tokens = tokenize(r#"{ "key" : "value" }"#);

    assert_eq!(tokens.len(), 6);
    assert_eq!(tokens[0].token_type(), TokenType::LeftBrace);
    assert_eq!(tokens[1].token_type(), TokenType::Text);
    assert_eq!(text_of(&tokens[1]).unwrap(), "key");
    assert_eq!(tokens[2].token_type(), TokenType::Colon);
    assert_eq!(tokens[3].token_type(), TokenType::Text);
    assert_eq!(text_of(&tokens[3]).unwrap(), "value");
    assert_eq!(tokens[4].token_type(), TokenType::RightBrace);
    assert_eq!(tokens[5].token_type(), TokenType::EOF);
}

#[test]
fn test_invalid_token() {
    let json = r#"{ "key": value }"#;
    let mut tokenizer = Tokenizer::from_text(json);

    assert!(tokenizer.next_token().is_ok());
    assert!(tokenizer.next_token().is_ok());
    assert!(tokenizer.next_token().is_ok());

    let err = tokenizer.next_token();
    assert!(err.is_err());
}

#[test]
fn test_complex_object() {
    let json = r#"{
        "name": "John Doe",
        "age": 30,
        "isStudent": false,
        "courses": ["Math", "Science"],
        "address": {
            "street": "123 Main St",
            "city": "New York"
        }
    }"#;
    let tokens = tokenize(json);

    assert_eq!(tokens[0].token_type(), TokenType::LeftBrace);
    assert_eq!(tokens[1].token_type(), TokenType::Text);
    assert_eq!(text_of(&tokens[1]).unwrap(), "name");
    assert_eq!(tokens[2].token_type(), TokenType::Colon);
    assert_eq!(tokens[3].token_type(), TokenType::Text);
    assert_eq!(text_of(&tokens[3]).unwrap(), "John Doe");
    assert_eq!(tokens[4].token_type(), TokenType::Comma);
    assert_eq!(tokens[5].token_type(), TokenType::Text);
    assert_eq!(text_of(&tokens[5]).unwrap(), "age");
    assert_eq!(tokens[6].token_type(), TokenType::Colon);
    assert_eq!(tokens[7].token_type(), TokenType::Number);
    assert_eq!(text_of(&tokens[7]).unwrap(), "30");
    assert_eq!(tokens[8].token_type(), TokenType::Comma);
    assert_eq!(tokens[9].token_type(), TokenType::Text);
    assert_eq!(text_of(&tokens[9]).unwrap(), "isStudent");
    assert_eq!(tokens[10].token_type(), TokenType::Colon);
    assert_eq!(tokens[11].token_type(), TokenType::Boolean);
    assert_eq!(text_of(&tokens[11]).unwrap(), "false");
    assert_eq!(tokens[12].token_type(), TokenType::Comma);
    assert_eq!(tokens[13].token_type(), TokenType::Text);
    assert_eq!(text_of(&tokens[13]).unwrap(), "courses");
    assert_eq!(tokens[14].token_type(), TokenType::Colon);
    assert_eq!(tokens[15].token_type(), TokenType::LeftSquareBracket);
    assert_eq!(tokens[16].token_type(), TokenType::Text);
    assert_eq!(text_of(&tokens[16]).unwrap(), "Math");
    assert_eq!(tokens[17].token_type(), TokenType::Comma);
    assert_eq!(tokens[18].token_type(), TokenType::Text);
    assert_eq!(text_of(&tokens[18]).unwrap(), "Science");
    assert_eq!(tokens[19].token_type(), TokenType::RightSquareBracket);
    assert_eq!(tokens[20].token_type(), TokenType::Comma);
    assert_eq!(tokens[21].token_type(), TokenType::Text);
    assert_eq!(text_of(&tokens[21]).unwrap(), "address");
    assert_eq!(tokens[22].token_type(), TokenType::Colon);
    assert_eq!(tokens[23].token_type(), TokenType::LeftBrace);
    assert_eq!(tokens[24].token_type(), TokenType::Text);
    assert_eq!(text_of(&tokens[24]).unwrap(), "street");
    assert_eq!(tokens[25].token_type(), TokenType::Colon);
    assert_eq!(tokens[26].token_type(), TokenType::Text);
    assert_eq!(text_of(&tokens[26]).unwrap(), "123 Main St");
    assert_eq!(tokens[27].token_type(), TokenType::Comma);
    assert_eq!(tokens[28].token_type(), TokenType::Text);
    assert_eq!(text_of(&tokens[28]).unwrap(), "city");
    assert_eq!(tokens[29].token_type(), TokenType::Colon);
    assert_eq!(tokens[30].token_type(), TokenType::Text);
    assert_eq!(text_of(&tokens[30]).unwrap(), "New York");
    assert_eq!(tokens[31].token_type(), TokenType::RightBrace);
    assert_eq!(tokens[32].token_type(), TokenType::RightBrace);
    assert_eq!(tokens[33].token_type(), TokenType::EOF);
}

#[test]
fn test_tokenize_all_types() {
    let json = r#"{
        "n": -123.45,
        "b": true,
        "z": null
    }"#;
    let tokens = tokenize(json);

    let number_token = tokens.iter().find(|t| t.token_type() == TokenType::Number).unwrap();
    assert_eq!(text_of(number_token).unwrap(), "-123.45");

    assert!(tokens.iter().all(|t| t.token_type() != TokenType::MinusSign));

    let bool_token = tokens.iter().find(|t| t.token_type() == TokenType::Boolean).unwrap();
    assert_eq!(text_of(bool_token).unwrap(), "true");

    let null_token = tokens.iter().find(|t| t.token_type() == TokenType::Null).unwrap();
    assert_eq!(null_token.token_type(), TokenType::Null);
    assert!(null_token.value().is_none());
}

#[test]
fn test_string_with_escapes() {
    let tokens = tokenize(r#""say \"hello\"""#);
    assert_eq!(tokens.len(), 2);
    assert_eq!(tokens[0].token_type(), TokenType::Text);
    assert_eq!(text_of(&tokens[0]).unwrap(), r#"say "hello""#);
}
