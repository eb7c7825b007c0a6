//! What a failed parse reports, and the text that describes it.
use vstd::prelude::*;
use vstd::string::StringExecFns;
use crate::token_type::TokenType;
use crate::parser::ParserState;

verus! {

/// What went wrong in a parse.
#[derive(Clone, Copy, Debug, PartialEq, Eq)]
pub enum ErrorKind {
    /// A string literal has no closing quote.
    UnterminatedString,
    /// A backslash in a string literal starts no valid escape sequence.
    InvalidEscape,
    /// A string literal does not decode to valid UTF-8 text.
    InvalidText,
    /// A lexeme that starts like a number is not a well-formed number.
    InvalidNumber,
    /// A lexeme that starts with a letter is none of `true`, `false`, `null`.
    UnknownKeyword,
    /// No token starts with this byte.
    UnexpectedByte,
    /// A token of category `found` may not follow one of category `prev`
    /// (`None`: the start of the input).
    NotAllowed { prev: Option<TokenType>, found: TokenType },
    /// The parser met a token that its state does not accept.
    UnexpectedToken { state: ParserState, found: TokenType },
    /// A closing bracket or brace directly after a comma.
    TrailingComma,
    /// A closing bracket or brace that does not match the open container.
    Mismatch { found: TokenType },
    /// A token after the complete root value.
    TrailingContent,
    /// The input ended while a value was incomplete.
    UnexpectedEnd,
}

/// A failed parse: what went wrong, and the offset of the byte where the
/// offending lexeme starts.
#[derive(Clone, Copy, Debug, PartialEq, Eq)]
pub struct ParseError {
    pub kind: ErrorKind,
    pub byte_offset: usize,
}

/// The name of a token category.
pub open spec fn category_name(t: TokenType) -> Seq<char> {
    match t {
        TokenType::LeftBrace => "LeftBrace"@,
        TokenType::RightBrace => "RightBrace"@,
        TokenType::LeftSquareBracket => "LeftSquareBracket"@,
        TokenType::RightSquareBracket => "RightSquareBracket"@,
        TokenType::Number => "Number"@,
        TokenType::Colon => "Colon"@,
        TokenType::Text => "Text"@,
        TokenType::Null => "Null"@,
        TokenType::Boolean => "Boolean"@,
        TokenType::Comma => "Comma"@,
        TokenType::DoubleQuote => "DoubleQuote"@,
        TokenType::EOF => "EOF"@,
        TokenType::Point => "Point"@,
        TokenType::MinusSign => "MinusSign"@,
        TokenType::NewLine => "NewLine"@,
        TokenType::Tab => "Tab"@,
        TokenType::CarriageReturn => "CarriageReturn"@,
        TokenType::Space => "Space"@,
        TokenType::Unknown => "Unknown"@,
        TokenType::Invalid => "Invalid"@,
    }
}

/// The name of a token category.
pub fn token_type_name(t: TokenType) -> (r: &'static str)
    ensures
        r@ == category_name(t),
{
    match t {
        TokenType::LeftBrace => "LeftBrace",
        TokenType::RightBrace => "RightBrace",
        TokenType::LeftSquareBracket => "LeftSquareBracket",
        TokenType::RightSquareBracket => "RightSquareBracket",
        TokenType::Number => "Number",
        TokenType::Colon => "Colon",
        TokenType::Text => "Text",
        TokenType::Null => "Null",
        TokenType::Boolean => "Boolean",
        TokenType::Comma => "Comma",
        TokenType::DoubleQuote => "DoubleQuote",
        TokenType::EOF => "EOF",
        TokenType::Point => "Point",
        TokenType::MinusSign => "MinusSign",
        TokenType::NewLine => "NewLine",
        TokenType::Tab => "Tab",
        TokenType::CarriageReturn => "CarriageReturn",
        TokenType::Space => "Space",
        TokenType::Unknown => "Unknown",
        TokenType::Invalid => "Invalid",
    }
}

/// What the parser expects in each state.
pub open spec fn expectation(st: ParserState) -> Seq<char> {
    match st {
        ParserState::ExpectValue => "a value"@,
        ParserState::ExpectKey => "an object key or '}'"@,
        ParserState::ExpectColon => "':'"@,
        ParserState::ExpectCommaOrEnd => "',' or a closing bracket"@,
    }
}

fn expectation_text(st: ParserState) -> (r: &'static str)
    ensures
        r@ == expectation(st),
{
    match st {
        ParserState::ExpectValue => "a value",
        ParserState::ExpectKey => "an object key or '}'",
        ParserState::ExpectColon => "':'",
        ParserState::ExpectCommaOrEnd => "',' or a closing bracket",
    }
}

/// The text that describes an error of kind `k`.
pub open spec fn kind_message(k: ErrorKind) -> Seq<char> {
    match k {
        ErrorKind::UnterminatedString => "Unterminated string"@,
        ErrorKind::InvalidEscape => "Invalid escape sequence"@,
        ErrorKind::InvalidText => "String is not valid UTF-8"@,
        ErrorKind::InvalidNumber => "Invalid number"@,
        ErrorKind::UnknownKeyword => "Unknown keyword"@,
        ErrorKind::UnexpectedByte => "Unexpected byte"@,
        ErrorKind::NotAllowed { prev, found } => "Token "@ + category_name(found) + " may not follow "@ + match prev {
            Some(p) => category_name(p),
            None => "the start of input"@,
        },
        ErrorKind::UnexpectedToken { state, found } => "Expected "@ + expectation(state) + ", found "@
            + category_name(found),
        ErrorKind::TrailingComma => "Trailing comma"@,
        ErrorKind::Mismatch { found } => "Closing "@ + category_name(found) + " does not match the open container"@,
        ErrorKind::TrailingContent => "Unexpected token after root value"@,
        ErrorKind::UnexpectedEnd => "Unexpected end of input"@,
    }
}

/// The decimal digit `d`.
pub open spec fn digit_text(d: nat) -> Seq<char> {
    if d == 0 {
        "0"@
    } else     if d == 1 {
        "1"@
    } else     if d == 2 {
        "2"@
    } else     if d == 3 {
        "3"@
    } else     if d == 4 {
        "4"@
    } else     if d == 5 {
        "5"@
    } else     if d == 6 {
        "6"@
    } else     if d == 7 {
        "7"@
    } else     if d == 8 {
        "8"@
    } else {
        "9"@
    }
}

/// The decimal numeral of `n`.
pub open spec fn decimal(n: nat) -> Seq<char>
    decreases n,
{
    if n < 10 {
        digit_text(n)
    } else {
        decimal(n / 10) + digit_text(n % 10)
    }
}

fn digit_str(d: usize) -> (r: &'static str)
    requires
        d < 10,
    ensures
        r@ == digit_text(d as nat),
{
    match d {
        0 => "0",
        1 => "1",
        2 => "2",
        3 => "3",
        4 => "4",
        5 => "5",
        6 => "6",
        7 => "7",
        8 => "8",
        _ => "9",
    }
}

/// The decimal numeral of `n`.
pub fn decimal_text(n: usize) -> (r: String)
    ensures
        r@ == decimal(n as nat),
    decreases n,
{
    if n < 10 {
        String::from_str(digit_str(n))
    } else {
        let head = decimal_text(n / 10);
        head.concat(digit_str(n % 10))
    }
}

impl ParseError {
    /// The text that describes what went wrong.
    pub fn message(&self) -> (r: String)
        ensures
            r@ == kind_message(self.kind),
    {
        match self.kind {
            ErrorKind::UnterminatedString => String::from_str("Unterminated string"),
            ErrorKind::InvalidEscape => String::from_str("Invalid escape sequence"),
            ErrorKind::InvalidText => String::from_str("String is not valid UTF-8"),
            ErrorKind::InvalidNumber => String::from_str("Invalid number"),
            ErrorKind::UnknownKeyword => String::from_str("Unknown keyword"),
            ErrorKind::UnexpectedByte => String::from_str("Unexpected byte"),
            ErrorKind::NotAllowed { prev, found } => {
                let s = String::from_str("Token ").concat(token_type_name(found)).concat(" may not follow ");
                match prev {
                    Some(p) => s.concat(token_type_name(p)),
                    None => s.concat("the start of input"),
                }
            },
            ErrorKind::UnexpectedToken { state, found } => String::from_str("Expected ").concat(
                expectation_text(state),
            ).concat(", found ").concat(token_type_name(found)),
            ErrorKind::TrailingComma => String::from_str("Trailing comma"),
            ErrorKind::Mismatch { found } => String::from_str("Closing ").concat(token_type_name(found)).concat(
                " does not match the open container",
            ),
            ErrorKind::TrailingContent => String::from_str("Unexpected token after root value"),
            ErrorKind::UnexpectedEnd => String::from_str("Unexpected end of input"),
        }
    }

    /// `Parse error at position <offset>: <message>`.
    pub fn to_string(&self) -> (r: String)
        ensures
            r@ == "Parse error at position "@ + decimal(self.byte_offset as nat) + ": "@ + kind_message(self.kind),
    {
        let msg = self.message();
        String::from_str("Parse error at position ").concat(decimal_text(self.byte_offset).as_str()).concat(
            ": ",
        ).concat(msg.as_str())
    }
}

} // verus!
