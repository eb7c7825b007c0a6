//! Token categories and the classification of single bytes.
use vstd::prelude::*;

verus! {

/// Byte values of the characters that the format gives a meaning to.
pub const LBRACE: u8 = 0x7b;
pub const RBRACE: u8 = 0x7d;
pub const LBRACKET: u8 = 0x5b;
pub const RBRACKET: u8 = 0x5d;
pub const COLON: u8 = 0x3a;
pub const COMMA: u8 = 0x2c;
pub const QUOTE: u8 = 0x22;
pub const BACKSLASH: u8 = 0x5c;
pub const MINUS: u8 = 0x2d;
pub const PLUS: u8 = 0x2b;
pub const POINT: u8 = 0x2e;
pub const SPACE: u8 = 0x20;
pub const TAB: u8 = 0x09;
pub const LF: u8 = 0x0a;
pub const CR: u8 = 0x0d;
pub const DIGIT_0: u8 = 0x30;
pub const DIGIT_9: u8 = 0x39;

/// The category of a byte, and of a token.
///
/// The structural, literal and end-of-input variants tag tokens; the others
/// only describe single bytes met while scanning.
#[derive(Clone, Copy, Debug, PartialEq, Eq, Structural)]
pub enum TokenType {
    LeftBrace,
    RightBrace,
    LeftSquareBracket,
    RightSquareBracket,
    Number,
    Colon,
    Text,
    Null,
    Boolean,
    Comma,
    DoubleQuote,
    EOF,
    Point,
    MinusSign,
    NewLine,
    Tab,
    CarriageReturn,
    Space,
    Unknown,
    Invalid,
}

pub open spec fn is_digit(c: u8) -> bool {
    DIGIT_0 <= c <= DIGIT_9
}

pub open spec fn is_letter(c: u8) -> bool {
    (0x61 <= c <= 0x7a) || (0x41 <= c <= 0x5a)
}

pub open spec fn is_whitespace(c: u8) -> bool {
    c == SPACE || c == TAB || c == LF || c == CR
}

pub open spec fn is_structural(c: u8) -> bool {
    c == LBRACE || c == RBRACE || c == LBRACKET || c == RBRACKET || c == COLON || c == COMMA
}

/// A byte that ends a number or keyword lexeme.
pub open spec fn is_delimiter(c: u8) -> bool {
    is_structural(c) || is_whitespace(c)
}

/// The category of a single byte.
pub open spec fn byte_class(c: u8) -> TokenType {
    if is_digit(c) {
        TokenType::Number
    } else if c == LBRACE {
        TokenType::LeftBrace
    } else if c == RBRACE {
        TokenType::RightBrace
    } else if c == LBRACKET {
        TokenType::LeftSquareBracket
    } else if c == RBRACKET {
        TokenType::RightSquareBracket
    } else if c == POINT {
        TokenType::Point
    } else if c == COLON {
        TokenType::Colon
    } else if c == COMMA {
        TokenType::Comma
    } else if c == MINUS {
        TokenType::MinusSign
    } else if c == QUOTE {
        TokenType::DoubleQuote
    } else if c == LF {
        TokenType::NewLine
    } else if c == TAB {
        TokenType::Tab
    } else if c == CR {
        TokenType::CarriageReturn
    } else if c == SPACE {
        TokenType::Space
    } else if c <= 0x7f {
        TokenType::Text
    } else {
        TokenType::Unknown
    }
}

impl TokenType {
    /// Classifies one byte.
    pub fn get_token_type_from_byte(c: u8) -> (r: TokenType)
        ensures
            r == byte_class(c),
    {
        if c >= DIGIT_0 && c <= DIGIT_9 {
            TokenType::Number
        } else if c == LBRACE {
            TokenType::LeftBrace
        } else if c == RBRACE {
            TokenType::RightBrace
        } else if c == LBRACKET {
            TokenType::LeftSquareBracket
        } else if c == RBRACKET {
            TokenType::RightSquareBracket
        } else if c == POINT {
            TokenType::Point
        } else if c == COLON {
            TokenType::Colon
        } else if c == COMMA {
            TokenType::Comma
        } else if c == MINUS {
            TokenType::MinusSign
        } else if c == QUOTE {
            TokenType::DoubleQuote
        } else if c == LF {
            TokenType::NewLine
        } else if c == TAB {
            TokenType::Tab
        } else if c == CR {
            TokenType::CarriageReturn
        } else if c == SPACE {
            TokenType::Space
        } else if c <= 0x7f {
            TokenType::Text
        } else {
            TokenType::Unknown
        }
    }

    /// True for the bytes that are a token by themselves or separate tokens:
    /// structural punctuation and whitespace.
    pub fn is_single_byte_token(c: u8) -> (r: bool)
        ensures
            r == is_delimiter(c),
    {
        c == LBRACE || c == RBRACE || c == LBRACKET || c == RBRACKET || c == COLON || c == COMMA
            || Self::is_whitespace_byte(c)
    }

    /// True for space, tab, line feed and carriage return.
    pub fn is_whitespace_byte(c: u8) -> (r: bool)
        ensures
            r == is_whitespace(c),
    {
        c == SPACE || c == TAB || c == LF || c == CR
    }
}

} // verus!
