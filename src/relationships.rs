//! Which token categories may follow which.
use vstd::prelude::*;
use crate::token_type::TokenType;

verus! {

/// True for the categories that can start a value.
pub open spec fn starts_value(t: TokenType) -> bool {
    t == TokenType::LeftBrace || t == TokenType::LeftSquareBracket || t == TokenType::Text
        || t == TokenType::Number || t == TokenType::Boolean || t == TokenType::Null
}

/// The categories that may follow a token of category `t`, in table order.
pub open spec fn allowed_after(t: TokenType) -> Seq<TokenType> {
    match t {
        TokenType::LeftBrace => seq![TokenType::Text, TokenType::RightBrace],
        TokenType::LeftSquareBracket => seq![
            TokenType::LeftBrace,
            TokenType::LeftSquareBracket,
            TokenType::Text,
            TokenType::Number,
            TokenType::Boolean,
            TokenType::Null,
            TokenType::RightSquareBracket,
        ],
        TokenType::Colon | TokenType::Comma => seq![
            TokenType::LeftBrace,
            TokenType::LeftSquareBracket,
            TokenType::Text,
            TokenType::Number,
            TokenType::Boolean,
            TokenType::Null,
        ],
        TokenType::Text => seq![
            TokenType::Colon,
            TokenType::Comma,
            TokenType::RightBrace,
            TokenType::RightSquareBracket,
            TokenType::EOF,
        ],
        TokenType::RightBrace | TokenType::RightSquareBracket | TokenType::Number
        | TokenType::Boolean | TokenType::Null => seq![
            TokenType::Comma,
            TokenType::RightBrace,
            TokenType::RightSquareBracket,
            TokenType::EOF,
        ],
        _ => seq![],
    }
}

/// Whether a token of category `next` may follow one of category `prev`;
/// `None` stands for the start of the input, where only a value may begin.
pub open spec fn may_follow(prev: Option<TokenType>, next: TokenType) -> bool {
    match prev {
        None => starts_value(next),
        Some(p) => allowed_after(p).contains(next),
    }
}

/// The adjacency table between token categories.
pub struct TokenTypeRelationShips;

impl TokenTypeRelationShips {
    /// The categories that may follow a token of category `token_type`.
    pub fn get_allowed_next_tokens(token_type: TokenType) -> (r: Vec<TokenType>)
        ensures
            r@ == allowed_after(token_type),
    {
        let mut r: Vec<TokenType> = Vec::new();
        match token_type {
            TokenType::LeftBrace => {
                r.push(TokenType::Text);
                r.push(TokenType::RightBrace);
            },
            TokenType::LeftSquareBracket => {
                r.push(TokenType::LeftBrace);
                r.push(TokenType::LeftSquareBracket);
                r.push(TokenType::Text);
                r.push(TokenType::Number);
                r.push(TokenType::Boolean);
                r.push(TokenType::Null);
                r.push(TokenType::RightSquareBracket);
            },
            TokenType::Colon | TokenType::Comma => {
                r.push(TokenType::LeftBrace);
                r.push(TokenType::LeftSquareBracket);
                r.push(TokenType::Text);
                r.push(TokenType::Number);
                r.push(TokenType::Boolean);
                r.push(TokenType::Null);
            },
            TokenType::Text => {
                r.push(TokenType::Colon);
                r.push(TokenType::Comma);
                r.push(TokenType::RightBrace);
                r.push(TokenType::RightSquareBracket);
                r.push(TokenType::EOF);
            },
            TokenType::RightBrace | TokenType::RightSquareBracket | TokenType::Number
            | TokenType::Boolean | TokenType::Null => {
                r.push(TokenType::Comma);
                r.push(TokenType::RightBrace);
                r.push(TokenType::RightSquareBracket);
                r.push(TokenType::EOF);
            },
            _ => {},
        }
        assert(r@ =~= allowed_after(token_type));
        r
    }

    /// Whether `next` may follow `prev` (`None`: the start of the input),
    /// decided in constant time.
    pub fn may_follow(prev: Option<TokenType>, next: TokenType) -> (r: bool)
        ensures
            r == may_follow(prev, next),
    {
        let start = match next {
            TokenType::LeftBrace | TokenType::LeftSquareBracket | TokenType::Text
            | TokenType::Number | TokenType::Boolean | TokenType::Null => true,
            _ => false,
        };
        let close = match next {
            TokenType::Comma | TokenType::RightBrace | TokenType::RightSquareBracket
            | TokenType::EOF => true,
            _ => false,
        };
        let r = match prev {
            None => start,
            Some(TokenType::LeftBrace) => next == TokenType::Text || next == TokenType::RightBrace,
            Some(TokenType::LeftSquareBracket) => start || next == TokenType::RightSquareBracket,
            Some(TokenType::Colon) | Some(TokenType::Comma) => start,
            Some(TokenType::Text) => close || next == TokenType::Colon,
            Some(TokenType::RightBrace) | Some(TokenType::RightSquareBracket) | Some(
                TokenType::Number,
            ) | Some(TokenType::Boolean) | Some(TokenType::Null) => close,
            _ => false,
        };
        proof {
            if let Some(p) = prev {
                let s = allowed_after(p);
                if r {
                    assert(s.contains(next)) by {
                        let mut k: int = 0;
                        if s.len() > 0 {
                            assert(exists|i: int| 0 <= i < s.len() && s[i] == next);
                        }
                    };
                }
            }
        }
        r
    }
}

} // verus!
