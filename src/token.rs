//! Tokens and their literals.
use vstd::prelude::*;
use crate::token_type::TokenType;

verus! {

/// The literal carried by a string, number or boolean token.
#[derive(Clone, Debug, PartialEq, Eq)]
pub enum TokenValue {
    /// The decoded text of a string literal.
    Text(String),
    /// The text of a number literal, as written.
    Number(String),
    Bool(bool),
}

/// The model of a token's literal.
pub enum Payload {
    Empty,
    Text(Seq<char>),
    Number(Seq<char>),
    Bool(bool),
}

pub open spec fn payload_of(v: Option<TokenValue>) -> Payload {
    match v {
        None => Payload::Empty,
        Some(TokenValue::Text(s)) => Payload::Text(s@),
        Some(TokenValue::Number(s)) => Payload::Number(s@),
        Some(TokenValue::Bool(b)) => Payload::Bool(b),
    }
}

/// Whether a literal of this shape belongs to a token of category `t`:
/// strings carry text, numbers their digits, booleans a `bool`, and every
/// other category nothing.
pub open spec fn payload_fits(t: TokenType, p: Payload) -> bool {
    match t {
        TokenType::Text => p is Text,
        TokenType::Number => p is Number,
        TokenType::Boolean => p is Bool,
        _ => p is Empty,
    }
}

/// A classified unit of input: its category, its literal, the offset of its
/// first byte, and its place in the token sequence.
pub struct Token {
    token_type: TokenType,
    value: Option<TokenValue>,
    start_pos: usize,
    token_idx: usize,
}

/// The model of a token.
pub struct SpecToken {
    pub kind: TokenType,
    pub payload: Payload,
    pub start: nat,
    pub idx: nat,
}

impl View for Token {
    type V = SpecToken;

    closed spec fn view(&self) -> SpecToken {
        SpecToken {
            kind: self.token_type,
            payload: payload_of(self.value),
            start: self.start_pos as nat,
            idx: self.token_idx as nat,
        }
    }
}

impl Token {
    /// A token without a literal.
    pub fn new(token_type: TokenType, start_pos: usize, token_idx: usize) -> (r: Self)
        requires
            payload_fits(token_type, Payload::Empty),
        ensures
            r@ == (SpecToken {
                kind: token_type,
                payload: Payload::Empty,
                start: start_pos as nat,
                idx: token_idx as nat,
            }),
    {
        Self { token_type, value: None, start_pos, token_idx }
    }

    /// A token that carries `value`.
    pub fn with_value(token_type: TokenType, start_pos: usize, token_idx: usize, value: TokenValue) -> (r: Self)
        requires
            payload_fits(token_type, payload_of(Some(value))),
        ensures
            r@ == (SpecToken {
                kind: token_type,
                payload: payload_of(Some(value)),
                start: start_pos as nat,
                idx: token_idx as nat,
            }),
    {
        Self { token_type, value: Some(value), start_pos, token_idx }
    }

    pub fn token_type(&self) -> (r: TokenType)
        ensures
            r == self@.kind,
    {
        self.token_type
    }

    pub fn start_pos(&self) -> (r: usize)
        ensures
            r == self@.start,
    {
        self.start_pos
    }

    pub fn token_idx(&self) -> (r: usize)
        ensures
            r == self@.idx,
    {
        self.token_idx
    }

    pub fn value(&self) -> (r: &Option<TokenValue>)
        ensures
            payload_of(*r) == self@.payload,
    {
        &self.value
    }

    /// Takes the literal out of the token.
    pub fn into_value(self) -> (r: Option<TokenValue>)
        ensures
            payload_of(r) == self@.payload,
    {
        self.value
    }
}

} // verus!
