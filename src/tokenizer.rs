//! The tokenizer: one validated token per call, proved against the
//! model of lexing.
use vstd::prelude::*;
use vstd::slice::slice_to_vec;
use vstd::string::StringSliceAdditionalSpecFns;
use vstd::utf8::decode_utf8;
use crate::byte_reader::{ByteReader, ByteReaderModel, lemma_ws_len_bound, peek_next, read_byte, skip_ws};
use crate::error::{ErrorKind, ParseError};
use crate::lexical::{
    LexState, Lexed, Step, false_bytes, is_string_end, lemma_ascii_valid_utf8, lemma_run_len,
    lemma_valid_number_ascii, lex_at, lex_step, null_bytes, true_bytes,
};
use crate::relationships::{TokenTypeRelationShips, may_follow};
use crate::scan::{is_valid_number, read_run, read_string_raw, unescape_bytes, utf8_to_string};
use crate::string_reader::BufferedStringReader;
use crate::token::{Token, TokenValue, payload_of};
use crate::token_type::{TokenType, COLON, COMMA, LBRACE, LBRACKET, MINUS, QUOTE, RBRACE, RBRACKET};

verus! {

/// Reads the lexeme at the front of `reader`, which holds no leading
/// whitespace and at least one byte.
fn lex_lexeme<R: ByteReader>(reader: &mut R) -> (r: Result<(TokenType, Option<TokenValue>), ErrorKind>)
    requires
        old(reader).inv(),
        old(reader).remaining().len() > 0,
    ensures
        final(reader).inv(),
        final(reader).chunk_len() == old(reader).chunk_len(),
        final(reader).pos() >= old(reader).pos(),
        match lex_at(old(reader).remaining()) {
            Lexed::Tok { kind, payload, len } => {
                &&& r is Ok
                &&& r->Ok_0.0 == kind
                &&& payload_of(r->Ok_0.1) == payload
                &&& len <= old(reader).remaining().len()
                &&& final(reader).remaining() == old(reader).remaining().skip(len as int)
                &&& final(reader).pos() == old(reader).pos() + len
            },
            Lexed::Fail { error } => r == Err::<(TokenType, Option<TokenValue>), ErrorKind>(error),
        },
{
    let ghost s = reader.remaining();
    let c = match peek_next(reader) {
        Some(c) => c,
        None => {
            return Err(ErrorKind::UnexpectedByte);
        },
    };
    let single = if c == LBRACE {
        Some(TokenType::LeftBrace)
    } else if c == RBRACE {
        Some(TokenType::RightBrace)
    } else if c == LBRACKET {
        Some(TokenType::LeftSquareBracket)
    } else if c == RBRACKET {
        Some(TokenType::RightSquareBracket)
    } else if c == COLON {
        Some(TokenType::Colon)
    } else if c == COMMA {
        Some(TokenType::Comma)
    } else {
        None
    };
    if let Some(kind) = single {
        let _ = read_byte(reader);
        assert(s.drop_first() =~= s.skip(1));
        return Ok((kind, None));
    }
    if c == QUOTE {
        let _ = read_byte(reader);
        let ghost t = s.drop_first();
        let raw = match read_string_raw(reader) {
            Some(raw) => raw,
            None => {
                return Err(ErrorKind::UnterminatedString);
            },
        };
        let n = raw.len() - 1;
        proof {
            let q = choose|q: int| is_string_end(t, q);
            assert(is_string_end(t, n as int));
            assert(q == n);
            assert(raw@.take(n as int) =~= t.take(n as int));
            assert(reader.remaining() =~= s.skip(n + 2));
        }
        let bytes = match unescape_bytes(&raw, n) {
            Some(bytes) => bytes,
            None => {
                return Err(ErrorKind::InvalidEscape);
            },
        };
        return match utf8_to_string(bytes) {
            Some(text) => Ok((TokenType::Text, Some(TokenValue::Text(text)))),
            None => Err(ErrorKind::InvalidText),
        };
    }
    if TokenType::get_token_type_from_byte(c) == TokenType::Number || c == MINUS {
        let w = read_run(reader);
        proof {
            lemma_run_len(s);
        }
        if !is_valid_number(&w) {
            return Err(ErrorKind::InvalidNumber);
        }
        proof {
            lemma_valid_number_ascii(w@);
            lemma_ascii_valid_utf8(w@);
        }
        let ghost wv = w@;
        let text = utf8_to_string(w);
        return match text {
            Some(text) => {
                assert(text@ == decode_utf8(wv));
                Ok((TokenType::Number, Some(TokenValue::Number(text))))
            },
            None => Err(ErrorKind::InvalidNumber),
        };
    }
    if (c >= 0x61 && c <= 0x7a) || (c >= 0x41 && c <= 0x5a) {
        let w = read_run(reader);
        proof {
            lemma_run_len(s);
        }
        if w.len() == 4 && w[0] == 0x74 && w[1] == 0x72 && w[2] == 0x75 && w[3] == 0x65 {
            assert(w@ =~= true_bytes());
            return Ok((TokenType::Boolean, Some(TokenValue::Bool(true))));
        }
        if w.len() == 5 && w[0] == 0x66 && w[1] == 0x61 && w[2] == 0x6c && w[3] == 0x73 && w[4] == 0x65 {
            assert(w@ =~= false_bytes());
            return Ok((TokenType::Boolean, Some(TokenValue::Bool(false))));
        }
        if w.len() == 4 && w[0] == 0x6e && w[1] == 0x75 && w[2] == 0x6c && w[3] == 0x6c {
            assert(w@ =~= null_bytes());
            return Ok((TokenType::Null, None));
        }
        return Err(ErrorKind::UnknownKeyword);
    }
    Err(ErrorKind::UnexpectedByte)
}

/// Turns the bytes of a [`ByteReader`] into validated tokens, one per call.
pub struct Tokenizer<R> {
    reader: R,
    last_token: Option<TokenType>,
    token_count: usize,
}

impl<R: ByteReader> Tokenizer<R> {
    /// The model of this tokenizer.
    pub closed spec fn state(&self) -> LexState {
        LexState {
            rest: self.reader.remaining(),
            pos: self.reader.pos() as nat,
            last: self.last_token,
            count: self.token_count as nat,
        }
    }

    pub closed spec fn wf(&self) -> bool {
        &&& self.reader.inv()
        &&& self.token_count <= self.reader.pos()
        &&& self.last_token == Some(TokenType::EOF) ==> self.reader.remaining().len() == 0
    }

    /// A tokenizer at the start of what `reader` holds.
    pub fn new(reader: R) -> (r: Self)
        requires
            reader.inv(),
        ensures
            r.wf(),
            r.state() == (LexState {
                rest: reader.remaining(),
                pos: reader.pos() as nat,
                last: None,
                count: 0,
            }),
    {
        Self { reader, last_token: None, token_count: 0 }
    }

    /// The reader this tokenizer reads from.
    pub fn reader(&self) -> (r: &R)
        ensures
            r.remaining() == self.state().rest,
            r.pos() == self.state().pos,
    {
        &self.reader
    }

    /// Whether a token of category `token_type` may come next.
    pub fn validate_token_seq(&self, token_type: TokenType) -> (r: bool)
        ensures
            r == may_follow(self.state().last, token_type),
    {
        TokenTypeRelationShips::may_follow(self.last_token, token_type)
    }

    /// The next token, or the error at the lexeme where reading failed.
    pub fn next_token(&mut self) -> (r: Result<Token, ParseError>)
        requires
            old(self).wf(),
        ensures
            final(self).wf(),
            match lex_step(old(self).state()) {
                Step::Emit { tok, next } => {
                    &&& r is Ok
                    &&& r->Ok_0@ == tok
                    &&& final(self).state() == next
                },
                Step::Fail { kind, offset } => {
                    &&& r is Err
                    &&& r->Err_0.kind == kind
                    &&& r->Err_0.byte_offset == offset
                },
            },
    {
        if let Some(TokenType::EOF) = self.last_token {
            let at = self.reader.offset();
            return Ok(Token::new(TokenType::EOF, at, self.token_count));
        }
        let ghost rest0 = self.reader.remaining();
        proof {
            lemma_ws_len_bound(rest0);
        }
        skip_ws(&mut self.reader);
        let start = self.reader.offset();
        let ghost s = self.reader.remaining();
        let lexed = match peek_next(&mut self.reader) {
            None => Ok((TokenType::EOF, None)),
            Some(_) => lex_lexeme(&mut self.reader),
        };
        match lexed {
            Err(kind) => Err(ParseError { kind, byte_offset: start }),
            Ok((kind, value)) => {
                proof {
                    if s.len() == 0 {
                        assert(s.skip(0) =~= s);
                    }
                }
                if !self.validate_token_seq(kind) {
                    return Err(
                        ParseError {
                            kind: ErrorKind::NotAllowed { prev: self.last_token, found: kind },
                            byte_offset: start,
                        },
                    );
                }
                let idx = self.token_count;
                self.last_token = Some(kind);
                if kind != TokenType::EOF {
                    self.token_count = self.token_count + 1;
                }
                match value {
                    None => Ok(Token::new(kind, start, idx)),
                    Some(v) => Ok(Token::with_value(kind, start, idx, v)),
                }
            },
        }
    }
}

impl Tokenizer<BufferedStringReader> {
    /// A tokenizer over the bytes of `text`.
    pub fn from_text(text: &str) -> (r: Self)
        ensures
            r.wf(),
            r.state() == (LexState { rest: text.spec_bytes(), pos: 0, last: None, count: 0 }),
    {
        let bytes = slice_to_vec(text.as_bytes());
        Tokenizer::new(BufferedStringReader::new(bytes))
    }
}

} // verus!
