//! The model of lexing: which token, or which error, a byte sequence
//! starts with, and how the tokenizer's state moves from token to token.
use vstd::prelude::*;
use vstd::utf8::*;
use crate::byte_reader::ws_len;
use crate::error::ErrorKind;
use crate::relationships::may_follow;
use crate::token::{Payload, SpecToken};
use crate::token_type::{
    TokenType, is_delimiter, is_digit, is_letter, BACKSLASH, COLON, COMMA, CR, DIGIT_0, LBRACE, LBRACKET, LF,
    MINUS, PLUS, POINT, QUOTE, RBRACE, RBRACKET, TAB,
};

verus! {

/// The length of the run of bytes at the start of `s` that ends at the
/// first delimiter.
pub open spec fn run_len(s: Seq<u8>) -> nat
    decreases s.len(),
{
    if s.len() > 0 && !is_delimiter(s[0]) {
        1 + run_len(s.drop_first())
    } else {
        0
    }
}

/// The number of backslashes directly before index `q` of `s`.
pub open spec fn backslashes_before(s: Seq<u8>, q: int) -> nat
    decreases q,
{
    if 0 < q <= s.len() && s[q - 1] == BACKSLASH {
        1 + backslashes_before(s, q - 1)
    } else {
        0
    }
}

/// Index `q` of `s` holds a quote that no backslash escapes.
pub open spec fn closes_string(s: Seq<u8>, q: int) -> bool {
    &&& 0 <= q < s.len()
    &&& s[q] == QUOTE
    &&& backslashes_before(s, q) % 2 == 0
}

/// Index `q` of `s` holds the first unescaped quote.
pub open spec fn is_string_end(s: Seq<u8>, q: int) -> bool {
    &&& closes_string(s, q)
    &&& forall|p: int| 0 <= p < q ==> !closes_string(s, p)
}

pub open spec fn is_hex(c: u8) -> bool {
    is_digit(c) || (0x61 <= c <= 0x66) || (0x41 <= c <= 0x46)
}

/// The value of a hexadecimal digit.
pub open spec fn hex_val(c: u8) -> u32 {
    if is_digit(c) {
        (c - 0x30) as u32
    } else if 0x61 <= c <= 0x66 {
        (c - 0x61 + 10) as u32
    } else {
        (c - 0x41 + 10) as u32
    }
}

/// The code point written by the four hexadecimal digits `b[0..4]`.
pub open spec fn hex4(b: Seq<u8>) -> u32 {
    (hex_val(b[0]) * 4096 + hex_val(b[1]) * 256 + hex_val(b[2]) * 16 + hex_val(b[3])) as u32
}

/// The byte that a two-byte escape `\c` stands for.
pub open spec fn simple_escape(c: u8) -> Option<u8> {
    if c == QUOTE {
        Some(QUOTE)
    } else if c == BACKSLASH {
        Some(BACKSLASH)
    } else if c == 0x2f {
        Some(0x2fu8)
    } else if c == 0x62 {
        Some(0x08u8)
    } else if c == 0x66 {
        Some(0x0cu8)
    } else if c == 0x6e {
        Some(LF)
    } else if c == 0x72 {
        Some(CR)
    } else if c == 0x74 {
        Some(TAB)
    } else {
        None
    }
}

/// A valid `\uXXXX` escape stands at the start of `b`.
pub open spec fn unicode_escape_at(b: Seq<u8>) -> bool {
    &&& b.len() >= 6
    &&& b[0] == BACKSLASH
    &&& b[1] == 0x75
    &&& is_hex(b[2]) && is_hex(b[3]) && is_hex(b[4]) && is_hex(b[5])
    &&& is_scalar(hex4(b.subrange(2, 6)))
}

/// The UTF-8 bytes that the body of a string literal stands for, or `None`
/// where a backslash starts no valid escape.
pub open spec fn unescape(b: Seq<u8>) -> Option<Seq<u8>>
    decreases b.len(),
{
    if b.len() == 0 {
        Some(seq![])
    } else if b[0] != BACKSLASH {
        match unescape(b.drop_first()) {
            Some(t) => Some(seq![b[0]] + t),
            None => None,
        }
    } else if b.len() >= 2 && simple_escape(b[1]) is Some {
        match unescape(b.skip(2)) {
            Some(t) => Some(seq![simple_escape(b[1])->Some_0] + t),
            None => None,
        }
    } else if unicode_escape_at(b) {
        match unescape(b.skip(6)) {
            Some(t) => Some(encode_scalar(hex4(b.subrange(2, 6))) + t),
            None => None,
        }
    } else {
        None
    }
}

/// The number of decimal digits in `s` from index `i` on.
pub open spec fn digits_len(s: Seq<u8>, i: int) -> nat
    decreases s.len() - i,
{
    if 0 <= i < s.len() && is_digit(s[i]) {
        1 + digits_len(s, i + 1)
    } else {
        0
    }
}

/// The index after the integer part of a number lexeme, if it has one.
pub open spec fn int_part_end(s: Seq<u8>) -> Option<int> {
    let i = if s.len() > 0 && s[0] == MINUS {
        1int
    } else {
        0int
    };
    if digits_len(s, i) == 0 {
        None
    } else if s[i] == DIGIT_0 {
        Some(i + 1)
    } else {
        Some(i + digits_len(s, i))
    }
}

/// The index after an optional fraction that starts at `i`.
pub open spec fn frac_end(s: Seq<u8>, i: int) -> Option<int> {
    if i < s.len() && s[i] == POINT {
        if digits_len(s, i + 1) == 0 {
            None
        } else {
            Some(i + 1 + digits_len(s, i + 1))
        }
    } else {
        Some(i)
    }
}

/// The index after an optional exponent that starts at `i`.
pub open spec fn exp_end(s: Seq<u8>, i: int) -> Option<int> {
    if i < s.len() && (s[i] == 0x65 || s[i] == 0x45) {
        let j = if i + 1 < s.len() && (s[i + 1] == PLUS || s[i + 1] == MINUS) {
            i + 2
        } else {
            i + 1
        };
        if digits_len(s, j) == 0 {
            None
        } else {
            Some(j + digits_len(s, j))
        }
    } else {
        Some(i)
    }
}

/// `s` is a number: an optional minus, an integer part without leading
/// zeros, an optional fraction and an optional exponent.
///
/// This is the number grammar of the format, stricter than what a parser
/// of doubles accepts: `01`, `1.`, `.5`, `+1`, `inf` and `NaN` are refused
/// here, so that every number kept is one that the format allows and that
/// any reader of the format reads alike.
pub open spec fn valid_number(s: Seq<u8>) -> bool {
    match int_part_end(s) {
        None => false,
        Some(i) => match frac_end(s, i) {
            None => false,
            Some(j) => match exp_end(s, j) {
                None => false,
                Some(k) => k == s.len(),
            },
        },
    }
}

pub open spec fn true_bytes() -> Seq<u8> {
    seq![0x74u8, 0x72u8, 0x75u8, 0x65u8]
}

pub open spec fn false_bytes() -> Seq<u8> {
    seq![0x66u8, 0x61u8, 0x6cu8, 0x73u8, 0x65u8]
}

pub open spec fn null_bytes() -> Seq<u8> {
    seq![0x6eu8, 0x75u8, 0x6cu8, 0x6cu8]
}

/// The outcome of reading one lexeme.
pub enum Lexed {
    /// A token of category `kind` with literal `payload`, `len` bytes long.
    Tok { kind: TokenType, payload: Payload, len: nat },
    Fail { error: ErrorKind },
}

/// The lexeme at the start of `s`, which holds no leading whitespace.
pub open spec fn lex_at(s: Seq<u8>) -> Lexed
    recommends
        s.len() > 0,
{
    let c = s[0];
    if c == LBRACE {
        Lexed::Tok { kind: TokenType::LeftBrace, payload: Payload::Empty, len: 1 }
    } else if c == RBRACE {
        Lexed::Tok { kind: TokenType::RightBrace, payload: Payload::Empty, len: 1 }
    } else if c == LBRACKET {
        Lexed::Tok { kind: TokenType::LeftSquareBracket, payload: Payload::Empty, len: 1 }
    } else if c == RBRACKET {
        Lexed::Tok { kind: TokenType::RightSquareBracket, payload: Payload::Empty, len: 1 }
    } else if c == COLON {
        Lexed::Tok { kind: TokenType::Colon, payload: Payload::Empty, len: 1 }
    } else if c == COMMA {
        Lexed::Tok { kind: TokenType::Comma, payload: Payload::Empty, len: 1 }
    } else if c == QUOTE {
        lex_string(s.drop_first())
    } else if is_digit(c) || c == MINUS {
        let w = s.take(run_len(s) as int);
        if valid_number(w) {
            Lexed::Tok { kind: TokenType::Number, payload: Payload::Number(decode_utf8(w)), len: w.len() }
        } else {
            Lexed::Fail { error: ErrorKind::InvalidNumber }
        }
    } else if is_letter(c) {
        let w = s.take(run_len(s) as int);
        if w == true_bytes() {
            Lexed::Tok { kind: TokenType::Boolean, payload: Payload::Bool(true), len: 4 }
        } else if w == false_bytes() {
            Lexed::Tok { kind: TokenType::Boolean, payload: Payload::Bool(false), len: 5 }
        } else if w == null_bytes() {
            Lexed::Tok { kind: TokenType::Null, payload: Payload::Empty, len: 4 }
        } else {
            Lexed::Fail { error: ErrorKind::UnknownKeyword }
        }
    } else {
        Lexed::Fail { error: ErrorKind::UnexpectedByte }
    }
}

/// A string literal whose opening quote has been read; `t` is what follows it.
pub open spec fn lex_string(t: Seq<u8>) -> Lexed {
    if exists|q: int| is_string_end(t, q) {
        let q = choose|q: int| is_string_end(t, q);
        match unescape(t.take(q)) {
            None => Lexed::Fail { error: ErrorKind::InvalidEscape },
            Some(u) => if valid_utf8(u) {
                Lexed::Tok { kind: TokenType::Text, payload: Payload::Text(decode_utf8(u)), len: (q + 2) as nat }
            } else {
                Lexed::Fail { error: ErrorKind::InvalidText }
            },
        }
    } else {
        Lexed::Fail { error: ErrorKind::UnterminatedString }
    }
}

/// The model of a tokenizer: the bytes still to read, the offset reached,
/// the category of the last token handed out and how many were handed out.
pub struct LexState {
    pub rest: Seq<u8>,
    pub pos: nat,
    pub last: Option<TokenType>,
    pub count: nat,
}

/// The outcome of asking for one token.
pub enum Step {
    Emit { tok: SpecToken, next: LexState },
    Fail { kind: ErrorKind, offset: nat },
}

/// The next token and the state after it, or the error with the offset at
/// which the offending lexeme starts.
///
/// Whitespace is skipped; an exhausted input gives an end-of-input token,
/// and once that token has been handed out, every later request gives it
/// again. A token whose category may not follow the last one is refused.
/// Every token but the end-of-input one advances the count.
pub open spec fn lex_step(st: LexState) -> Step {
    if st.last == Some(TokenType::EOF) {
        Step::Emit {
            tok: SpecToken { kind: TokenType::EOF, payload: Payload::Empty, start: st.pos, idx: st.count },
            next: st,
        }
    } else {
        let w = ws_len(st.rest);
        let s = st.rest.skip(w as int);
        let start = st.pos + w;
        let lx = if s.len() == 0 {
            Lexed::Tok { kind: TokenType::EOF, payload: Payload::Empty, len: 0 }
        } else {
            lex_at(s)
        };
        match lx {
            Lexed::Fail { error } => Step::Fail { kind: error, offset: start },
            Lexed::Tok { kind, payload, len } => if may_follow(st.last, kind) {
                Step::Emit {
                    tok: SpecToken { kind, payload, start, idx: st.count },
                    next: LexState {
                        rest: s.skip(len as int),
                        pos: start + len,
                        last: Some(kind),
                        count: if kind == TokenType::EOF {
                            st.count
                        } else {
                            st.count + 1
                        },
                    },
                }
            } else {
                Step::Fail { kind: ErrorKind::NotAllowed { prev: st.last, found: kind }, offset: start }
            },
        }
    }
}

pub proof fn lemma_run_len(s: Seq<u8>)
    ensures
        run_len(s) <= s.len(),
        forall|j: int| 0 <= j < run_len(s) ==> !is_delimiter(#[trigger] s[j]),
        run_len(s) < s.len() ==> is_delimiter(s[run_len(s) as int]),
    decreases s.len(),
{
    if s.len() > 0 && !is_delimiter(s[0]) {
        lemma_run_len(s.drop_first());
        assert forall|j: int| 0 <= j < run_len(s) implies !is_delimiter(#[trigger] s[j]) by {
            if j > 0 {
                assert(s[j] == s.drop_first()[j - 1]);
            }
        }
    }
}

pub proof fn lemma_digits(s: Seq<u8>, i: int)
    requires
        0 <= i <= s.len(),
    ensures
        i + digits_len(s, i) <= s.len(),
        forall|j: int| i <= j < i + digits_len(s, i) ==> is_digit(#[trigger] s[j]),
    decreases s.len() - i,
{
    if i < s.len() && is_digit(s[i]) {
        lemma_digits(s, i + 1);
    }
}

/// Every byte of a well-formed number is ASCII and no delimiter, and the
/// first is a digit or a minus sign.
pub proof fn lemma_valid_number_ascii(s: Seq<u8>)
    requires
        valid_number(s),
    ensures
        s.len() > 0,
        is_digit(s[0]) || s[0] == MINUS,
        forall|x: int| 0 <= x < s.len() ==> #[trigger] s[x] < 0x80 && !is_delimiter(s[x]),
{
    let i0 = if s.len() > 0 && s[0] == MINUS {
        1int
    } else {
        0int
    };
    lemma_digits(s, i0);
    let i1 = int_part_end(s)->Some_0;
    let i2 = frac_end(s, i1)->Some_0;
    if i1 < s.len() {
        lemma_digits(s, i1 + 1);
    }
    let j = if i2 + 1 < s.len() && (s[i2 + 1] == PLUS || s[i2 + 1] == MINUS) {
        i2 + 2
    } else {
        i2 + 1
    };
    if i2 < s.len() {
        lemma_digits(s, j);
    }
}

/// A sequence of ASCII bytes is valid UTF-8.
pub proof fn lemma_ascii_valid_utf8(s: Seq<u8>)
    requires
        forall|x: int| 0 <= x < s.len() ==> #[trigger] s[x] < 0x80,
    ensures
        valid_utf8(s),
    decreases s.len(),
{
    if s.len() > 0 {
        let b = s[0];
        assert((b & 0x7f) <= 0x7f) by (bit_vector);
        let rest = s.subrange(1, s.len() as int);
        assert forall|x: int| 0 <= x < rest.len() implies #[trigger] rest[x] < 0x80 by {
            assert(rest[x] == s[x + 1]);
        }
        lemma_ascii_valid_utf8(rest);
        assert(pop_first_scalar(s) == rest);
    }
}

} // verus!
