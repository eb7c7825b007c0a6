//! Parsing the text of a value gives the value back.
use vstd::prelude::*;
use vstd::utf8::*;
use crate::byte_reader::ws_len;
use crate::lexical::{
    LexState, Lexed, Step, closes_string, false_bytes, is_string_end, lemma_valid_number_ascii,
    lex_at, lex_step, lex_string, null_bytes, run_len, true_bytes, valid_number,
};
use crate::parser::{
    Frame, PState, PStep, fold, initial_pstate, lemma_lex_step_progress, obj_insert, parse_bytes,
    parse_run, pstep, ParserState,
};
use crate::token::Payload;
use crate::token_type::{
    TokenType, is_delimiter, is_whitespace, COLON, COMMA, LBRACE, LBRACKET, QUOTE, RBRACE, RBRACKET,
};
use crate::text::{
    lemma_compact_text_valid, compact_text, entries_text, escape, items_text,
    lemma_backslashes_prefix, lemma_escape_quotes, lemma_unescape_escape, string_text,
};
use crate::laws::{all_whitespace, lemma_whitespace_before_token};
use crate::text::{deeper, pretty_entries, pretty_items, pretty_text, lemma_pretty_text_valid, all_ascii};
use crate::token_type::{LF, SPACE};
use crate::value::JValue;

verus! {

/// A value whose numbers are well formed and whose objects hold each key
/// once.
pub open spec fn well_formed_value(v: JValue) -> bool
    decreases v,
{
    match v {
        JValue::Number(s) => valid_number(encode_utf8(s)),
        JValue::Array(items) => forall|i: int| 0 <= i < items.len() ==> well_formed_value(#[trigger] items[i]),
        JValue::Object(e) => {
            &&& forall|i: int, j: int| 0 <= i < j < e.len() ==> (#[trigger] e[i]).0 != (#[trigger] e[j]).0
            &&& forall|i: int|
                0 <= i < e.len() ==> well_formed_value((#[trigger] e[i]).1)
        },
        _ => true,
    }
}

/// The token category of a scalar value.
pub open spec fn scalar_kind(v: JValue) -> TokenType {
    match v {
        JValue::Null => TokenType::Null,
        JValue::Bool(_) => TokenType::Boolean,
        JValue::Number(_) => TokenType::Number,
        _ => TokenType::Text,
    }
}

/// The literal of the token of a scalar value.
pub open spec fn scalar_payload(v: JValue) -> Payload {
    match v {
        JValue::Bool(b) => Payload::Bool(b),
        JValue::Number(s) => Payload::Number(s),
        JValue::Str(s) => Payload::Text(s),
        _ => Payload::Empty,
    }
}

pub open spec fn is_scalar_value(v: JValue) -> bool {
    !(v is Array) && !(v is Object)
}

/// `tail` may follow a number or keyword without joining it.
pub open spec fn ends_lexeme(tail: Seq<u8>) -> bool {
    tail.len() == 0 || is_delimiter(tail[0])
}

/// The tokenizer's count of tokens changes no outcome.
proof fn lemma_count_irrelevant(ls: LexState, ps: PState, c: nat)
    ensures
        parse_run(ls, ps) == parse_run(LexState { rest: ls.rest, pos: ls.pos, last: ls.last, count: c }, ps),
    decreases ls.rest.len(),
{
    let ls2 = LexState { rest: ls.rest, pos: ls.pos, last: ls.last, count: c };
    lemma_lex_step_progress(ls);
    if let Step::Emit { tok, next } = lex_step(ls) {
        if let PStep::Go { next: ps2 } = pstep(ps, tok.kind, tok.payload) {
            if next.rest.len() < ls.rest.len() {
                let next2 = lex_step(ls2)->Emit_next;
                lemma_count_irrelevant(next, ps2, next2.count);
            }
        }
    }
}

proof fn lemma_run_len_exact(w: Seq<u8>, tail: Seq<u8>)
    requires
        forall|i: int| 0 <= i < w.len() ==> !is_delimiter(#[trigger] w[i]),
        ends_lexeme(tail),
    ensures
        run_len(w + tail) == w.len(),
    decreases w.len(),
{
    if w.len() > 0 {
        let t = w.drop_first();
        assert((w + tail).drop_first() =~= t + tail);
        assert forall|i: int| 0 <= i < t.len() implies !is_delimiter(#[trigger] t[i]) by {
            assert(t[i] == w[i + 1]);
        }
        assert(!is_delimiter((w + tail)[0]));
        lemma_run_len_exact(t, tail);
    } else {
        assert(w + tail =~= tail);
    }
}

proof fn lemma_keyword(k: Seq<u8>, tail: Seq<u8>)
    requires
        k == null_bytes() || k == true_bytes() || k == false_bytes(),
        ends_lexeme(tail),
    ensures
        (k + tail).take(run_len(k + tail) as int) == k,
        (k + tail)[0] == k[0],
{
    assert forall|i: int| 0 <= i < k.len() implies !is_delimiter(#[trigger] k[i]) by {}
    lemma_run_len_exact(k, tail);
    assert((k + tail).take(k.len() as int) =~= k);
}

/// How a scalar's text followed by `tail` is read: one token of the
/// scalar's category and literal that spans its text.
proof fn lemma_lex_scalar(v: JValue, tail: Seq<u8>)
    requires
        well_formed_value(v),
        is_scalar_value(v),
        ends_lexeme(tail),
    ensures
        compact_text(v).len() > 0,
        !is_whitespace(compact_text(v)[0]),
        lex_at(compact_text(v) + tail) == (Lexed::Tok {
            kind: scalar_kind(v),
            payload: scalar_payload(v),
            len: compact_text(v).len(),
        }),
{
    let r = compact_text(v);
    let s = r + tail;
    match v {
        JValue::Null => {
            lemma_keyword(null_bytes(), tail);
        },
        JValue::Bool(b) => {
            if b {
                lemma_keyword(true_bytes(), tail);
            } else {
                lemma_keyword(false_bytes(), tail);
            }
        },
        JValue::Number(n) => {
            let e = encode_utf8(n);
            lemma_valid_number_ascii(e);
            lemma_run_len_exact(e, tail);
            assert(s.take(e.len() as int) =~= e);
            encode_utf8_decode_utf8(n);
            assert(s[0] == e[0]);
        },
        JValue::Str(t) => {
            let e = encode_utf8(t);
            let x = escape(e);
            let u = s.drop_first();
            assert(u =~= x + seq![QUOTE] + tail);
            let q = x.len() as int;
            assert(u[q] == QUOTE);
            lemma_escape_quotes(e);
            lemma_backslashes_prefix(x, seq![QUOTE] + tail, q);
            assert(u =~= x + (seq![QUOTE] + tail));
            assert(closes_string(u, q));
            assert forall|p: int| 0 <= p < q implies !closes_string(u, p) by {
                assert(u[p] == x[p]);
                if x[p] == QUOTE {
                    lemma_backslashes_prefix(x, seq![QUOTE] + tail, p);
                }
            }
            assert(is_string_end(u, q));
            let c = choose|c: int| is_string_end(u, c);
            assert(c == q);
            assert(u.take(q) =~= x);
            lemma_unescape_escape(e);
            encode_utf8_valid_utf8(t);
            encode_utf8_decode_utf8(t);
            assert(lex_string(u) == Lexed::Tok { kind: TokenType::Text, payload: Payload::Text(t), len: (q + 2) as nat });
            assert(s[0] == QUOTE);
        },
        _ => {},
    }
}

/// The category of a one-byte token.
pub open spec fn punct_kind(b: u8) -> TokenType {
    if b == LBRACE {
        TokenType::LeftBrace
    } else if b == RBRACE {
        TokenType::RightBrace
    } else if b == LBRACKET {
        TokenType::LeftSquareBracket
    } else if b == RBRACKET {
        TokenType::RightSquareBracket
    } else if b == COLON {
        TokenType::Colon
    } else {
        TokenType::Comma
    }
}

/// Reading a one-byte token that the parser accepts.
proof fn lemma_punct(b: u8, rest: Seq<u8>, pos: nat, last: Option<TokenType>, count: nat, ps: PState)
    requires
        b == LBRACE || b == RBRACE || b == LBRACKET || b == RBRACKET || b == COLON || b == COMMA,
        last != Some(TokenType::EOF),
        crate::relationships::may_follow(last, punct_kind(b)),
        pstep(ps, punct_kind(b), Payload::Empty) is Go,
    ensures
        parse_run(LexState { rest: seq![b] + rest, pos, last, count }, ps) == parse_run(
            LexState { rest, pos: pos + 1, last: Some(punct_kind(b)), count },
            pstep(ps, punct_kind(b), Payload::Empty)->Go_next,
        ),
{
    let s = seq![b] + rest;
    assert(ws_len(s) == 0);
    assert(s.skip(0) =~= s);
    assert(s.skip(1) =~= rest);
    assert(lex_at(s) == Lexed::Tok { kind: punct_kind(b), payload: Payload::Empty, len: 1 });
    let next = LexState { rest, pos: pos + 1, last: Some(punct_kind(b)), count: count + 1 };
    lemma_count_irrelevant(next, pstep(ps, punct_kind(b), Payload::Empty)->Go_next, count);
}

/// Reading the one token of a scalar value that the parser accepts.
proof fn lemma_scalar_token(v: JValue, rest: Seq<u8>, pos: nat, last: Option<TokenType>, count: nat, ps: PState)
    requires
        well_formed_value(v),
        is_scalar_value(v),
        ends_lexeme(rest),
        last != Some(TokenType::EOF),
        crate::relationships::may_follow(last, scalar_kind(v)),
        pstep(ps, scalar_kind(v), scalar_payload(v)) is Go,
    ensures
        parse_run(LexState { rest: compact_text(v) + rest, pos, last, count }, ps) == parse_run(
            LexState { rest, pos: pos + compact_text(v).len(), last: Some(scalar_kind(v)), count },
            pstep(ps, scalar_kind(v), scalar_payload(v))->Go_next,
        ),
{
    let r = compact_text(v);
    lemma_lex_scalar(v, rest);
    assert(ws_len(r + rest) == 0);
    assert((r + rest).skip(0) =~= r + rest);
    assert((r + rest).skip(r.len() as int) =~= rest);
    let next = LexState { rest, pos: pos + r.len(), last: Some(scalar_kind(v)), count: count + 1 };
    lemma_count_irrelevant(next, pstep(ps, scalar_kind(v), scalar_payload(v))->Go_next, count);
}

/// The category of the first token of a value's text.
pub open spec fn start_kind(v: JValue) -> TokenType {
    match v {
        JValue::Array(_) => TokenType::LeftSquareBracket,
        JValue::Object(_) => TokenType::LeftBrace,
        _ => scalar_kind(v),
    }
}

/// The category of the last token of a value's text.
pub open spec fn end_kind(v: JValue) -> TokenType {
    match v {
        JValue::Array(_) => TokenType::RightSquareBracket,
        JValue::Object(_) => TokenType::RightBrace,
        _ => scalar_kind(v),
    }
}

/// The parser state once the value `v` is complete in state `ps`.
pub open spec fn after(ps: PState, v: JValue) -> PState {
    PState { stack: fold(ps.stack, ps.root, v).0, mode: ParserState::ExpectCommaOrEnd, root: fold(ps.stack, ps.root, v).1 }
}

/// Reading the text of a value, from a state that expects a value, folds
/// that value into the parser state.
proof fn lemma_value(v: JValue, tail: Seq<u8>, pos: nat, last: Option<TokenType>, count: nat, ps: PState)
    requires
        well_formed_value(v),
        ends_lexeme(tail),
        last != Some(TokenType::EOF),
        crate::relationships::may_follow(last, start_kind(v)),
        ps.mode == ParserState::ExpectValue,
    ensures
        parse_run(LexState { rest: compact_text(v) + tail, pos, last, count }, ps) == parse_run(
            LexState { rest: tail, pos: pos + compact_text(v).len(), last: Some(end_kind(v)), count },
            after(ps, v),
        ),
    decreases v,
{
    let r = compact_text(v);
    let ls = LexState { rest: r + tail, pos, last, count };
    match v {
        JValue::Array(items) => {
            let inner = items_text(items) + seq![RBRACKET] + tail;
            assert(r + tail =~= seq![LBRACKET] + inner);
            assert(ws_len(r + tail) == 0);
            assert((r + tail).skip(0) =~= r + tail);
            assert((r + tail).skip(1) =~= inner);
            let ps1 = PState { stack: ps.stack.push(Frame::Arr { items: seq![] }), mode: ParserState::ExpectValue, root: ps.root };
            let ls1 = LexState { rest: inner, pos: pos + 1, last: Some(TokenType::LeftSquareBracket), count: count + 1 };
            assert(parse_run(ls, ps) == parse_run(ls1, ps1));
            lemma_count_irrelevant(ls1, ps1, count);
            let ls1c = LexState { rest: inner, pos: pos + 1, last: Some(TokenType::LeftSquareBracket), count };
            if items.len() == 0 {
                assert(items =~= seq![]);
                assert(inner =~= seq![RBRACKET] + tail);
                assert(ws_len(inner) == 0);
                assert(inner.skip(0) =~= inner);
                assert(inner.skip(1) =~= tail);
                assert(ps1.stack.drop_last() =~= ps.stack);
                let ls2 = LexState { rest: tail, pos: pos + 2, last: Some(TokenType::RightSquareBracket), count: count + 1 };
                assert(parse_run(ls1c, ps1) == parse_run(ls2, after(ps, v)));
                lemma_count_irrelevant(ls2, after(ps, v), count);
            } else {
                assert(seq![] + items =~= items);
                lemma_items(items, seq![], tail, pos + 1, Some(TokenType::LeftSquareBracket), count, ps.stack, ps.root);
                assert(ps1.stack =~= ps.stack.push(Frame::Arr { items: seq![] }));
            }
        },
        JValue::Object(e) => {
            let inner = entries_text(e) + seq![RBRACE] + tail;
            assert(r + tail =~= seq![LBRACE] + inner);
            assert(ws_len(r + tail) == 0);
            assert((r + tail).skip(0) =~= r + tail);
            assert((r + tail).skip(1) =~= inner);
            let ps1 = PState {
                stack: ps.stack.push(Frame::Obj { entries: seq![], key: seq![] }),
                mode: ParserState::ExpectKey,
                root: ps.root,
            };
            let ls1 = LexState { rest: inner, pos: pos + 1, last: Some(TokenType::LeftBrace), count: count + 1 };
            assert(parse_run(ls, ps) == parse_run(ls1, ps1));
            lemma_count_irrelevant(ls1, ps1, count);
            let ls1c = LexState { rest: inner, pos: pos + 1, last: Some(TokenType::LeftBrace), count };
            if e.len() == 0 {
                assert(e =~= seq![]);
                assert(inner =~= seq![RBRACE] + tail);
                assert(ws_len(inner) == 0);
                assert(inner.skip(0) =~= inner);
                assert(inner.skip(1) =~= tail);
                assert(ps1.stack.drop_last() =~= ps.stack);
                let ls2 = LexState { rest: tail, pos: pos + 2, last: Some(TokenType::RightBrace), count: count + 1 };
                assert(parse_run(ls1c, ps1) == parse_run(ls2, after(ps, v)));
                lemma_count_irrelevant(ls2, after(ps, v), count);
            } else {
                assert(seq![] + e =~= e);
                lemma_entries(e, seq![], tail, pos + 1, Some(TokenType::LeftBrace), count, ps.stack, ps.root);
            }
        },
        _ => {
            assert(pstep(ps, scalar_kind(v), scalar_payload(v)) == PStep::Go { next: after(ps, v) });
            lemma_scalar_token(v, tail, pos, last, count, ps);
        },
    }
}

/// Reading the items of an array, separated by commas and closed by a
/// bracket, from inside the array, closes it with those items added.
#[verifier::rlimit(100)]
proof fn lemma_items(
    items: Seq<JValue>,
    done: Seq<JValue>,
    tail: Seq<u8>,
    pos: nat,
    last: Option<TokenType>,
    count: nat,
    base: Seq<Frame>,
    root: Option<JValue>,
)
    requires
        items.len() > 0,
        forall|i: int| 0 <= i < items.len() ==> well_formed_value(#[trigger] items[i]),
        ends_lexeme(tail),
        last == Some(TokenType::LeftSquareBracket) || last == Some(TokenType::Comma),
    ensures
        parse_run(
            LexState { rest: items_text(items) + seq![RBRACKET] + tail, pos, last, count },
            PState { stack: base.push(Frame::Arr { items: done }), mode: ParserState::ExpectValue, root },
        ) == parse_run(
            LexState { rest: tail, pos: pos + items_text(items).len() + 1, last: Some(TokenType::RightSquareBracket), count },
            after(PState { stack: base, mode: ParserState::ExpectValue, root }, JValue::Array(done + items)),
        ),
    decreases items,
{
    let x = items[0];
    let ps0 = PState { stack: base.push(Frame::Arr { items: done }), mode: ParserState::ExpectValue, root };
    let px = after(ps0, x);
    assert(px.stack =~= base.push(Frame::Arr { items: done.push(x) }));
    let tx = compact_text(x);
    if items.len() == 1 {
        let t = seq![RBRACKET] + tail;
        assert(items_text(items) + seq![RBRACKET] + tail =~= tx + t);
        lemma_value(x, t, pos, last, count, ps0);
        assert(done + items =~= done.push(x));
        assert(px.stack.drop_last() =~= base);
        let fin = after(PState { stack: base, mode: ParserState::ExpectValue, root }, JValue::Array(done + items));
        assert(pstep(px, TokenType::RightSquareBracket, Payload::Empty) == PStep::Go { next: fin });
        lemma_punct(RBRACKET, tail, pos + tx.len(), Some(end_kind(x)), count, px);
    } else {
        let more = items.subrange(1, items.len() as int);
        let r2 = items_text(more) + seq![RBRACKET] + tail;
        let t = seq![COMMA] + r2;
        assert(items_text(items) + seq![RBRACKET] + tail =~= tx + t);
        lemma_value(x, t, pos, last, count, ps0);
        let ps2 = PState { stack: px.stack, mode: ParserState::ExpectValue, root };
        assert(pstep(px, TokenType::Comma, Payload::Empty) == PStep::Go { next: ps2 });
        lemma_punct(COMMA, r2, pos + tx.len(), Some(end_kind(x)), count, px);
        assert forall|i: int| 0 <= i < more.len() implies well_formed_value(#[trigger] more[i]) by {
            assert(more[i] == items[i + 1]);
        }
        lemma_items(more, done.push(x), tail, pos + tx.len() + 1, Some(TokenType::Comma), count, base, root);
        assert(done.push(x) + more =~= done + items);
    }
}

/// Reading the entries of an object, separated by commas and closed by a
/// brace, from inside the object, closes it with those entries added.
#[verifier::rlimit(100)]
proof fn lemma_entries(
    e: Seq<(Seq<char>, JValue)>,
    done: Seq<(Seq<char>, JValue)>,
    tail: Seq<u8>,
    pos: nat,
    last: Option<TokenType>,
    count: nat,
    base: Seq<Frame>,
    root: Option<JValue>,
)
    requires
        e.len() > 0,
        forall|i: int| 0 <= i < e.len() ==> well_formed_value((#[trigger] e[i]).1),
        forall|i: int, j: int| 0 <= i < j < e.len() ==> (#[trigger] e[i]).0 != (#[trigger] e[j]).0,
        forall|i: int, j: int| 0 <= i < done.len() && 0 <= j < e.len() ==> (#[trigger] done[i]).0 != (#[trigger] e[j]).0,
        ends_lexeme(tail),
        last == Some(TokenType::LeftBrace) || last == Some(TokenType::Comma),
    ensures
        parse_run(
            LexState { rest: entries_text(e) + seq![RBRACE] + tail, pos, last, count },
            PState { stack: base.push(Frame::Obj { entries: done, key: seq![] }), mode: ParserState::ExpectKey, root },
        ) == parse_run(
            LexState { rest: tail, pos: pos + entries_text(e).len() + 1, last: Some(TokenType::RightBrace), count },
            after(PState { stack: base, mode: ParserState::ExpectValue, root }, JValue::Object(done + e)),
        ),
    decreases e,
{
    let k = e[0].0;
    let x = e[0].1;
    let tk = string_text(k);
    let tx = compact_text(x);
    let ps0 = PState { stack: base.push(Frame::Obj { entries: done, key: seq![] }), mode: ParserState::ExpectKey, root };
    let t = if e.len() == 1 {
        seq![RBRACE] + tail
    } else {
        seq![COMMA] + entries_text(e.subrange(1, e.len() as int)) + seq![RBRACE] + tail
    };
    let tv = tx + t;
    let tc = seq![COLON] + tv;
    assert(entries_text(e) + seq![RBRACE] + tail =~= tk + tc);
    // the key
    let psk = PState { stack: base.push(Frame::Obj { entries: done, key: k }), mode: ParserState::ExpectColon, root };
    assert(ps0.stack.drop_last().push(Frame::Obj { entries: done, key: k }) =~= psk.stack);
    assert(pstep(ps0, TokenType::Text, Payload::Text(k)) == PStep::Go { next: psk });
    assert(compact_text(JValue::Str(k)) == tk);
    lemma_scalar_token(JValue::Str(k), tc, pos, last, count, ps0);
    // the colon
    let psv = PState { stack: psk.stack, mode: ParserState::ExpectValue, root };
    assert(pstep(psk, TokenType::Colon, Payload::Empty) == PStep::Go { next: psv });
    lemma_punct(COLON, tv, pos + tk.len(), Some(TokenType::Text), count, psk);
    // the value
    lemma_value(x, t, pos + tk.len() + 1, Some(TokenType::Colon), count, psv);
    lemma_fresh_key(e, done);
    let done2 = done.push((k, x));
    let px = after(psv, x);
    assert(px.stack =~= base.push(Frame::Obj { entries: done2, key: seq![] }));
    let p1 = pos + tk.len() + 1 + tx.len();
    if e.len() == 1 {
        assert(t =~= seq![RBRACE] + tail);
        assert(done + e =~= done2);
        assert(px.stack.drop_last() =~= base);
        let fin = after(PState { stack: base, mode: ParserState::ExpectValue, root }, JValue::Object(done + e));
        assert(pstep(px, TokenType::RightBrace, Payload::Empty) == PStep::Go { next: fin });
        lemma_punct(RBRACE, tail, p1, Some(end_kind(x)), count, px);
    } else {
        let more = e.subrange(1, e.len() as int);
        let r2 = entries_text(more) + seq![RBRACE] + tail;
        assert(t =~= seq![COMMA] + r2);
        let ps2 = PState { stack: px.stack, mode: ParserState::ExpectKey, root };
        assert(pstep(px, TokenType::Comma, Payload::Empty) == PStep::Go { next: ps2 });
        lemma_punct(COMMA, r2, p1, Some(end_kind(x)), count, px);
        lemma_entries_rest(e, done);
        lemma_entries(more, done2, tail, p1 + 1, Some(TokenType::Comma), count, base, root);
        assert(done2 + more =~= done + e);
    }
}

/// The first key of `e` is in none of the entries `done`, so storing it
/// adds an entry.
proof fn lemma_fresh_key(e: Seq<(Seq<char>, JValue)>, done: Seq<(Seq<char>, JValue)>)
    requires
        e.len() > 0,
        forall|i: int, j: int| 0 <= i < done.len() && 0 <= j < e.len() ==> (#[trigger] done[i]).0 != (#[trigger] e[j]).0,
    ensures
        obj_insert(done, e[0].0, e[0].1) == done.push((e[0].0, e[0].1)),
{
    assert forall|i: int| 0 <= i < done.len() implies done[i].0 != e[0].0 by {
        assert((#[trigger] done[i]).0 != e[0].0);
    }
    assert(!exists|i: int| crate::parser::first_key_at(done, e[0].0, i));
}

/// What `lemma_entries` needs of the entries after the first.
proof fn lemma_entries_rest(e: Seq<(Seq<char>, JValue)>, done: Seq<(Seq<char>, JValue)>)
    requires
        e.len() > 1,
        forall|i: int| 0 <= i < e.len() ==> well_formed_value((#[trigger] e[i]).1),
        forall|i: int, j: int| 0 <= i < j < e.len() ==> (#[trigger] e[i]).0 != (#[trigger] e[j]).0,
        forall|i: int, j: int| 0 <= i < done.len() && 0 <= j < e.len() ==> (#[trigger] done[i]).0 != (#[trigger] e[j]).0,
    ensures
        ({
            let more = e.subrange(1, e.len() as int);
            let done2 = done.push(e[0]);
            &&& forall|i: int| 0 <= i < more.len() ==> well_formed_value((#[trigger] more[i]).1)
            &&& forall|i: int, j: int| 0 <= i < j < more.len() ==> (#[trigger] more[i]).0 != (#[trigger] more[j]).0
            &&& forall|i: int, j: int|
                0 <= i < done2.len() && 0 <= j < more.len() ==> (#[trigger] done2[i]).0 != (#[trigger] more[j]).0
        }),
{
    let more = e.subrange(1, e.len() as int);
    let done2 = done.push(e[0]);
    assert forall|i: int| 0 <= i < more.len() implies well_formed_value((#[trigger] more[i]).1) by {
        assert(more[i] == e[i + 1]);
    }
    assert forall|i: int, j: int| 0 <= i < j < more.len() implies (#[trigger] more[i]).0 != (#[trigger] more[j]).0 by {
        assert(more[i] == e[i + 1] && more[j] == e[j + 1]);
    }
    assert forall|i: int, j: int| 0 <= i < done2.len() && 0 <= j < more.len() implies (
    #[trigger] done2[i]).0 != (#[trigger] more[j]).0 by {
        assert(more[j] == e[j + 1]);
        if i < done.len() {
            assert(done2[i] == done[i]);
        } else {
            assert(done2[i] == e[0]);
        }
    }
}

/// Parsing the compact text of a value gives the value back, for every
/// value whose numbers are well formed and whose objects hold each key
/// once.
pub proof fn lemma_round_trip(v: JValue)
    requires
        well_formed_value(v),
    ensures
        parse_bytes(compact_text(v)) == Ok::<JValue, (crate::error::ErrorKind, nat)>(v),
{
    let t = compact_text(v);
    assert(t + seq![] =~= t);
    lemma_value(v, seq![], 0, None, 0, initial_pstate());
    let fin = after(initial_pstate(), v);
    let ls = LexState { rest: seq![], pos: t.len(), last: Some(end_kind(v)), count: 0 };
    assert(ws_len(Seq::<u8>::empty()) == 0);
    assert(Seq::<u8>::empty().skip(0) =~= Seq::<u8>::empty());
    assert(parse_run(ls, fin) == Ok::<JValue, (crate::error::ErrorKind, nat)>(v));
}

/// Parsing what [`to_json_text`](crate::text::to_json_text) writes for a
/// value gives the value back, for every value whose numbers are well
/// formed and whose objects hold each key once: `to_json_text` returns the
/// text whose bytes are `compact_text(v)`, and `parse` reads the bytes of
/// its argument.
pub proof fn lemma_parse_to_json_text(v: JValue)
    requires
        well_formed_value(v),
    ensures
        parse_bytes(encode_utf8(decode_utf8(compact_text(v)))) == Ok::<JValue, (crate::error::ErrorKind, nat)>(v),
{
    lemma_compact_text_valid(v);
    decode_utf8_encode_utf8(compact_text(v));
    lemma_round_trip(v);
}

proof fn lemma_ws_concat(x: Seq<u8>, y: Seq<u8>)
    requires
        all_whitespace(x),
        all_whitespace(y),
    ensures
        all_whitespace(x + y),
{
    assert forall|i: int| 0 <= i < (x + y).len() implies is_whitespace(#[trigger] (x + y)[i]) by {
        if i < x.len() {
            assert((x + y)[i] == x[i]);
        } else {
            assert((x + y)[i] == y[i - x.len()]);
        }
    }
}

proof fn lemma_line_break(ind: Seq<u8>)
    requires
        all_whitespace(ind),
    ensures
        all_whitespace(seq![LF] + ind),
        all_whitespace(deeper(ind)),
{
    assert(all_whitespace(seq![LF]));
    assert(all_whitespace(seq![SPACE, SPACE]));
    lemma_ws_concat(seq![LF], ind);
    lemma_ws_concat(ind, seq![SPACE, SPACE]);
}

/// Reading the indented text of a value, from a state that expects a
/// value, folds that value into the parser state.
proof fn lemma_value_pretty(
    v: JValue,
    ind: Seq<u8>,
    tail: Seq<u8>,
    pos: nat,
    last: Option<TokenType>,
    count: nat,
    ps: PState,
)
    requires
        well_formed_value(v),
        all_whitespace(ind),
        ends_lexeme(tail),
        last != Some(TokenType::EOF),
        crate::relationships::may_follow(last, start_kind(v)),
        ps.mode == ParserState::ExpectValue,
    ensures
        parse_run(LexState { rest: pretty_text(v, ind) + tail, pos, last, count }, ps) == parse_run(
            LexState { rest: tail, pos: pos + pretty_text(v, ind).len(), last: Some(end_kind(v)), count },
            after(ps, v),
        ),
    decreases v,
{
    lemma_line_break(ind);
    let d = deeper(ind);
    let close = seq![LF] + ind;
    match v {
        JValue::Array(items) => {
            if items.len() == 0 {
                assert(items_text(items) =~= Seq::<u8>::empty());
                assert(pretty_text(v, ind) =~= compact_text(v));
                lemma_value(v, tail, pos, last, count, ps);
            } else {
                let inner = pretty_items(items, d) + close + seq![RBRACKET] + tail;
                assert(pretty_text(v, ind) + tail =~= seq![LBRACKET] + inner);
                let ps1 = PState {
                    stack: ps.stack.push(Frame::Arr { items: seq![] }),
                    mode: ParserState::ExpectValue,
                    root: ps.root,
                };
                assert(pstep(ps, TokenType::LeftSquareBracket, Payload::Empty) == PStep::Go { next: ps1 });
                lemma_punct(LBRACKET, inner, pos, last, count, ps);
                assert(seq![] + items =~= items);
                lemma_items_pretty(items, seq![], d, ind, tail, pos + 1, Some(TokenType::LeftSquareBracket), count, ps.stack, ps.root);
                assert(ps1.stack =~= ps.stack.push(Frame::Arr { items: seq![] }));
            }
        },
        JValue::Object(e) => {
            if e.len() == 0 {
                assert(entries_text(e) =~= Seq::<u8>::empty());
                assert(pretty_text(v, ind) =~= compact_text(v));
                lemma_value(v, tail, pos, last, count, ps);
            } else {
                let inner = pretty_entries(e, d) + close + seq![RBRACE] + tail;
                assert(pretty_text(v, ind) + tail =~= seq![LBRACE] + inner);
                let ps1 = PState {
                    stack: ps.stack.push(Frame::Obj { entries: seq![], key: seq![] }),
                    mode: ParserState::ExpectKey,
                    root: ps.root,
                };
                assert(pstep(ps, TokenType::LeftBrace, Payload::Empty) == PStep::Go { next: ps1 });
                lemma_punct(LBRACE, inner, pos, last, count, ps);
                assert(seq![] + e =~= e);
                lemma_entries_pretty(e, seq![], d, ind, tail, pos + 1, Some(TokenType::LeftBrace), count, ps.stack, ps.root);
            }
        },
        _ => {
            assert(pretty_text(v, ind) == compact_text(v));
            lemma_value(v, tail, pos, last, count, ps);
        },
    }
}

/// Reading the indented items of an array, then the line break and
/// indentation `ind` and the closing bracket, from inside the array.
#[verifier::rlimit(100)]
proof fn lemma_items_pretty(
    items: Seq<JValue>,
    done: Seq<JValue>,
    d: Seq<u8>,
    ind: Seq<u8>,
    tail: Seq<u8>,
    pos: nat,
    last: Option<TokenType>,
    count: nat,
    base: Seq<Frame>,
    root: Option<JValue>,
)
    requires
        items.len() > 0,
        forall|i: int| 0 <= i < items.len() ==> well_formed_value(#[trigger] items[i]),
        all_whitespace(d),
        all_whitespace(ind),
        ends_lexeme(tail),
        last == Some(TokenType::LeftSquareBracket) || last == Some(TokenType::Comma),
    ensures
        parse_run(
            LexState { rest: pretty_items(items, d) + (seq![LF] + ind) + seq![RBRACKET] + tail, pos, last, count },
            PState { stack: base.push(Frame::Arr { items: done }), mode: ParserState::ExpectValue, root },
        ) == parse_run(
            LexState {
                rest: tail,
                pos: pos + pretty_items(items, d).len() + 1 + ind.len() + 1,
                last: Some(TokenType::RightSquareBracket),
                count,
            },
            after(PState { stack: base, mode: ParserState::ExpectValue, root }, JValue::Array(done + items)),
        ),
    decreases items,
{
    lemma_line_break(d);
    lemma_line_break(ind);
    let x = items[0];
    let ps0 = PState { stack: base.push(Frame::Arr { items: done }), mode: ParserState::ExpectValue, root };
    let px = after(ps0, x);
    assert(px.stack =~= base.push(Frame::Arr { items: done.push(x) }));
    let tx = pretty_text(x, d);
    let lead = seq![LF] + d;
    let close = seq![LF] + ind;
    if items.len() == 1 {
        let t = close + seq![RBRACKET] + tail;
        assert(pretty_items(items, d) + close + seq![RBRACKET] + tail =~= lead + (tx + t));
        lemma_whitespace_before_token(tx + t, lead, pos, last, count, ps0);
        let p0 = pos + lead.len();
        assert(ends_lexeme(t));
        lemma_value_pretty(x, d, t, p0, last, count, ps0);
        let p1 = p0 + tx.len();
        lemma_whitespace_before_token(seq![RBRACKET] + tail, close, p1, Some(end_kind(x)), count, px);
        assert(t =~= close + (seq![RBRACKET] + tail));
        assert(done + items =~= done.push(x));
        assert(px.stack.drop_last() =~= base);
        let fin = after(PState { stack: base, mode: ParserState::ExpectValue, root }, JValue::Array(done + items));
        assert(pstep(px, TokenType::RightSquareBracket, Payload::Empty) == PStep::Go { next: fin });
        lemma_punct(RBRACKET, tail, p1 + close.len(), Some(end_kind(x)), count, px);
    } else {
        let more = items.subrange(1, items.len() as int);
        let r2 = pretty_items(more, d) + close + seq![RBRACKET] + tail;
        let t = seq![COMMA] + r2;
        assert(pretty_items(items, d) + close + seq![RBRACKET] + tail =~= lead + (tx + t));
        lemma_whitespace_before_token(tx + t, lead, pos, last, count, ps0);
        let p0 = pos + lead.len();
        lemma_value_pretty(x, d, t, p0, last, count, ps0);
        let ps2 = PState { stack: px.stack, mode: ParserState::ExpectValue, root };
        assert(pstep(px, TokenType::Comma, Payload::Empty) == PStep::Go { next: ps2 });
        lemma_punct(COMMA, r2, p0 + tx.len(), Some(end_kind(x)), count, px);
        assert forall|i: int| 0 <= i < more.len() implies well_formed_value(#[trigger] more[i]) by {
            assert(more[i] == items[i + 1]);
        }
        lemma_items_pretty(more, done.push(x), d, ind, tail, p0 + tx.len() + 1, Some(TokenType::Comma), count, base, root);
        assert(done.push(x) + more =~= done + items);
        assert(pretty_items(items, d).len() == lead.len() + tx.len() + 1 + pretty_items(more, d).len());
    }
}


/// Reading the line start `lead`, a key, its colon and the space after it,
/// from inside an object.
proof fn lemma_entry_head(
    k: Seq<char>,
    rest: Seq<u8>,
    lead: Seq<u8>,
    pos: nat,
    last: Option<TokenType>,
    count: nat,
    done: Seq<(Seq<char>, JValue)>,
    base: Seq<Frame>,
    root: Option<JValue>,
)
    requires
        all_whitespace(lead),
        last == Some(TokenType::LeftBrace) || last == Some(TokenType::Comma),
    ensures
        parse_run(
            LexState { rest: lead + (string_text(k) + (seq![COLON] + (seq![SPACE] + rest))), pos, last, count },
            PState { stack: base.push(Frame::Obj { entries: done, key: seq![] }), mode: ParserState::ExpectKey, root },
        ) == parse_run(
            LexState { rest, pos: pos + lead.len() + string_text(k).len() + 2, last: Some(TokenType::Colon), count },
            PState { stack: base.push(Frame::Obj { entries: done, key: k }), mode: ParserState::ExpectValue, root },
        ),
{
    let tk = string_text(k);
    let tsp = seq![SPACE] + rest;
    let tc = seq![COLON] + tsp;
    let ps0 = PState { stack: base.push(Frame::Obj { entries: done, key: seq![] }), mode: ParserState::ExpectKey, root };
    lemma_whitespace_before_token(tk + tc, lead, pos, last, count, ps0);
    let p0 = pos + lead.len();
    let psk = PState { stack: base.push(Frame::Obj { entries: done, key: k }), mode: ParserState::ExpectColon, root };
    assert(ps0.stack.drop_last().push(Frame::Obj { entries: done, key: k }) =~= psk.stack);
    assert(pstep(ps0, TokenType::Text, Payload::Text(k)) == PStep::Go { next: psk });
    assert(compact_text(JValue::Str(k)) == tk);
    lemma_scalar_token(JValue::Str(k), tc, p0, last, count, ps0);
    let psv = PState { stack: psk.stack, mode: ParserState::ExpectValue, root };
    assert(pstep(psk, TokenType::Colon, Payload::Empty) == PStep::Go { next: psv });
    lemma_punct(COLON, tsp, p0 + tk.len(), Some(TokenType::Text), count, psk);
    assert(all_whitespace(seq![SPACE]));
    lemma_whitespace_before_token(rest, seq![SPACE], p0 + tk.len() + 1, Some(TokenType::Colon), count, psv);
}

/// Reading the indented entries of an object, then the line break and
/// indentation `ind` and the closing brace, from inside the object.
#[verifier::rlimit(100)]
proof fn lemma_entries_pretty(
    e: Seq<(Seq<char>, JValue)>,
    done: Seq<(Seq<char>, JValue)>,
    d: Seq<u8>,
    ind: Seq<u8>,
    tail: Seq<u8>,
    pos: nat,
    last: Option<TokenType>,
    count: nat,
    base: Seq<Frame>,
    root: Option<JValue>,
)
    requires
        e.len() > 0,
        forall|i: int| 0 <= i < e.len() ==> well_formed_value((#[trigger] e[i]).1),
        forall|i: int, j: int| 0 <= i < j < e.len() ==> (#[trigger] e[i]).0 != (#[trigger] e[j]).0,
        forall|i: int, j: int| 0 <= i < done.len() && 0 <= j < e.len() ==> (#[trigger] done[i]).0 != (#[trigger] e[j]).0,
        all_whitespace(d),
        all_whitespace(ind),
        ends_lexeme(tail),
        last == Some(TokenType::LeftBrace) || last == Some(TokenType::Comma),
    ensures
        parse_run(
            LexState { rest: pretty_entries(e, d) + (seq![LF] + ind) + seq![RBRACE] + tail, pos, last, count },
            PState { stack: base.push(Frame::Obj { entries: done, key: seq![] }), mode: ParserState::ExpectKey, root },
        ) == parse_run(
            LexState {
                rest: tail,
                pos: pos + pretty_entries(e, d).len() + 1 + ind.len() + 1,
                last: Some(TokenType::RightBrace),
                count,
            },
            after(PState { stack: base, mode: ParserState::ExpectValue, root }, JValue::Object(done + e)),
        ),
    decreases e,
{
    lemma_line_break(d);
    lemma_line_break(ind);
    let k = e[0].0;
    let x = e[0].1;
    let tk = string_text(k);
    let tx = pretty_text(x, d);
    let lead = seq![LF] + d;
    let close = seq![LF] + ind;
    let ps0 = PState { stack: base.push(Frame::Obj { entries: done, key: seq![] }), mode: ParserState::ExpectKey, root };
    let t = if e.len() == 1 {
        close + seq![RBRACE] + tail
    } else {
        seq![COMMA] + pretty_entries(e.subrange(1, e.len() as int), d) + close + seq![RBRACE] + tail
    };
    let tv = tx + t;
    assert(pretty_entries(e, d) + close + seq![RBRACE] + tail =~= lead + (tk + (seq![COLON] + (seq![SPACE] + tv))));
    lemma_entry_head(k, tv, lead, pos, last, count, done, base, root);
    let p0 = pos + lead.len();
    let psv = PState { stack: base.push(Frame::Obj { entries: done, key: k }), mode: ParserState::ExpectValue, root };
    // the value
    let pv = p0 + tk.len() + 2;
    lemma_value_pretty(x, d, t, pv, Some(TokenType::Colon), count, psv);
    lemma_fresh_key(e, done);
    let done2 = done.push((k, x));
    let px = after(psv, x);
    assert(px.stack =~= base.push(Frame::Obj { entries: done2, key: seq![] }));
    let p1 = pv + tx.len();
    if e.len() == 1 {
        lemma_whitespace_before_token(seq![RBRACE] + tail, close, p1, Some(end_kind(x)), count, px);
        assert(t =~= close + (seq![RBRACE] + tail));
        assert(done + e =~= done2);
        assert(px.stack.drop_last() =~= base);
        let fin = after(PState { stack: base, mode: ParserState::ExpectValue, root }, JValue::Object(done + e));
        assert(pstep(px, TokenType::RightBrace, Payload::Empty) == PStep::Go { next: fin });
        lemma_punct(RBRACE, tail, p1 + close.len(), Some(end_kind(x)), count, px);
    } else {
        let more = e.subrange(1, e.len() as int);
        let r2 = pretty_entries(more, d) + close + seq![RBRACE] + tail;
        assert(t =~= seq![COMMA] + r2);
        let ps2 = PState { stack: px.stack, mode: ParserState::ExpectKey, root };
        assert(pstep(px, TokenType::Comma, Payload::Empty) == PStep::Go { next: ps2 });
        lemma_punct(COMMA, r2, p1, Some(end_kind(x)), count, px);
        lemma_entries_rest(e, done);
        lemma_entries_pretty(more, done2, d, ind, tail, p1 + 1, Some(TokenType::Comma), count, base, root);
        assert(done2 + more =~= done + e);
        assert(pretty_entries(e, d).len() == lead.len() + tk.len() + 2 + tx.len() + 1 + pretty_entries(more, d).len());
    }
}

/// Parsing the indented text of a value gives the value back, for every
/// value whose numbers are well formed and whose objects hold each key
/// once; with `lemma_parse_to_json_text`, the line breaks and indentation
/// between its tokens change nothing.
pub proof fn lemma_pretty_round_trip(v: JValue)
    requires
        well_formed_value(v),
    ensures
        parse_bytes(pretty_text(v, seq![])) == Ok::<JValue, (crate::error::ErrorKind, nat)>(v),
        parse_bytes(encode_utf8(decode_utf8(pretty_text(v, seq![])))) == Ok::<JValue, (crate::error::ErrorKind, nat)>(v),
{
    let t = pretty_text(v, seq![]);
    assert(t + seq![] =~= t);
    assert(all_whitespace(Seq::<u8>::empty()));
    lemma_value_pretty(v, seq![], seq![], 0, None, 0, initial_pstate());
    let fin = after(initial_pstate(), v);
    let ls = LexState { rest: seq![], pos: t.len(), last: Some(end_kind(v)), count: 0 };
    assert(ws_len(Seq::<u8>::empty()) == 0);
    assert(Seq::<u8>::empty().skip(0) =~= Seq::<u8>::empty());
    assert(parse_run(ls, fin) == Ok::<JValue, (crate::error::ErrorKind, nat)>(v));
    assert(all_ascii(Seq::<u8>::empty()));
    lemma_pretty_text_valid(v, seq![]);
    decode_utf8_encode_utf8(t);
}

/// An empty array inside `n` arrays of one item each.
pub open spec fn nested_arrays(n: nat) -> JValue
    decreases n,
{
    if n == 0 {
        JValue::Array(seq![])
    } else {
        JValue::Array(seq![nested_arrays((n - 1) as nat)])
    }
}

/// `n` opening brackets followed by `n` closing brackets.
pub open spec fn brackets(n: nat) -> Seq<u8> {
    Seq::new(n, |i: int| LBRACKET) + Seq::new(n, |i: int| RBRACKET)
}

proof fn lemma_nested_text(n: nat)
    ensures
        well_formed_value(nested_arrays(n)),
        compact_text(nested_arrays(n)) == brackets(n + 1),
    decreases n,
{
    if n == 0 {
        assert(items_text(Seq::<JValue>::empty()) =~= Seq::<u8>::empty());
        assert(compact_text(nested_arrays(0)) =~= brackets(1));
    } else {
        lemma_nested_text((n - 1) as nat);
        let inner = nested_arrays((n - 1) as nat);
        assert(items_text(seq![inner]) == compact_text(inner));
        assert(forall|i: int| 0 <= i < 1 ==> well_formed_value(#[trigger] seq![inner][i]));
        assert(compact_text(nested_arrays(n)) =~= brackets(n + 1));
    }
}

/// Input nested `n + 1` levels deep parses to the arrays nested that deep;
/// the parser keeps the open arrays on a heap-allocated stack, so how deep
/// the input nests does not bound it.
pub proof fn lemma_deep_nesting(n: nat)
    ensures
        parse_bytes(brackets(n + 1)) == Ok::<JValue, (crate::error::ErrorKind, nat)>(nested_arrays(n)),
{
    lemma_nested_text(n);
    lemma_round_trip(nested_arrays(n));
}

} // verus!
