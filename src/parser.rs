//! The parser: the model of its state machine, and the stack-based
//! implementation proved against it.
use vstd::prelude::*;
use vstd::string::StringSliceAdditionalSpecFns;
use crate::byte_reader::{ByteReader, lemma_ws_len_bound, ws_len};
use crate::error::{ErrorKind, ParseError};
use crate::lexical::{LexState, Step, lemma_run_len, lex_step, run_len};
use crate::token::{Payload, Token, TokenValue};
use crate::token_type::{TokenType, is_delimiter};
use crate::tokenizer::Tokenizer;
use crate::value::{JValue, JsonValue};

verus! {

/// What the parser accepts next.
#[derive(Clone, Copy, Debug, PartialEq, Eq, Structural)]
pub enum ParserState {
    ExpectValue,
    ExpectKey,
    ExpectColon,
    ExpectCommaOrEnd,
}

/// The model of an open container: an object with its entries so far and
/// the key waiting for its value, or an array with its items so far.
pub enum Frame {
    Obj { entries: Seq<(Seq<char>, JValue)>, key: Seq<char> },
    Arr { items: Seq<JValue> },
}

/// The model of the parser: the open containers, innermost last, what it
/// accepts next, and the root value once there is one.
pub struct PState {
    pub stack: Seq<Frame>,
    pub mode: ParserState,
    pub root: Option<JValue>,
}

/// The state a parse starts in.
pub open spec fn initial_pstate() -> PState {
    PState { stack: seq![], mode: ParserState::ExpectValue, root: None }
}

/// `i` is the first index of an entry of `e` with key `k`.
pub open spec fn first_key_at(e: Seq<(Seq<char>, JValue)>, k: Seq<char>, i: int) -> bool {
    &&& 0 <= i < e.len()
    &&& e[i].0 == k
    &&& forall|j: int| 0 <= j < i ==> e[j].0 != k
}

/// The entries `e` with `v` stored under `k`: the value of an entry with
/// that key is replaced in place, and otherwise a new entry comes last.
pub open spec fn obj_insert(e: Seq<(Seq<char>, JValue)>, k: Seq<char>, v: JValue) -> Seq<(Seq<char>, JValue)> {
    if exists|i: int| first_key_at(e, k, i) {
        e.update(choose|i: int| first_key_at(e, k, i), (k, v))
    } else {
        e.push((k, v))
    }
}

/// The state after the value `v` is complete: it becomes the root when no
/// container is open, and goes into the innermost container otherwise.
pub open spec fn fold(stack: Seq<Frame>, root: Option<JValue>, v: JValue) -> (Seq<Frame>, Option<JValue>) {
    if stack.len() == 0 {
        (stack, Some(v))
    } else {
        (stack.drop_last().push(frame_add(stack.last(), v)), root)
    }
}

/// The value of a scalar token's literal.
pub open spec fn scalar_of(p: Payload) -> JValue {
    match p {
        Payload::Text(s) => JValue::Str(s),
        Payload::Number(s) => JValue::Number(s),
        Payload::Bool(b) => JValue::Bool(b),
        Payload::Empty => JValue::Null,
    }
}

/// The outcome of one parser step.
pub enum PStep {
    Go { next: PState },
    Done { value: JValue },
    Fail { kind: ErrorKind },
}

/// `st` after the innermost container, complete, is closed.
pub open spec fn close_top(st: PState, v: JValue) -> PStep {
    let (stack, root) = fold(st.stack.drop_last(), st.root, v);
    PStep::Go { next: PState { stack, mode: ParserState::ExpectCommaOrEnd, root } }
}

/// One step of the parser on a token of category `kind` with literal `p`.
pub open spec fn pstep(st: PState, kind: TokenType, p: Payload) -> PStep {
    let top_obj = st.stack.len() > 0 && st.stack.last() is Obj;
    let top_arr = st.stack.len() > 0 && st.stack.last() is Arr;
    if kind == TokenType::EOF {
        if st.mode == ParserState::ExpectCommaOrEnd && st.stack.len() == 0 && st.root is Some {
            PStep::Done { value: st.root->Some_0 }
        } else {
            PStep::Fail { kind: ErrorKind::UnexpectedEnd }
        }
    } else {
        match st.mode {
            ParserState::ExpectValue => {
                if kind == TokenType::LeftBrace {
                    PStep::Go {
                        next: PState {
                            stack: st.stack.push(Frame::Obj { entries: seq![], key: seq![] }),
                            mode: ParserState::ExpectKey,
                            root: st.root,
                        },
                    }
                } else if kind == TokenType::LeftSquareBracket {
                    PStep::Go {
                        next: PState {
                            stack: st.stack.push(Frame::Arr { items: seq![] }),
                            mode: ParserState::ExpectValue,
                            root: st.root,
                        },
                    }
                } else if kind == TokenType::Text || kind == TokenType::Number || kind
                    == TokenType::Boolean || kind == TokenType::Null {
                    let (stack, root) = fold(st.stack, st.root, scalar_of(p));
                    PStep::Go { next: PState { stack, mode: ParserState::ExpectCommaOrEnd, root } }
                } else if kind == TokenType::RightSquareBracket && top_arr {
                    if st.stack.last()->Arr_items.len() == 0 {
                        close_top(st, JValue::Array(seq![]))
                    } else {
                        PStep::Fail { kind: ErrorKind::TrailingComma }
                    }
                } else {
                    PStep::Fail { kind: ErrorKind::UnexpectedToken { state: st.mode, found: kind } }
                }
            },
            ParserState::ExpectKey => {
                if kind == TokenType::Text && top_obj {
                    let key = match p {
                        Payload::Text(s) => s,
                        _ => seq![],
                    };
                    let entries = st.stack.last()->Obj_entries;
                    PStep::Go {
                        next: PState {
                            stack: st.stack.drop_last().push(Frame::Obj { entries, key }),
                            mode: ParserState::ExpectColon,
                            root: st.root,
                        },
                    }
                } else if kind == TokenType::RightBrace && top_obj {
                    if st.stack.last()->Obj_entries.len() == 0 {
                        close_top(st, JValue::Object(seq![]))
                    } else {
                        PStep::Fail { kind: ErrorKind::TrailingComma }
                    }
                } else {
                    PStep::Fail { kind: ErrorKind::UnexpectedToken { state: st.mode, found: kind } }
                }
            },
            ParserState::ExpectColon => {
                if kind == TokenType::Colon {
                    PStep::Go { next: PState { stack: st.stack, mode: ParserState::ExpectValue, root: st.root } }
                } else {
                    PStep::Fail { kind: ErrorKind::UnexpectedToken { state: st.mode, found: kind } }
                }
            },
            ParserState::ExpectCommaOrEnd => {
                if st.stack.len() == 0 {
                    PStep::Fail { kind: ErrorKind::TrailingContent }
                } else if kind == TokenType::Comma {
                    PStep::Go {
                        next: PState {
                            stack: st.stack,
                            mode: if top_obj {
                                ParserState::ExpectKey
                            } else {
                                ParserState::ExpectValue
                            },
                            root: st.root,
                        },
                    }
                } else if kind == TokenType::RightBrace {
                    if top_obj {
                        close_top(st, JValue::Object(st.stack.last()->Obj_entries))
                    } else {
                        PStep::Fail { kind: ErrorKind::Mismatch { found: kind } }
                    }
                } else if kind == TokenType::RightSquareBracket {
                    if top_arr {
                        close_top(st, JValue::Array(st.stack.last()->Arr_items))
                    } else {
                        PStep::Fail { kind: ErrorKind::Mismatch { found: kind } }
                    }
                } else {
                    PStep::Fail { kind: ErrorKind::UnexpectedToken { state: st.mode, found: kind } }
                }
            },
        }
    }
}

/// The error that a tokenizer error becomes: a token that may not follow
/// the last one, met once the root value is complete, is content after
/// the root.
pub open spec fn relabel(st: PState, kind: ErrorKind) -> ErrorKind {
    if kind is NotAllowed && st.stack.len() == 0 && st.root is Some {
        ErrorKind::TrailingContent
    } else {
        kind
    }
}

/// The outcome of parsing what the tokenizer in state `ls` has left, with
/// the parser in state `ps`: the value, or the error and its offset.
///
/// The last branch, for a step that consumes no input, is never taken:
/// only the end-of-input token consumes none, and the parser stops there.
pub open spec fn parse_run(ls: LexState, ps: PState) -> Result<JValue, (ErrorKind, nat)>
    decreases ls.rest.len(),
{
    match lex_step(ls) {
        Step::Fail { kind, offset } => Err((relabel(ps, kind), offset)),
        Step::Emit { tok, next } => match pstep(ps, tok.kind, tok.payload) {
            PStep::Done { value } => Ok(value),
            PStep::Fail { kind } => Err((kind, tok.start)),
            PStep::Go { next: ps2 } => if next.rest.len() < ls.rest.len() {
                parse_run(next, ps2)
            } else {
                Err((ErrorKind::UnexpectedEnd, tok.start))
            },
        },
    }
}

/// The outcome of parsing the bytes `b`.
pub open spec fn parse_bytes(b: Seq<u8>) -> Result<JValue, (ErrorKind, nat)> {
    parse_run(LexState { rest: b, pos: 0, last: None, count: 0 }, initial_pstate())
}

/// Every token but the end-of-input one consumes at least one byte.
pub proof fn lemma_lex_step_progress(ls: LexState)
    ensures
        lex_step(ls) matches Step::Emit { tok, next } ==> (tok.kind != TokenType::EOF ==> next.rest.len()
            < ls.rest.len()),
{
    if let Step::Emit { tok, next } = lex_step(ls) {
        if tok.kind != TokenType::EOF && ls.last != Some(TokenType::EOF) {
            lemma_ws_len_bound(ls.rest);
            let s = ls.rest.skip(ws_len(ls.rest) as int);
            lemma_run_len(s);
            if s.len() > 0 && !is_delimiter(s[0]) {
                assert(run_len(s) == 1 + run_len(s.drop_first()));
            }
        }
    }
}

/// An open container as the parser holds it.
pub enum Container {
    /// An object's entries so far, and the key waiting for its value.
    Object(Vec<(String, JsonValue)>, String),
    Array(Vec<JsonValue>),
}

pub open spec fn items_view(v: Seq<JsonValue>) -> Seq<JValue> {
    Seq::new(v.len(), |i: int| v[i]@)
}

pub open spec fn entries_view(e: Seq<(String, JsonValue)>) -> Seq<(Seq<char>, JValue)> {
    Seq::new(e.len(), |i: int| (e[i].0@, e[i].1@))
}

pub open spec fn frame_of(c: Container) -> Frame {
    match c {
        Container::Object(e, k) => Frame::Obj { entries: entries_view(e@), key: k@ },
        Container::Array(v) => Frame::Arr { items: items_view(v@) },
    }
}

pub open spec fn stack_view(s: Seq<Container>) -> Seq<Frame> {
    Seq::new(s.len(), |i: int| frame_of(s[i]))
}

pub open spec fn opt_view(v: Option<JsonValue>) -> Option<JValue> {
    match v {
        Some(x) => Some(x@),
        None => None,
    }
}

/// Whether the outcome `r` is the modelled outcome `m`.
pub open spec fn result_matches(r: Result<JsonValue, ParseError>, m: Result<JValue, (ErrorKind, nat)>) -> bool {
    match m {
        Ok(v) => r is Ok && r->Ok_0@ == v,
        Err((kind, offset)) => r is Err && r->Err_0.kind == kind && r->Err_0.byte_offset == offset,
    }
}

pub proof fn lemma_array_view(v: Vec<JsonValue>)
    ensures
        JsonValue::Array(v)@ == JValue::Array(items_view(v@)),
{
    assert(JsonValue::Array(v)@->Array_0 =~= items_view(v@));
}

pub proof fn lemma_object_view(e: Vec<(String, JsonValue)>)
    ensures
        JsonValue::Object(e)@ == JValue::Object(entries_view(e@)),
{
    assert(JsonValue::Object(e)@->Object_0 =~= entries_view(e@));
}

proof fn lemma_stack_pop(s: Seq<Container>)
    requires
        s.len() > 0,
    ensures
        stack_view(s.drop_last()) == stack_view(s).drop_last(),
        stack_view(s).last() == frame_of(s.last()),
{
    assert(stack_view(s.drop_last()) =~= stack_view(s).drop_last());
}

proof fn lemma_stack_push(s: Seq<Container>, c: Container)
    ensures
        stack_view(s.push(c)) == stack_view(s).push(frame_of(c)),
{
    assert(stack_view(s.push(c)) =~= stack_view(s).push(frame_of(c)));
}

/// Stores `v` under `key`, replacing the value of an entry with that key.
fn insert_entry(entries: &mut Vec<(String, JsonValue)>, key: String, v: JsonValue)
    ensures
        entries_view(final(entries)@) == obj_insert(entries_view(old(entries)@), key@, v@),
{
    let ghost e = entries_view(entries@);
    let mut i: usize = 0;
    while i < entries.len() && !(entries[i].0 == key)
        invariant
            i <= entries@.len(),
            entries@ == old(entries)@,
            e == entries_view(entries@),
            forall|j: int| 0 <= j < i ==> e[j].0 != key@,
        decreases entries@.len() - i,
    {
        i = i + 1;
    }
    if i < entries.len() {
        assert(first_key_at(e, key@, i as int));
        assert forall|k: int| first_key_at(e, key@, k) implies k == i by {
            if k < i {
                assert(e[k].0 != key@);
            }
            if k > i {
                assert(e[i as int].0 == key@);
            }
        }
        let _ = entries.remove(i);
        entries.insert(i, (key, v));
        assert(entries_view(entries@) =~= e.update(i as int, (key@, v@)));
    } else {
        entries.push((key, v));
        assert(entries_view(entries@) =~= e.push((key@, v@)));
    }
}

/// Puts the complete value `v` where it belongs: into the innermost open
/// container, or into `root` when none is open.
fn fold_value(stack: &mut Vec<Container>, root: &mut Option<JsonValue>, v: JsonValue)
    ensures
        (stack_view(final(stack)@), opt_view(*final(root))) == fold(stack_view(old(stack)@), opt_view(*old(root)), v@),
{
    if stack.len() == 0 {
        *root = Some(v);
        return;
    }
    let ghost s0 = stack@;
    let top = stack.pop().unwrap();
    proof {
        lemma_stack_pop(s0);
    }
    let c = add_to_container(top, v);
    proof {
        lemma_stack_push(stack@, c);
    }
    stack.push(c);
}

/// The model of frame `f` once `v` is added to it.
pub open spec fn frame_add(f: Frame, v: JValue) -> Frame {
    match f {
        Frame::Obj { entries, key } => Frame::Obj { entries: obj_insert(entries, key, v), key: seq![] },
        Frame::Arr { items } => Frame::Arr { items: items.push(v) },
    }
}

/// Adds `v` to the container: under the pending key of an object, which
/// is then cleared, or at the end of an array.
fn add_to_container(c: Container, v: JsonValue) -> (r: Container)
    ensures
        frame_of(r) == frame_add(frame_of(c), v@),
{
    match c {
        Container::Object(entries, key) => {
            let mut entries = entries;
            insert_entry(&mut entries, key, v);
            let r = Container::Object(entries, String::new());
            r
        },
        Container::Array(items) => {
            let ghost i0 = items@;
            let mut items = items;
            items.push(v);
            proof {
                assert(items@.drop_last() == i0);
                assert(items_view(items@) =~= items_view(i0).push(v@));
            }
            Container::Array(items)
        },
    }
}

/// The value of a token of a scalar category: a string, a number, a
/// boolean or null.
fn token_to_value(tok: Token) -> (v: JsonValue)
    requires
        tok@.kind == TokenType::Text || tok@.kind == TokenType::Number || tok@.kind == TokenType::Boolean
            || tok@.kind == TokenType::Null,
    ensures
        v@ == scalar_of(tok@.payload),
{
    match tok.into_value() {
        Some(TokenValue::Text(s)) => JsonValue::String(s),
        Some(TokenValue::Number(s)) => JsonValue::Number(s),
        Some(TokenValue::Bool(b)) => JsonValue::Bool(b),
        None => JsonValue::Null,
    }
}

/// Folds the tokens of a [`Tokenizer`] into a [`JsonValue`], keeping the
/// open containers on an explicit stack rather than on the call stack.
pub struct Parser<R> {
    tokenizer: Tokenizer<R>,
}

impl<R: ByteReader> Parser<R> {
    /// The model of the tokenizer this parser reads from.
    pub closed spec fn input(&self) -> LexState {
        self.tokenizer.state()
    }

    pub closed spec fn wf(&self) -> bool {
        self.tokenizer.wf()
    }

    pub fn new(tokenizer: Tokenizer<R>) -> (r: Self)
        requires
            tokenizer.wf(),
        ensures
            r.wf(),
            r.input() == tokenizer.state(),
    {
        Self { tokenizer }
    }

    /// The tokenizer this parser reads from.
    pub fn tokenizer(&self) -> (r: &Tokenizer<R>)
        ensures
            r.state() == self.input(),
    {
        &self.tokenizer
    }

    /// Parses one value, which must be followed by the end of input.
    pub fn parse(&mut self) -> (r: Result<JsonValue, ParseError>)
        requires
            old(self).wf(),
        ensures
            final(self).wf(),
            result_matches(r, parse_run(old(self).input(), initial_pstate())),
    {
        let ghost target = parse_run(self.tokenizer.state(), initial_pstate());
        let mut stack: Vec<Container> = Vec::new();
        let mut mode = ParserState::ExpectValue;
        let mut root: Option<JsonValue> = None;
        assert(stack_view(stack@) =~= seq![]);
        loop
            invariant
                self.tokenizer.wf(),
                target == parse_run(old(self).input(), initial_pstate()),
                parse_run(
                    self.tokenizer.state(),
                    PState { stack: stack_view(stack@), mode, root: opt_view(root) },
                ) == target,
            decreases self.tokenizer.state().rest.len(),
        {
            let ghost ls = self.tokenizer.state();
            let ghost ps = PState { stack: stack_view(stack@), mode, root: opt_view(root) };
            proof {
                lemma_lex_step_progress(ls);
            }
            let tok = match self.tokenizer.next_token() {
                Err(e) => {
                    let is_after_root = match e.kind {
                        ErrorKind::NotAllowed { .. } => stack.len() == 0 && root.is_some(),
                        _ => false,
                    };
                    let kind = if is_after_root {
                        ErrorKind::TrailingContent
                    } else {
                        e.kind
                    };
                    return Err(ParseError { kind, byte_offset: e.byte_offset });
                },
                Ok(t) => t,
            };
            let kind = tok.token_type();
            let start = tok.start_pos();
            let ghost p = tok@.payload;
            if kind == TokenType::EOF {
                if mode == ParserState::ExpectCommaOrEnd && stack.len() == 0 && root.is_some() {
                    return Ok(root.unwrap());
                }
                return Err(ParseError { kind: ErrorKind::UnexpectedEnd, byte_offset: start });
            }
            let n = stack.len();
            let top_obj = n > 0 && match &stack[n - 1] {
                Container::Object(..) => true,
                Container::Array(..) => false,
            };
            let top_arr = n > 0 && !top_obj;
            let top_empty = n > 0 && match &stack[n - 1] {
                Container::Object(e, _) => e.len() == 0,
                Container::Array(v) => v.len() == 0,
            };
            proof {
                if n > 0 {
                    assert(stack_view(stack@).last() == frame_of(stack@.last()));
                }
            }
            match mode {
                ParserState::ExpectValue => {
                    if kind == TokenType::LeftBrace {
                        let c = Container::Object(Vec::new(), String::new());
                        proof {
                            lemma_stack_push(stack@, c);
                            assert(entries_view(Seq::empty()) =~= seq![]);
                        }
                        stack.push(c);
                        mode = ParserState::ExpectKey;
                    } else if kind == TokenType::LeftSquareBracket {
                        let c = Container::Array(Vec::new());
                        proof {
                            lemma_stack_push(stack@, c);
                            assert(items_view(Seq::empty()) =~= seq![]);
                        }
                        stack.push(c);
                    } else if kind == TokenType::Text || kind == TokenType::Number || kind
                        == TokenType::Boolean || kind == TokenType::Null {
                        let v = token_to_value(tok);
                        fold_value(&mut stack, &mut root, v);
                        mode = ParserState::ExpectCommaOrEnd;
                    } else if kind == TokenType::RightSquareBracket && top_arr {
                        if !top_empty {
                            return Err(ParseError { kind: ErrorKind::TrailingComma, byte_offset: start });
                        }
                        let ghost s0 = stack@;
                        let _ = stack.pop();
                        let items: Vec<JsonValue> = Vec::new();
                        proof {
                            lemma_stack_pop(s0);
                            lemma_array_view(items);
                            assert(items_view(items@) =~= seq![]);
                        }
                        let v = JsonValue::Array(items);
                        fold_value(&mut stack, &mut root, v);
                        mode = ParserState::ExpectCommaOrEnd;
                    } else {
                        return Err(
                            ParseError {
                                kind: ErrorKind::UnexpectedToken { state: mode, found: kind },
                                byte_offset: start,
                            },
                        );
                    }
                },
                ParserState::ExpectKey => {
                    if kind == TokenType::Text && top_obj {
                        let key = match tok.into_value() {
                            Some(TokenValue::Text(s)) => s,
                            _ => String::new(),
                        };
                        let ghost s0 = stack@;
                        let top = stack.pop().unwrap();
                        proof {
                            lemma_stack_pop(s0);
                        }
                        if let Container::Object(entries, _) = top {
                            let c = Container::Object(entries, key);
                            proof {
                                lemma_stack_push(stack@, c);
                            }
                            stack.push(c);
                        }
                        mode = ParserState::ExpectColon;
                    } else if kind == TokenType::RightBrace && top_obj {
                        if !top_empty {
                            return Err(ParseError { kind: ErrorKind::TrailingComma, byte_offset: start });
                        }
                        let ghost s0 = stack@;
                        let _ = stack.pop();
                        let entries: Vec<(String, JsonValue)> = Vec::new();
                        proof {
                            lemma_stack_pop(s0);
                            lemma_object_view(entries);
                            assert(entries_view(entries@) =~= seq![]);
                        }
                        let v = JsonValue::Object(entries);
                        fold_value(&mut stack, &mut root, v);
                        mode = ParserState::ExpectCommaOrEnd;
                    } else {
                        return Err(
                            ParseError {
                                kind: ErrorKind::UnexpectedToken { state: mode, found: kind },
                                byte_offset: start,
                            },
                        );
                    }
                },
                ParserState::ExpectColon => {
                    if kind == TokenType::Colon {
                        mode = ParserState::ExpectValue;
                    } else {
                        return Err(
                            ParseError {
                                kind: ErrorKind::UnexpectedToken { state: mode, found: kind },
                                byte_offset: start,
                            },
                        );
                    }
                },
                ParserState::ExpectCommaOrEnd => {
                    if n == 0 {
                        return Err(ParseError { kind: ErrorKind::TrailingContent, byte_offset: start });
                    } else if kind == TokenType::Comma {
                        mode = if top_obj {
                            ParserState::ExpectKey
                        } else {
                            ParserState::ExpectValue
                        };
                    } else if kind == TokenType::RightBrace || kind == TokenType::RightSquareBracket {
                        let fits = if kind == TokenType::RightBrace {
                            top_obj
                        } else {
                            top_arr
                        };
                        if !fits {
                            return Err(ParseError { kind: ErrorKind::Mismatch { found: kind }, byte_offset: start });
                        }
                        let ghost s0 = stack@;
                        let top = stack.pop().unwrap();
                        proof {
                            lemma_stack_pop(s0);
                        }
                        let v = match top {
                            Container::Object(entries, _) => {
                                proof {
                                    lemma_object_view(entries);
                                }
                                JsonValue::Object(entries)
                            },
                            Container::Array(items) => {
                                proof {
                                    lemma_array_view(items);
                                }
                                JsonValue::Array(items)
                            },
                        };
                        fold_value(&mut stack, &mut root, v);
                    } else {
                        return Err(
                            ParseError {
                                kind: ErrorKind::UnexpectedToken { state: mode, found: kind },
                                byte_offset: start,
                            },
                        );
                    }
                },
            }
        }
    }
}

/// Parses `text`.
pub fn parse(text: &str) -> (r: Result<JsonValue, ParseError>)
    ensures
        result_matches(r, parse_bytes(text.spec_bytes())),
{
    let mut parser = Parser::new(Tokenizer::from_text(text));
    parser.parse()
}

} // verus!
