//! Properties of the tokenizer and parser together.
use vstd::prelude::*;
use crate::byte_reader::{lemma_ws_len_bound, ws_len};
use crate::lexical::{LexState, Step, lex_step};
use crate::parser::{PState, lemma_lex_step_progress, parse_run};
use crate::token_type::{TokenType, is_whitespace};

verus! {

/// Every byte of `w` is whitespace.
pub open spec fn all_whitespace(w: Seq<u8>) -> bool {
    forall|i: int| 0 <= i < w.len() ==> is_whitespace(#[trigger] w[i])
}

proof fn lemma_ws_len_prefix(w: Seq<u8>, r: Seq<u8>)
    requires
        all_whitespace(w),
    ensures
        ws_len(w + r) == w.len() + ws_len(r),
        (w + r).skip(ws_len(w + r) as int) == r.skip(ws_len(r) as int),
    decreases w.len(),
{
    if w.len() > 0 {
        let t = w.drop_first();
        assert((w + r).drop_first() =~= t + r);
        assert forall|i: int| 0 <= i < t.len() implies is_whitespace(#[trigger] t[i]) by {
            assert(t[i] == w[i + 1]);
        }
        assert(is_whitespace((w + r)[0]));
        lemma_ws_len_prefix(t, r);
    } else {
        assert(w + r =~= r);
    }
    lemma_ws_len_bound(r);
    assert((w + r).skip(ws_len(w + r) as int) =~= r.skip(ws_len(r) as int));
}

/// Whitespace in front of the next token changes no outcome of a parse.
///
/// From any state of the tokenizer that has not yet reached the end of
/// input, and any state of the parser, reading `w + rest` (where `w` holds
/// only whitespace) gives the same value, or the same error at the same
/// offset, as reading `rest` from `w.len()` bytes further on. Every place
/// between two tokens is the front of what remains at some state, so
/// whitespace inserted between tokens leaves the parsed value unchanged.
pub proof fn lemma_whitespace_before_token(
    rest: Seq<u8>,
    w: Seq<u8>,
    pos: nat,
    last: Option<TokenType>,
    count: nat,
    ps: PState,
)
    requires
        all_whitespace(w),
        last != Some(TokenType::EOF),
    ensures
        parse_run(LexState { rest: w + rest, pos, last, count }, ps) == parse_run(
            LexState { rest, pos: pos + w.len(), last, count },
            ps,
        ),
{
    let ls1 = LexState { rest: w + rest, pos, last, count };
    let ls2 = LexState { rest, pos: pos + w.len(), last, count };
    lemma_ws_len_prefix(w, rest);
    assert(lex_step(ls1) == lex_step(ls2));
    lemma_lex_step_progress(ls2);
}

/// Once the tokenizer has handed out the end-of-input token, every later
/// request hands out that same token and leaves the state as it is.
pub proof fn lemma_end_of_input_repeats(st: LexState)
    requires
        lex_step(st) matches Step::Emit { tok, .. } && tok.kind == TokenType::EOF,
    ensures
        ({
            let next = lex_step(st)->Emit_next;
            &&& lex_step(next) == (Step::Emit { tok: lex_step(st)->Emit_tok, next })
            &&& lex_step(next)->Emit_next == next
        }),
{
    if st.last != Some(TokenType::EOF) {
        let w = ws_len(st.rest);
        lemma_ws_len_bound(st.rest);
        assert(st.rest.skip(w as int).skip(0) =~= st.rest.skip(w as int));
    }
}

} // verus!
