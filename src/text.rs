//! The compact and indented text of a value, and their models.
use vstd::prelude::*;
use vstd::utf8::*;
use crate::lexical::{
    backslashes_before, hex4, hex_val, is_hex, lemma_ascii_valid_utf8, unescape, unicode_escape_at,
};
use crate::lexical::{false_bytes, null_bytes, true_bytes};
use crate::token_type::{
    BACKSLASH, COLON, COMMA, CR, LBRACE, LBRACKET, LF, QUOTE, RBRACE, RBRACKET, SPACE, TAB,
};
use crate::parser::{entries_view, items_view, lemma_array_view, lemma_object_view};
use crate::scan::utf8_to_string;
use crate::value::{JValue, JsonValue};

verus! {

/// No byte of `b` is a quote, a backslash or a control character: text
/// that a string literal holds without escapes.
pub open spec fn no_special(b: Seq<u8>) -> bool {
    forall|i: int| 0 <= i < b.len() ==> #[trigger] b[i] != QUOTE && b[i] != BACKSLASH && b[i] >= 0x20
}

/// The lower-case hexadecimal digit of `n`, below 16.
pub open spec fn hex_digit(n: u8) -> u8 {
    if n < 10 {
        (0x30 + n) as u8
    } else {
        (0x61 + n - 10) as u8
    }
}

/// How the byte `c` is written inside a string literal: quotes,
/// backslashes and control characters as escapes, other bytes as they are.
pub open spec fn escape_byte(c: u8) -> Seq<u8> {
    if c == QUOTE {
        seq![BACKSLASH, QUOTE]
    } else if c == BACKSLASH {
        seq![BACKSLASH, BACKSLASH]
    } else if c == LF {
        seq![BACKSLASH, 0x6eu8]
    } else if c == CR {
        seq![BACKSLASH, 0x72u8]
    } else if c == TAB {
        seq![BACKSLASH, 0x74u8]
    } else if c == 0x08 {
        seq![BACKSLASH, 0x62u8]
    } else if c == 0x0c {
        seq![BACKSLASH, 0x66u8]
    } else if c < 0x20 {
        seq![BACKSLASH, 0x75u8, 0x30u8, 0x30u8, hex_digit(c / 16), hex_digit(c % 16)]
    } else {
        seq![c]
    }
}

/// The bytes `b` as the body of a string literal.
pub open spec fn escape(b: Seq<u8>) -> Seq<u8>
    decreases b.len(),
{
    if b.len() == 0 {
        seq![]
    } else {
        escape_byte(b[0]) + escape(b.drop_first())
    }
}

pub proof fn lemma_escape_concat(x: Seq<u8>, y: Seq<u8>)
    ensures
        escape(x + y) == escape(x) + escape(y),
    decreases x.len(),
{
    if x.len() == 0 {
        assert(x + y =~= y);
        assert(escape(x) + escape(y) =~= escape(y));
    } else {
        assert((x + y).drop_first() =~= x.drop_first() + y);
        lemma_escape_concat(x.drop_first(), y);
        assert(escape(x + y) =~= escape(x) + escape(y));
    }
}

/// Bytes that need no escape are written as they are.
pub proof fn lemma_escape_plain(b: Seq<u8>)
    requires
        no_special(b),
    ensures
        escape(b) == b,
    decreases b.len(),
{
    if b.len() > 0 {
        let t = b.drop_first();
        assert forall|i: int| 0 <= i < t.len() implies #[trigger] t[i] != QUOTE && t[i] != BACKSLASH
            && t[i] >= 0x20 by {
            assert(t[i] == b[i + 1]);
        }
        lemma_escape_plain(t);
        assert(seq![b[0]] + t =~= b);
    }
}

proof fn lemma_escape_byte_ascii(c: u8)
    requires
        c < 0x80,
    ensures
        forall|i: int| 0 <= i < escape_byte(c).len() ==> #[trigger] escape_byte(c)[i] < 0x80,
{
}

/// Escaping keeps text valid UTF-8.
pub proof fn lemma_escape_valid(b: Seq<u8>)
    requires
        valid_utf8(b),
    ensures
        valid_utf8(escape(b)),
    decreases b.len(),
{
    if b.len() > 0 {
        let w = length_of_first_scalar(b);
        let head = b.subrange(0, w);
        let rest = b.subrange(w, b.len() as int);
        assert(rest == pop_first_scalar(b));
        assert(head + rest =~= b);
        lemma_escape_concat(head, rest);
        lemma_escape_valid(rest);
        assert(is_char_boundary(pop_first_scalar(b), 0));
        assert(is_char_boundary(b, w));
        valid_utf8_split(b, w);
        if w == 1 {
            assert(head =~= seq![b[0]]);
            assert(head.drop_first() =~= Seq::<u8>::empty());
            assert(escape(head.drop_first()) == Seq::<u8>::empty());
            assert(escape(head) =~= escape_byte(b[0]));
            lemma_escape_byte_ascii(b[0]);
            lemma_ascii_valid_utf8(escape(head));
        } else {
            assert forall|i: int| 0 <= i < head.len() implies #[trigger] head[i] != QUOTE && head[i]
                != BACKSLASH && head[i] >= 0x20 by {
                assert(head[i] == b[i]);
            }
            lemma_escape_plain(head);
        }
        valid_utf8_concat(escape(head), escape(rest));
    }
}

/// The string literal of `s`.
pub open spec fn string_text(s: Seq<char>) -> Seq<u8> {
    seq![QUOTE] + escape(encode_utf8(s)) + seq![QUOTE]
}

/// The compact text of a value: no whitespace, numbers as written, strings
/// escaped.
pub open spec fn compact_text(v: JValue) -> Seq<u8>
    decreases v,
{
    match v {
        JValue::Null => null_bytes(),
        JValue::Bool(b) => if b {
            true_bytes()
        } else {
            false_bytes()
        },
        JValue::Number(s) => encode_utf8(s),
        JValue::Str(s) => string_text(s),
        JValue::Array(items) => seq![LBRACKET] + items_text(items) + seq![RBRACKET],
        JValue::Object(e) => seq![LBRACE] + entries_text(e) + seq![RBRACE],
    }
}

/// The texts of `items`, separated by commas.
pub open spec fn items_text(items: Seq<JValue>) -> Seq<u8>
    decreases items,
{
    if items.len() == 0 {
        seq![]
    } else if items.len() == 1 {
        compact_text(items[0])
    } else {
        compact_text(items[0]) + seq![COMMA] + items_text(items.subrange(1, items.len() as int))
    }
}

/// The texts of the entries `e`, each a key, a colon and a value,
/// separated by commas.
pub open spec fn entries_text(e: Seq<(Seq<char>, JValue)>) -> Seq<u8>
    decreases e,
{
    if e.len() == 0 {
        seq![]
    } else if e.len() == 1 {
        string_text(e[0].0) + seq![COLON] + compact_text(e[0].1)
    } else {
        string_text(e[0].0) + seq![COLON] + compact_text(e[0].1) + seq![COMMA] + entries_text(
            e.subrange(1, e.len() as int),
        )
    }
}

proof fn lemma_items_text_push(s: Seq<JValue>, x: JValue)
    requires
        s.len() > 0,
    ensures
        items_text(s.push(x)) == items_text(s) + seq![COMMA] + compact_text(x),
    decreases s.len(),
{
    let t = s.push(x);
    assert(t[0] == s[0]);
    if s.len() == 1 {
        assert(t.subrange(1, 2) =~= seq![x]);
        assert(items_text(seq![x]) == compact_text(x));
        assert(items_text(t) == compact_text(s[0]) + seq![COMMA] + compact_text(x));
    } else {
        let u = s.subrange(1, s.len() as int);
        assert(t.subrange(1, t.len() as int) =~= u.push(x));
        lemma_items_text_push(u, x);
        assert(items_text(t) == compact_text(s[0]) + seq![COMMA] + items_text(u.push(x)));
        assert(items_text(s) == compact_text(s[0]) + seq![COMMA] + items_text(u));
    }
    assert(items_text(t) =~= items_text(s) + seq![COMMA] + compact_text(x));
}

proof fn lemma_entries_text_push(s: Seq<(Seq<char>, JValue)>, x: (Seq<char>, JValue))
    requires
        s.len() > 0,
    ensures
        entries_text(s.push(x)) == entries_text(s) + seq![COMMA] + string_text(x.0) + seq![COLON]
            + compact_text(x.1),
    decreases s.len(),
{
    let t = s.push(x);
    assert(t[0] == s[0]);
    let h = string_text(s[0].0) + seq![COLON] + compact_text(s[0].1);
    if s.len() == 1 {
        assert(t.subrange(1, 2) =~= seq![x]);
        assert(entries_text(seq![x]) == string_text(x.0) + seq![COLON] + compact_text(x.1));
        assert(entries_text(t) == h + seq![COMMA] + entries_text(seq![x]));
    } else {
        let u = s.subrange(1, s.len() as int);
        assert(t.subrange(1, t.len() as int) =~= u.push(x));
        lemma_entries_text_push(u, x);
        assert(entries_text(t) == h + seq![COMMA] + entries_text(u.push(x)));
        assert(entries_text(s) == h + seq![COMMA] + entries_text(u));
    }
    assert(entries_text(t) =~= entries_text(s) + seq![COMMA] + string_text(x.0) + seq![COLON] + compact_text(x.1));
}

/// Appends the escape of one byte.
fn push_escape_byte(out: &mut Vec<u8>, c: u8)
    ensures
        final(out)@ == old(out)@ + escape_byte(c),
{
    if c == QUOTE || c == BACKSLASH {
        out.push(BACKSLASH);
        out.push(c);
    } else if c == LF || c == CR || c == TAB || c == 0x08 || c == 0x0c {
        out.push(BACKSLASH);
        let letter: u8 = if c == LF {
            0x6e
        } else if c == CR {
            0x72
        } else if c == TAB {
            0x74
        } else if c == 0x08 {
            0x62
        } else {
            0x66
        };
        out.push(letter);
    } else if c < 0x20 {
        out.push(BACKSLASH);
        out.push(0x75);
        out.push(0x30);
        out.push(0x30);
        let hi = c / 16;
        let lo = c % 16;
        out.push(if hi < 10 { 0x30 + hi } else { 0x61 + hi - 10 });
        out.push(if lo < 10 { 0x30 + lo } else { 0x61 + lo - 10 });
    } else {
        out.push(c);
    }
    assert(final(out)@ =~= old(out)@ + escape_byte(c));
}

/// Appends the string literal of `s`.
fn push_string(out: &mut Vec<u8>, s: &String)
    ensures
        final(out)@ == old(out)@ + string_text(s@),
{
    let b = s.as_str().as_bytes();
    let ghost start = out@;
    out.push(QUOTE);
    let mut i: usize = 0;
    while i < b.len()
        invariant
            i <= b@.len(),
            b@ == encode_utf8(s@),
            out@ == start + seq![QUOTE] + escape(b@.take(i as int)),
        decreases b@.len() - i,
    {
        let c = b[i];
        proof {
            assert(b@.take(i + 1) =~= b@.take(i as int) + seq![c]);
            lemma_escape_concat(b@.take(i as int), seq![c]);
            assert(seq![c].drop_first() =~= Seq::<u8>::empty());
            assert(escape(seq![c].drop_first()) == Seq::<u8>::empty());
            assert(escape(seq![c]) =~= escape_byte(c));
        }
        push_escape_byte(out, c);
        i = i + 1;
        assert(out@ =~= start + seq![QUOTE] + escape(b@.take(i as int)));
    }
    assert(b@.take(i as int) =~= b@);
    out.push(QUOTE);
    assert(out@ =~= start + string_text(s@));
}

/// Appends the compact text of `v`.
fn push_value(out: &mut Vec<u8>, v: &JsonValue)
    ensures
        final(out)@ == old(out)@ + compact_text(v@),
    decreases v,
{
    let ghost start = out@;
    match v {
        JsonValue::Null => {
            out.push(0x6e);
            out.push(0x75);
            out.push(0x6c);
            out.push(0x6c);
            assert(out@ =~= start + null_bytes());
        },
        JsonValue::Bool(b) => {
            if *b {
                out.push(0x74);
                out.push(0x72);
                out.push(0x75);
                out.push(0x65);
                assert(out@ =~= start + true_bytes());
            } else {
                out.push(0x66);
                out.push(0x61);
                out.push(0x6c);
                out.push(0x73);
                out.push(0x65);
                assert(out@ =~= start + false_bytes());
            }
        },
        JsonValue::Number(s) => {
            let b = s.as_str().as_bytes();
            let mut i: usize = 0;
            while i < b.len()
                invariant
                    i <= b@.len(),
                    out@ == start + b@.take(i as int),
                decreases b@.len() - i,
            {
                out.push(b[i]);
                i = i + 1;
                assert(out@ =~= start + b@.take(i as int));
            }
            assert(b@.take(i as int) =~= b@);
        },
        JsonValue::String(s) => {
            push_string(out, s);
        },
        JsonValue::Array(items) => {
            proof {
                lemma_array_view(*items);
            }
            let ghost iv = items_view(items@);
            out.push(LBRACKET);
            let mut i: usize = 0;
            while i < items.len()
                invariant
                    i <= items@.len(),
                    iv == items_view(items@),
                    *v == JsonValue::Array(*items),
                    out@ == start + seq![LBRACKET] + items_text(iv.take(i as int)),
                decreases items@.len() - i,
            {
                if i > 0 {
                    out.push(COMMA);
                }
                proof {
                    assert(iv.take(i + 1) =~= iv.take(i as int).push(iv[i as int]));
                    if i > 0 {
                        lemma_items_text_push(iv.take(i as int), iv[i as int]);
                    } else {
                        assert(iv.take(1) =~= seq![iv[0]]);
                    }
                }
                proof {
                    vstd::std_specs::vec::axiom_vec_index_decreases(*items, i as int);
                    assert(decreases_to!(*v => (*v)->Array_0));
                    assert((*v)->Array_0 == *items);
                    assert(decreases_to!(*v => items[i as int]));
                }
                push_value(out, &items[i]);
                i = i + 1;
                assert(out@ =~= start + seq![LBRACKET] + items_text(iv.take(i as int)));
            }
            assert(iv.take(i as int) =~= iv);
            out.push(RBRACKET);
            assert(out@ =~= start + compact_text(v@));
        },
        JsonValue::Object(entries) => {
            proof {
                lemma_object_view(*entries);
            }
            let ghost ev = entries_view(entries@);
            out.push(LBRACE);
            let mut i: usize = 0;
            while i < entries.len()
                invariant
                    i <= entries@.len(),
                    ev == entries_view(entries@),
                    *v == JsonValue::Object(*entries),
                    out@ == start + seq![LBRACE] + entries_text(ev.take(i as int)),
                decreases entries@.len() - i,
            {
                if i > 0 {
                    out.push(COMMA);
                }
                proof {
                    assert(ev.take(i + 1) =~= ev.take(i as int).push(ev[i as int]));
                    if i > 0 {
                        lemma_entries_text_push(ev.take(i as int), ev[i as int]);
                    } else {
                        assert(ev.take(1) =~= seq![ev[0]]);
                    }
                }
                push_string(out, &entries[i].0);
                out.push(COLON);
                proof {
                    vstd::std_specs::vec::axiom_vec_index_decreases(*entries, i as int);
                    assert(decreases_to!(*v => (*v)->Object_0));
                    assert((*v)->Object_0 == *entries);
                    assert(decreases_to!(*v => entries[i as int]));
                    assert(decreases_to!(*v => entries[i as int].1));
                }
                push_value(out, &entries[i].1);
                i = i + 1;
                assert(out@ =~= start + seq![LBRACE] + entries_text(ev.take(i as int)));
            }
            assert(ev.take(i as int) =~= ev);
            out.push(RBRACE);
            assert(out@ =~= start + compact_text(v@));
        },
    }
}

proof fn lemma_ascii_byte_valid(c: u8)
    requires
        c < 0x80,
    ensures
        valid_utf8(seq![c]),
{
    lemma_ascii_valid_utf8(seq![c]);
}

proof fn lemma_string_text_valid(s: Seq<char>)
    ensures
        valid_utf8(string_text(s)),
{
    encode_utf8_valid_utf8(s);
    lemma_escape_valid(encode_utf8(s));
    lemma_ascii_byte_valid(QUOTE);
    valid_utf8_concat(seq![QUOTE], escape(encode_utf8(s)));
    valid_utf8_concat(seq![QUOTE] + escape(encode_utf8(s)), seq![QUOTE]);
}

/// The compact text of every value is valid UTF-8.
pub proof fn lemma_compact_text_valid(v: JValue)
    ensures
        valid_utf8(compact_text(v)),
    decreases v,
{
    match v {
        JValue::Null => {
            lemma_ascii_valid_utf8(null_bytes());
        },
        JValue::Bool(b) => {
            lemma_ascii_valid_utf8(true_bytes());
            lemma_ascii_valid_utf8(false_bytes());
        },
        JValue::Number(s) => {
            encode_utf8_valid_utf8(s);
        },
        JValue::Str(s) => {
            lemma_string_text_valid(s);
        },
        JValue::Array(items) => {
            lemma_items_text_valid(items);
            lemma_ascii_byte_valid(LBRACKET);
            lemma_ascii_byte_valid(RBRACKET);
            valid_utf8_concat(seq![LBRACKET], items_text(items));
            valid_utf8_concat(seq![LBRACKET] + items_text(items), seq![RBRACKET]);
        },
        JValue::Object(e) => {
            lemma_entries_text_valid(e);
            lemma_ascii_byte_valid(LBRACE);
            lemma_ascii_byte_valid(RBRACE);
            valid_utf8_concat(seq![LBRACE], entries_text(e));
            valid_utf8_concat(seq![LBRACE] + entries_text(e), seq![RBRACE]);
        },
    }
}

proof fn lemma_items_text_valid(items: Seq<JValue>)
    ensures
        valid_utf8(items_text(items)),
    decreases items,
{
    if items.len() == 0 {
    } else if items.len() == 1 {
        lemma_compact_text_valid(items[0]);
    } else {
        let rest = items.subrange(1, items.len() as int);
        lemma_compact_text_valid(items[0]);
        lemma_items_text_valid(rest);
        lemma_ascii_byte_valid(COMMA);
        valid_utf8_concat(compact_text(items[0]), seq![COMMA]);
        valid_utf8_concat(compact_text(items[0]) + seq![COMMA], items_text(rest));
    }
}

proof fn lemma_entries_text_valid(e: Seq<(Seq<char>, JValue)>)
    ensures
        valid_utf8(entries_text(e)),
    decreases e,
{
    if e.len() > 0 {
        lemma_string_text_valid(e[0].0);
        lemma_compact_text_valid(e[0].1);
        lemma_ascii_byte_valid(COLON);
        valid_utf8_concat(string_text(e[0].0), seq![COLON]);
        valid_utf8_concat(string_text(e[0].0) + seq![COLON], compact_text(e[0].1));
        if e.len() > 1 {
            let rest = e.subrange(1, e.len() as int);
            lemma_entries_text_valid(rest);
            lemma_ascii_byte_valid(COMMA);
            let h = string_text(e[0].0) + seq![COLON] + compact_text(e[0].1);
            valid_utf8_concat(h, seq![COMMA]);
            valid_utf8_concat(h + seq![COMMA], entries_text(rest));
        }
    }
}

/// The compact text of `v`: no whitespace, numbers as written, and in
/// strings quotes, backslashes and control characters escaped.
pub fn to_json_text(v: &JsonValue) -> (r: String)
    ensures
        r@ == decode_utf8(compact_text(v@)),
{
    let mut out: Vec<u8> = Vec::new();
    push_value(&mut out, v);
    proof {
        assert(out@ =~= compact_text(v@));
        lemma_compact_text_valid(v@);
    }
    match utf8_to_string(out) {
        Some(text) => text,
        None => String::new(),
    }
}

pub proof fn lemma_backslashes_prefix(x: Seq<u8>, y: Seq<u8>, q: int)
    requires
        0 <= q <= x.len(),
    ensures
        backslashes_before(x + y, q) == backslashes_before(x, q),
    decreases q,
{
    if q > 0 {
        assert((x + y)[q - 1] == x[q - 1]);
        lemma_backslashes_prefix(x, y, q - 1);
    }
}

/// In escaped text the backslashes at the end come in pairs, and every
/// quote follows an odd run of backslashes.
pub proof fn lemma_escape_quotes(b: Seq<u8>)
    ensures
        backslashes_before(escape(b), escape(b).len() as int) % 2 == 0,
        forall|p: int|
            0 <= p < escape(b).len() && escape(b)[p] == QUOTE ==> #[trigger] backslashes_before(escape(b), p) % 2
                == 1,
    decreases b.len(),
{
    if b.len() > 0 {
        let a = b.drop_last();
        let c = b.last();
        assert(a + seq![c] =~= b);
        lemma_escape_concat(a, seq![c]);
        assert(seq![c].drop_first() =~= Seq::<u8>::empty());
        assert(escape(seq![c].drop_first()) == Seq::<u8>::empty());
        assert(escape(seq![c]) =~= escape_byte(c));
        lemma_escape_quotes(a);
        let x = escape(a);
        let y = escape_byte(c);
        let s = escape(b);
        assert(s == x + y);
        let n = x.len() as int;
        lemma_backslashes_prefix(x, y, n);
        if c == BACKSLASH {
            assert(s.len() == n + 2);
            assert(s[n + 1] == BACKSLASH && s[n] == BACKSLASH);
            assert(backslashes_before(s, n + 1) == 1 + backslashes_before(s, n));
            assert(backslashes_before(s, n + 2) == 1 + backslashes_before(s, n + 1));
        } else {
            assert(s[s.len() - 1] != BACKSLASH);
        }
        assert forall|p: int| 0 <= p < s.len() && s[p] == QUOTE implies #[trigger] backslashes_before(s, p) % 2
            == 1 by {
            if p < n {
                assert(s[p] == x[p]);
                lemma_backslashes_prefix(x, y, p);
            } else {
                assert(c == QUOTE && p == n + 1);
                assert(s[n] == BACKSLASH);
            }
        }
    }
}

proof fn lemma_hex_digit(n: u8)
    requires
        n < 16,
    ensures
        is_hex(hex_digit(n)),
        hex_val(hex_digit(n)) == n as u32,
{
}

/// Reading back the escape of one byte.
proof fn lemma_unescape_escape_byte(c: u8, rest: Seq<u8>)
    ensures
        unescape(escape_byte(c) + rest) == (match unescape(rest) {
            Some(t) => Some(seq![c] + t),
            None => None,
        }),
{
    let e = escape_byte(c);
    let s = e + rest;
    assert(s.skip(e.len() as int) =~= rest);
    if e.len() == 1 {
        assert(s.drop_first() =~= rest);
    } else if e.len() == 2 {
        assert(s.skip(2) =~= rest);
    } else {
        let hi = c / 16;
        let lo = c % 16;
        lemma_hex_digit(hi);
        lemma_hex_digit(lo);
        let h = s.subrange(2, 6);
        assert(h[0] == 0x30 && h[1] == 0x30 && h[2] == hex_digit(hi) && h[3] == hex_digit(lo));
        assert(hex4(h) == c as u32) by (nonlinear_arith)
            requires
                hex4(h) == (hex_val(h[0]) * 4096 + hex_val(h[1]) * 256 + hex_val(h[2]) * 16 + hex_val(h[3])) as u32,
                hex_val(h[0]) == 0,
                hex_val(h[1]) == 0,
                hex_val(h[2]) == hi as u32,
                hex_val(h[3]) == lo as u32,
                hi == c / 16,
                lo == c % 16,
        ;
        assert(unicode_escape_at(s));
        let v = c as u32;
        assert((v & 0x7f) == v) by (bit_vector)
            requires
                v < 0x20,
        ;
        assert(encode_scalar(v) =~= seq![c]);
        assert(s.skip(6) =~= rest);
    }
}

/// Reading back escaped text gives the bytes that were escaped.
pub proof fn lemma_unescape_escape(b: Seq<u8>)
    ensures
        unescape(escape(b)) == Some(b),
    decreases b.len(),
{
    if b.len() == 0 {
        assert(escape(b) =~= Seq::<u8>::empty());
    } else {
        lemma_unescape_escape(b.drop_first());
        lemma_unescape_escape_byte(b[0], escape(b.drop_first()));
        assert(seq![b[0]] + b.drop_first() =~= b);
    }
}

/// One more level of indentation than `ind`.
pub open spec fn deeper(ind: Seq<u8>) -> Seq<u8> {
    ind + seq![SPACE, SPACE]
}

/// The indented text of a value whose lines start with `ind`: each item
/// and entry of a non-empty container on a line of its own, indented two
/// spaces more than the container, and the closing bracket on a line of
/// its own; scalars and empty containers as in the compact text.
pub open spec fn pretty_text(v: JValue, ind: Seq<u8>) -> Seq<u8>
    decreases v,
{
    match v {
        JValue::Array(items) => if items.len() == 0 {
            seq![LBRACKET, RBRACKET]
        } else {
            seq![LBRACKET] + pretty_items(items, deeper(ind)) + seq![LF] + ind + seq![RBRACKET]
        },
        JValue::Object(e) => if e.len() == 0 {
            seq![LBRACE, RBRACE]
        } else {
            seq![LBRACE] + pretty_entries(e, deeper(ind)) + seq![LF] + ind + seq![RBRACE]
        },
        _ => compact_text(v),
    }
}

/// The items of an array, each on a new line that starts with `ind`,
/// separated by commas.
pub open spec fn pretty_items(items: Seq<JValue>, ind: Seq<u8>) -> Seq<u8>
    decreases items,
{
    if items.len() == 0 {
        seq![]
    } else if items.len() == 1 {
        seq![LF] + ind + pretty_text(items[0], ind)
    } else {
        seq![LF] + ind + pretty_text(items[0], ind) + seq![COMMA] + pretty_items(
            items.subrange(1, items.len() as int),
            ind,
        )
    }
}

/// The line of one entry: the key, a colon, a space and the value.
pub open spec fn pretty_entry(k: Seq<char>, v: JValue, ind: Seq<u8>) -> Seq<u8> {
    seq![LF] + ind + string_text(k) + seq![COLON, SPACE] + pretty_text(v, ind)
}

/// The entries of an object, each on a new line that starts with `ind`,
/// separated by commas.
pub open spec fn pretty_entries(e: Seq<(Seq<char>, JValue)>, ind: Seq<u8>) -> Seq<u8>
    decreases e,
{
    if e.len() == 0 {
        seq![]
    } else if e.len() == 1 {
        seq![LF] + ind + string_text(e[0].0) + seq![COLON, SPACE] + pretty_text(e[0].1, ind)
    } else {
        seq![LF] + ind + string_text(e[0].0) + seq![COLON, SPACE] + pretty_text(e[0].1, ind) + seq![COMMA]
            + pretty_entries(e.subrange(1, e.len() as int), ind)
    }
}

proof fn lemma_pretty_items_push(s: Seq<JValue>, x: JValue, ind: Seq<u8>)
    requires
        s.len() > 0,
    ensures
        pretty_items(s.push(x), ind) == pretty_items(s, ind) + seq![COMMA] + seq![LF] + ind + pretty_text(x, ind),
    decreases s.len(),
{
    let t = s.push(x);
    assert(t[0] == s[0]);
    let h = seq![LF] + ind + pretty_text(s[0], ind);
    if s.len() == 1 {
        assert(t.subrange(1, 2) =~= seq![x]);
        assert(pretty_items(seq![x], ind) == seq![LF] + ind + pretty_text(x, ind));
        assert(pretty_items(t, ind) == h + seq![COMMA] + pretty_items(seq![x], ind));
    } else {
        let u = s.subrange(1, s.len() as int);
        assert(t.subrange(1, t.len() as int) =~= u.push(x));
        lemma_pretty_items_push(u, x, ind);
        assert(pretty_items(t, ind) == h + seq![COMMA] + pretty_items(u.push(x), ind));
        assert(pretty_items(s, ind) == h + seq![COMMA] + pretty_items(u, ind));
    }
    assert(pretty_items(t, ind) =~= pretty_items(s, ind) + seq![COMMA] + seq![LF] + ind + pretty_text(x, ind));
}

proof fn lemma_pretty_entries_push(s: Seq<(Seq<char>, JValue)>, x: (Seq<char>, JValue), ind: Seq<u8>)
    requires
        s.len() > 0,
    ensures
        pretty_entries(s.push(x), ind) == pretty_entries(s, ind) + seq![COMMA] + pretty_entry(x.0, x.1, ind),
    decreases s.len(),
{
    let t = s.push(x);
    assert(t[0] == s[0]);
    let h = seq![LF] + ind + string_text(s[0].0) + seq![COLON, SPACE] + pretty_text(s[0].1, ind);
    if s.len() == 1 {
        assert(t.subrange(1, 2) =~= seq![x]);
        assert(pretty_entries(seq![x], ind) == pretty_entry(x.0, x.1, ind));
        assert(pretty_entries(t, ind) == h + seq![COMMA] + pretty_entries(seq![x], ind));
    } else {
        let u = s.subrange(1, s.len() as int);
        assert(t.subrange(1, t.len() as int) =~= u.push(x));
        lemma_pretty_entries_push(u, x, ind);
        assert(pretty_entries(t, ind) == h + seq![COMMA] + pretty_entries(u.push(x), ind));
        assert(pretty_entries(s, ind) == h + seq![COMMA] + pretty_entries(u, ind));
    }
    assert(pretty_entries(t, ind) =~= pretty_entries(s, ind) + seq![COMMA] + pretty_entry(x.0, x.1, ind));
}

/// Appends the bytes `b`.
fn push_all(out: &mut Vec<u8>, b: &Vec<u8>)
    ensures
        final(out)@ == old(out)@ + b@,
{
    let mut i: usize = 0;
    while i < b.len()
        invariant
            i <= b@.len(),
            out@ == old(out)@ + b@.take(i as int),
        decreases b@.len() - i,
    {
        out.push(b[i]);
        i = i + 1;
        assert(out@ =~= old(out)@ + b@.take(i as int));
    }
    assert(b@.take(i as int) =~= b@);
}

/// Appends the indented text of `v`, whose lines start with `ind`.
fn push_pretty(out: &mut Vec<u8>, v: &JsonValue, ind: &Vec<u8>)
    ensures
        final(out)@ == old(out)@ + pretty_text(v@, ind@),
    decreases v,
{
    let ghost start = out@;
    let mut inner = ind.clone();
    inner.push(SPACE);
    inner.push(SPACE);
    assert(inner@ =~= deeper(ind@));
    match v {
        JsonValue::Array(items) => {
            proof {
                lemma_array_view(*items);
            }
            let ghost iv = items_view(items@);
            out.push(LBRACKET);
            if items.len() == 0 {
                out.push(RBRACKET);
                assert(iv.len() == 0);
                assert(out@ =~= start + pretty_text(v@, ind@));
                return;
            }
            let mut i: usize = 0;
            while i < items.len()
                invariant
                    i <= items@.len(),
                    iv == items_view(items@),
                    *v == JsonValue::Array(*items),
                    inner@ == deeper(ind@),
                    out@ == start + seq![LBRACKET] + pretty_items(iv.take(i as int), inner@),
                decreases items@.len() - i,
            {
                if i > 0 {
                    out.push(COMMA);
                }
                out.push(LF);
                push_all(out, &inner);
                proof {
                    assert(iv.take(i + 1) =~= iv.take(i as int).push(iv[i as int]));
                    if i > 0 {
                        lemma_pretty_items_push(iv.take(i as int), iv[i as int], inner@);
                    } else {
                        assert(iv.take(1) =~= seq![iv[0]]);
                    }
                    vstd::std_specs::vec::axiom_vec_index_decreases(*items, i as int);
                    assert(decreases_to!(*v => (*v)->Array_0));
                    assert((*v)->Array_0 == *items);
                    assert(decreases_to!(*v => items[i as int]));
                }
                push_pretty(out, &items[i], &inner);
                i = i + 1;
                assert(out@ =~= start + seq![LBRACKET] + pretty_items(iv.take(i as int), inner@));
            }
            assert(iv.take(i as int) =~= iv);
            out.push(LF);
            push_all(out, ind);
            out.push(RBRACKET);
            assert(out@ =~= start + pretty_text(v@, ind@));
        },
        JsonValue::Object(entries) => {
            proof {
                lemma_object_view(*entries);
            }
            let ghost ev = entries_view(entries@);
            out.push(LBRACE);
            if entries.len() == 0 {
                out.push(RBRACE);
                assert(ev.len() == 0);
                assert(out@ =~= start + pretty_text(v@, ind@));
                return;
            }
            let mut i: usize = 0;
            while i < entries.len()
                invariant
                    i <= entries@.len(),
                    ev == entries_view(entries@),
                    *v == JsonValue::Object(*entries),
                    inner@ == deeper(ind@),
                    out@ == start + seq![LBRACE] + pretty_entries(ev.take(i as int), inner@),
                decreases entries@.len() - i,
            {
                if i > 0 {
                    out.push(COMMA);
                }
                out.push(LF);
                push_all(out, &inner);
                proof {
                    assert(ev.take(i + 1) =~= ev.take(i as int).push(ev[i as int]));
                    if i > 0 {
                        lemma_pretty_entries_push(ev.take(i as int), ev[i as int], inner@);
                    } else {
                        assert(ev.take(1) =~= seq![ev[0]]);
                    }
                    vstd::std_specs::vec::axiom_vec_index_decreases(*entries, i as int);
                    assert(decreases_to!(*v => (*v)->Object_0));
                    assert((*v)->Object_0 == *entries);
                    assert(decreases_to!(*v => entries[i as int]));
                    assert(decreases_to!(*v => entries[i as int].1));
                }
                push_string(out, &entries[i].0);
                out.push(COLON);
                out.push(SPACE);
                push_pretty(out, &entries[i].1, &inner);
                i = i + 1;
                assert(out@ =~= start + seq![LBRACE] + pretty_entries(ev.take(i as int), inner@));
            }
            assert(ev.take(i as int) =~= ev);
            out.push(LF);
            push_all(out, ind);
            out.push(RBRACE);
            assert(out@ =~= start + pretty_text(v@, ind@));
        },
        _ => {
            push_value(out, v);
        },
    }
}

/// Every byte of `b` is ASCII.
pub open spec fn all_ascii(b: Seq<u8>) -> bool {
    forall|i: int| 0 <= i < b.len() ==> #[trigger] b[i] < 0x80
}

proof fn lemma_ascii_concat(x: Seq<u8>, y: Seq<u8>)
    requires
        all_ascii(x),
        all_ascii(y),
    ensures
        all_ascii(x + y),
{
    assert forall|i: int| 0 <= i < (x + y).len() implies #[trigger] (x + y)[i] < 0x80 by {
        if i < x.len() {
            assert((x + y)[i] == x[i]);
        } else {
            assert((x + y)[i] == y[i - x.len()]);
        }
    }
}

/// A line start `ind` followed by a line break is valid UTF-8 as prefix.
proof fn lemma_line_start_valid(ind: Seq<u8>)
    requires
        all_ascii(ind),
    ensures
        valid_utf8(seq![LF] + ind),
        all_ascii(deeper(ind)),
{
    lemma_ascii_concat(seq![LF], ind);
    lemma_ascii_valid_utf8(seq![LF] + ind);
    lemma_ascii_concat(ind, seq![SPACE, SPACE]);
}

/// The indented text of every value is valid UTF-8.
pub proof fn lemma_pretty_text_valid(v: JValue, ind: Seq<u8>)
    requires
        all_ascii(ind),
    ensures
        valid_utf8(pretty_text(v, ind)),
    decreases v,
{
    lemma_line_start_valid(ind);
    match v {
        JValue::Array(items) => {
            if items.len() == 0 {
                lemma_ascii_valid_utf8(seq![LBRACKET, RBRACKET]);
            } else {
                lemma_pretty_items_valid(items, deeper(ind));
                lemma_ascii_byte_valid(LBRACKET);
                lemma_ascii_byte_valid(RBRACKET);
                valid_utf8_concat(seq![LBRACKET], pretty_items(items, deeper(ind)));
                valid_utf8_concat(seq![LBRACKET] + pretty_items(items, deeper(ind)), seq![LF] + ind);
                assert(seq![LBRACKET] + pretty_items(items, deeper(ind)) + (seq![LF] + ind) =~= seq![LBRACKET]
                    + pretty_items(items, deeper(ind)) + seq![LF] + ind);
                valid_utf8_concat(seq![LBRACKET] + pretty_items(items, deeper(ind)) + seq![LF] + ind, seq![RBRACKET]);
            }
        },
        JValue::Object(e) => {
            if e.len() == 0 {
                lemma_ascii_valid_utf8(seq![LBRACE, RBRACE]);
            } else {
                lemma_pretty_entries_valid(e, deeper(ind));
                lemma_ascii_byte_valid(LBRACE);
                lemma_ascii_byte_valid(RBRACE);
                valid_utf8_concat(seq![LBRACE], pretty_entries(e, deeper(ind)));
                valid_utf8_concat(seq![LBRACE] + pretty_entries(e, deeper(ind)), seq![LF] + ind);
                assert(seq![LBRACE] + pretty_entries(e, deeper(ind)) + (seq![LF] + ind) =~= seq![LBRACE]
                    + pretty_entries(e, deeper(ind)) + seq![LF] + ind);
                valid_utf8_concat(seq![LBRACE] + pretty_entries(e, deeper(ind)) + seq![LF] + ind, seq![RBRACE]);
            }
        },
        _ => {
            lemma_compact_text_valid(v);
        },
    }
}

proof fn lemma_pretty_items_valid(items: Seq<JValue>, ind: Seq<u8>)
    requires
        all_ascii(ind),
    ensures
        valid_utf8(pretty_items(items, ind)),
    decreases items,
{
    if items.len() > 0 {
        lemma_line_start_valid(ind);
        lemma_pretty_text_valid(items[0], ind);
        valid_utf8_concat(seq![LF] + ind, pretty_text(items[0], ind));
        let h = seq![LF] + ind + pretty_text(items[0], ind);
        if items.len() > 1 {
            let rest = items.subrange(1, items.len() as int);
            lemma_pretty_items_valid(rest, ind);
            lemma_ascii_byte_valid(COMMA);
            valid_utf8_concat(h, seq![COMMA]);
            valid_utf8_concat(h + seq![COMMA], pretty_items(rest, ind));
        }
    }
}

proof fn lemma_pretty_entries_valid(e: Seq<(Seq<char>, JValue)>, ind: Seq<u8>)
    requires
        all_ascii(ind),
    ensures
        valid_utf8(pretty_entries(e, ind)),
    decreases e,
{
    if e.len() > 0 {
        lemma_line_start_valid(ind);
        lemma_string_text_valid(e[0].0);
        lemma_pretty_text_valid(e[0].1, ind);
        lemma_ascii_valid_utf8(seq![COLON, SPACE]);
        valid_utf8_concat(seq![LF] + ind, string_text(e[0].0));
        valid_utf8_concat(seq![LF] + ind + string_text(e[0].0), seq![COLON, SPACE]);
        valid_utf8_concat(seq![LF] + ind + string_text(e[0].0) + seq![COLON, SPACE], pretty_text(e[0].1, ind));
        let h = seq![LF] + ind + string_text(e[0].0) + seq![COLON, SPACE] + pretty_text(e[0].1, ind);
        if e.len() > 1 {
            let rest = e.subrange(1, e.len() as int);
            lemma_pretty_entries_valid(rest, ind);
            lemma_ascii_byte_valid(COMMA);
            valid_utf8_concat(h, seq![COMMA]);
            valid_utf8_concat(h + seq![COMMA], pretty_entries(rest, ind));
        }
    }
}

/// The indented text of `v`: each item and entry of a non-empty container
/// on a line of its own, two spaces deeper than the container.
pub fn to_pretty_json_text(v: &JsonValue) -> (r: String)
    ensures
        r@ == decode_utf8(pretty_text(v@, seq![])),
{
    let mut out: Vec<u8> = Vec::new();
    let ind: Vec<u8> = Vec::new();
    push_pretty(&mut out, v, &ind);
    proof {
        assert(ind@ =~= Seq::<u8>::empty());
        assert(out@ =~= pretty_text(v@, seq![]));
        lemma_pretty_text_valid(v@, seq![]);
    }
    match utf8_to_string(out) {
        Some(text) => text,
        None => String::new(),
    }
}

} // verus!
