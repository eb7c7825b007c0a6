//! Reading single lexemes from a reader: runs, numbers, string literals
//! and their escape sequences.
use vstd::prelude::*;
use vstd::utf8::*;
use crate::byte_reader::{ByteReader, ByteReaderModel, peek_next, read_byte, read_until};
use crate::lexical::{
    backslashes_before, closes_string, digits_len, exp_end, frac_end, hex4, hex_val, int_part_end,
    is_hex, is_string_end, run_len, simple_escape, unescape, valid_number,
};
use crate::token_type::{
    TokenType, BACKSLASH, CR, DIGIT_0, DIGIT_9, LF, MINUS, PLUS, POINT, QUOTE, TAB,
};

verus! {

/// Relies on String::from_utf8: it succeeds exactly on valid UTF-8, with
/// the text that the bytes encode.
#[verifier::external_body]
pub(crate) fn utf8_to_string(bytes: Vec<u8>) -> (r: Option<String>)
    ensures
        valid_utf8(bytes@) ==> r is Some && r->Some_0@ == decode_utf8(bytes@),
        !valid_utf8(bytes@) ==> r is None,
{
    String::from_utf8(bytes).ok()
}

/// Reads the run of bytes up to the first delimiter or the end of input.
pub fn read_run<R: ByteReader>(reader: &mut R) -> (out: Vec<u8>)
    requires
        old(reader).inv(),
    ensures
        final(reader).inv(),
        final(reader).chunk_len() == old(reader).chunk_len(),
        out@ == old(reader).remaining().take(run_len(old(reader).remaining()) as int),
        final(reader).remaining() == old(reader).remaining().skip(out@.len() as int),
        final(reader).pos() == old(reader).pos() + out@.len(),
{
    let ghost r0 = reader.remaining();
    let mut out: Vec<u8> = Vec::new();
    loop
        invariant
            reader.inv(),
            reader.chunk_len() == old(reader).chunk_len(),
            r0 == old(reader).remaining(),
            out@.len() <= r0.len(),
            out@ == r0.take(out@.len() as int),
            reader.remaining() == r0.skip(out@.len() as int),
            reader.pos() == old(reader).pos() + out@.len(),
            run_len(r0) == out@.len() + run_len(reader.remaining()),
        ensures
            run_len(reader.remaining()) == 0,
        decreases reader.remaining().len(),
    {
        let peeked = peek_next(reader);
        match peeked {
            Some(b) => {
                if TokenType::is_single_byte_token(b) {
                    break;
                }
                let ghost before = reader.remaining();
                let _ = read_byte(reader);
                out.push(b);
                proof {
                    assert(r0.skip(out@.len() as int) =~= before.drop_first());
                    assert(out@ =~= r0.take(out@.len() as int));
                }
            },
            None => {
                break;
            },
        }
    }
    out
}

/// The number of decimal digits in `s` from index `i` on.
pub fn count_digits(s: &Vec<u8>, i: usize) -> (n: usize)
    requires
        i <= s@.len(),
    ensures
        n == digits_len(s@, i as int),
        i + n <= s@.len(),
{
    let mut k = i;
    while k < s.len() && s[k] >= DIGIT_0 && s[k] <= DIGIT_9
        invariant
            i <= k <= s@.len(),
            digits_len(s@, i as int) == (k - i) + digits_len(s@, k as int),
        decreases s@.len() - k,
    {
        k = k + 1;
    }
    k - i
}

/// Whether `s` is a well-formed number.
pub fn is_valid_number(s: &Vec<u8>) -> (r: bool)
    ensures
        r == valid_number(s@),
{
    let n = s.len();
    let i: usize = if n > 0 && s[0] == MINUS {
        1
    } else {
        0
    };
    if i > n {
        return false;
    }
    let d = count_digits(s, i);
    if d == 0 {
        return false;
    }
    let i1 = if s[i] == DIGIT_0 {
        i + 1
    } else {
        i + d
    };
    assert(int_part_end(s@) == Some(i1 as int));
    let i2 = if i1 < n && s[i1] == POINT {
        let f = count_digits(s, i1 + 1);
        if f == 0 {
            return false;
        }
        i1 + 1 + f
    } else {
        i1
    };
    assert(frac_end(s@, i1 as int) == Some(i2 as int));
    let i3 = if i2 < n && (s[i2] == 0x65 || s[i2] == 0x45) {
        let j = if i2 + 1 < n && (s[i2 + 1] == PLUS || s[i2 + 1] == MINUS) {
            i2 + 2
        } else {
            i2 + 1
        };
        let e = count_digits(s, j);
        if e == 0 {
            return false;
        }
        j + e
    } else {
        i2
    };
    assert(exp_end(s@, i2 as int) == Some(i3 as int));
    i3 == n
}

/// Reads a string literal whose opening quote is already read: every byte
/// up to and including the first unescaped quote.
pub fn read_string_raw<R: ByteReader>(reader: &mut R) -> (r: Option<Vec<u8>>)
    requires
        old(reader).inv(),
    ensures
        final(reader).inv(),
        final(reader).chunk_len() == old(reader).chunk_len(),
        final(reader).pos() >= old(reader).pos(),
        (exists|q: int| is_string_end(old(reader).remaining(), q)) <==> r is Some,
        r is Some ==> {
            let raw = r->Some_0@;
            &&& raw.len() > 0
            &&& is_string_end(old(reader).remaining(), raw.len() - 1)
            &&& raw == old(reader).remaining().take(raw.len() as int)
            &&& final(reader).remaining() == old(reader).remaining().skip(raw.len() as int)
            &&& final(reader).pos() == old(reader).pos() + raw.len()
        },
{
    let ghost t = reader.remaining();
    let mut raw: Vec<u8> = Vec::new();
    loop
        invariant
            reader.inv(),
            reader.chunk_len() == old(reader).chunk_len(),
            t == old(reader).remaining(),
            raw@.len() <= t.len(),
            raw@ == t.take(raw@.len() as int),
            reader.remaining() == t.skip(raw@.len() as int),
            reader.pos() == old(reader).pos() + raw@.len(),
            forall|p: int| 0 <= p < raw@.len() ==> !closes_string(t, p),
        decreases reader.remaining().len(),
    {
        let ghost before = raw@.len();
        match read_until(reader, QUOTE) {
            Err(_) => {
                proof {
                    assert forall|q: int| !is_string_end(t, q) by {
                        if 0 <= q < t.len() && q >= raw@.len() && t[q] == QUOTE {
                            assert(reader.remaining()[q - raw@.len()] == t[q]);
                        }
                    }
                }
                return None;
            },
            Ok(chunk) => {
                let mut chunk = chunk;
                raw.append(&mut chunk);
                proof {
                    assert(raw@ =~= t.take(raw@.len() as int));
                    assert(reader.remaining() =~= t.skip(raw@.len() as int));
                }
                let q = raw.len() - 1;
                let mut k = q;
                while k > 0 && raw[k - 1] == BACKSLASH
                    invariant
                        k <= q < raw@.len(),
                        raw@ == t.take(raw@.len() as int),
                        raw@.len() <= t.len(),
                        backslashes_before(t, q as int) == (q - k) + backslashes_before(t, k as int),
                    decreases k,
                {
                    k = k - 1;
                }
                proof {
                    assert forall|p: int| 0 <= p < q implies !closes_string(t, p) by {
                        if p >= before {
                            assert(t[p] == raw@[p]);
                        }
                    }
                }
                if (q - k) % 2 == 0 {
                    assert(is_string_end(t, q as int));
                    return Some(raw);
                }
                assert(!closes_string(t, q as int));
            },
        }
    }
}

/// `p` put before the text of `o`, if there is one.
pub open spec fn prepend(p: Seq<u8>, o: Option<Seq<u8>>) -> Option<Seq<u8>> {
    match o {
        Some(t) => Some(p + t),
        None => None,
    }
}

proof fn lemma_prepend_twice(a: Seq<u8>, b: Seq<u8>, o: Option<Seq<u8>>)
    ensures
        prepend(a, prepend(b, o)) == prepend(a + b, o),
{
    if let Some(t) = o {
        assert(a + (b + t) =~= (a + b) + t);
    }
}

/// Whether `c` is a hexadecimal digit.
fn is_hex_byte(c: u8) -> (r: bool)
    ensures
        r == is_hex(c),
{
    (c >= DIGIT_0 && c <= DIGIT_9) || (c >= 0x61 && c <= 0x66) || (c >= 0x41 && c <= 0x46)
}

/// The value of the hexadecimal digit `c`.
fn hex_value(c: u8) -> (r: u32)
    requires
        is_hex(c),
    ensures
        r == hex_val(c),
        r < 16,
{
    if c >= DIGIT_0 && c <= DIGIT_9 {
        (c - DIGIT_0) as u32
    } else if c >= 0x61 && c <= 0x66 {
        (c - 0x61 + 10) as u32
    } else {
        (c - 0x41 + 10) as u32
    }
}

/// Appends the UTF-8 encoding of the scalar value `v`.
fn push_scalar(out: &mut Vec<u8>, v: u32)
    requires
        is_scalar(v),
        v <= 0xFFFF,
    ensures
        final(out)@ == old(out)@ + encode_scalar(v),
{
    if v <= 0x7F {
        out.push((v & 0x7F) as u8);
    } else if v <= 0x7FF {
        out.push(0xC0 | ((v >> 6) & 0x1F) as u8);
        out.push(0x80 | (v & 0x3F) as u8);
    } else {
        out.push(0xE0 | ((v >> 12) & 0x0F) as u8);
        out.push(0x80 | ((v >> 6) & 0x3F) as u8);
        out.push(0x80 | (v & 0x3F) as u8);
    }
    assert(final(out)@ =~= old(out)@ + encode_scalar(v));
}

/// Whether `v` is a Unicode scalar value.
fn is_scalar_value(v: u32) -> (r: bool)
    ensures
        r == is_scalar(v),
{
    v <= 0x10FFFF && !(0xD800 <= v && v <= 0xDFFF)
}

/// Decodes the escape sequences in the first `n` bytes of `b`, the body of
/// a string literal, into the UTF-8 bytes they stand for.
pub fn unescape_bytes(b: &Vec<u8>, n: usize) -> (r: Option<Vec<u8>>)
    requires
        n <= b@.len(),
    ensures
        unescape(b@.take(n as int)) is Some <==> r is Some,
        r is Some ==> r->Some_0@ == unescape(b@.take(n as int))->Some_0,
{
    let ghost s = b@.take(n as int);
    let mut out: Vec<u8> = Vec::new();
    let mut i: usize = 0;
    proof {
        assert(s.skip(0) =~= s);
        if let Some(t) = unescape(s) {
            assert(out@ + t =~= t);
        }
    }
    while i < n
        invariant
            i <= n <= b@.len(),
            s == b@.take(n as int),
            unescape(s) == prepend(out@, unescape(s.skip(i as int))),
        decreases n - i,
    {
        let ghost u = s.skip(i as int);
        let c = b[i];
        assert(u[0] == c);
        if c != BACKSLASH {
            proof {
                assert(u.drop_first() =~= s.skip(i + 1));
                lemma_prepend_twice(out@, seq![c], unescape(s.skip(i + 1)));
            }
            out.push(c);
            i = i + 1;
        } else if i + 1 < n && simple_escape_byte(b[i + 1]).is_some() {
            let e = simple_escape_byte(b[i + 1]).unwrap();
            proof {
                assert(u[1] == b@[i + 1]);
                assert(u.skip(2) =~= s.skip(i + 2));
                lemma_prepend_twice(out@, seq![e], unescape(s.skip(i + 2)));
            }
            out.push(e);
            i = i + 2;
        } else if n - i > 5 && b[i + 1] == 0x75 && is_hex_byte(b[i + 2]) && is_hex_byte(b[i + 3])
            && is_hex_byte(b[i + 4]) && is_hex_byte(b[i + 5]) {
            let v = hex_value(b[i + 2]) * 4096 + hex_value(b[i + 3]) * 256 + hex_value(b[i + 4]) * 16
                + hex_value(b[i + 5]);
            proof {
                let h = u.subrange(2, 6);
                assert(h[0] == b@[i + 2] && h[1] == b@[i + 3] && h[2] == b@[i + 4] && h[3] == b@[i + 5]);
                assert(hex4(h) == v);
                assert(u[1] == b@[i + 1]);
            }
            if !is_scalar_value(v) {
                return None;
            }
            let ghost before = out@;
            push_scalar(&mut out, v);
            proof {
                assert(u.skip(6) =~= s.skip(i + 6));
                lemma_prepend_twice(before, encode_scalar(v), unescape(s.skip(i + 6)));
            }
            i = i + 6;
        } else {
            proof {
                if i + 1 < n {
                    assert(u[1] == b@[i + 1]);
                }
                if n - i > 5 {
                    assert(u[1] == b@[i + 1] && u[2] == b@[i + 2] && u[3] == b@[i + 3]);
                    assert(u[4] == b@[i + 4] && u[5] == b@[i + 5]);
                }
            }
            return None;
        }
    }
    assert(s.skip(i as int) =~= Seq::<u8>::empty());
    assert(out@ + Seq::<u8>::empty() =~= out@);
    Some(out)
}

/// The byte that the escape `\c` stands for, where `c` is one of the
/// one-letter escapes.
fn simple_escape_byte(c: u8) -> (r: Option<u8>)
    ensures
        r == simple_escape(c),
{
    if c == QUOTE {
        Some(QUOTE)
    } else if c == BACKSLASH {
        Some(BACKSLASH)
    } else if c == 0x2f {
        Some(0x2f)
    } else if c == 0x62 {
        Some(0x08)
    } else if c == 0x66 {
        Some(0x0c)
    } else if c == 0x6e {
        Some(LF)
    } else if c == 0x72 {
        Some(CR)
    } else if c == 0x74 {
        Some(TAB)
    } else {
        None
    }
}

} // verus!
