//! The pull interface over a sequence of bytes, and its model.
use vstd::prelude::*;
use crate::token_type::is_whitespace;

verus! {

/// The number of whitespace bytes at the start of `s`.
pub open spec fn ws_len(s: Seq<u8>) -> nat
    decreases s.len(),
{
    if s.len() > 0 && is_whitespace(s[0]) {
        1 + ws_len(s.drop_first())
    } else {
        0
    }
}

pub proof fn lemma_ws_len_bound(s: Seq<u8>)
    ensures
        ws_len(s) <= s.len(),
        ws_len(s) < s.len() ==> !is_whitespace(s[ws_len(s) as int]),
        forall|i: int| 0 <= i < ws_len(s) ==> is_whitespace(#[trigger] s[i]),
    decreases s.len(),
{
    if s.len() > 0 && is_whitespace(s[0]) {
        lemma_ws_len_bound(s.drop_first());
        assert forall|i: int| 0 <= i < ws_len(s) implies is_whitespace(#[trigger] s[i]) by {
            if i > 0 {
                assert(s[i] == s.drop_first()[i - 1]);
            }
        }
    }
}

/// Reported by a read once no byte is left.
#[derive(Clone, Copy, Debug, PartialEq, Eq, Structural)]
pub struct EndOfInput;

/// A pull interface over a sequence of bytes.
///
/// A reader is modelled by the bytes it has not handed out yet, given by
/// their number (`rest_len`) and each of them (`byte_at`), and by how many
/// it has handed out (`pos`). Every read hands out a prefix of the bytes
/// still to come and advances `pos` by its length, so `pos` never
/// decreases and always counts the bytes handed out; once none is left
/// every read reports [`EndOfInput`] and changes nothing.
///
/// The model is made of integers, bytes and booleans so that readers
/// written outside verified code (over a file, say) can state it too.
pub trait ByteReader: Sized {
    /// The number of bytes that are still to be handed out.
    spec fn rest_len(&self) -> usize;

    /// The byte `i` places after the next one to be handed out.
    spec fn byte_at(&self, i: usize) -> u8;

    /// The number of bytes handed out so far.
    spec fn pos(&self) -> usize;

    /// The most bytes that one call of `next_chunk` hands out.
    spec fn chunk_len(&self) -> usize;

    /// The reader's own consistency condition.
    spec fn inv(&self) -> bool;

    /// The current absolute position.
    fn offset(&self) -> (r: usize)
        requires
            self.inv(),
        ensures
            r == self.pos(),
    ;

    /// The next byte, without consuming it.
    fn peek_byte(&mut self) -> (r: Option<u8>)
        requires
            old(self).inv(),
        ensures
            final(self).inv(),
            final(self).chunk_len() == old(self).chunk_len(),
            final(self).pos() == old(self).pos(),
            final(self).rest_len() == old(self).rest_len(),
            forall|i: usize| i < old(self).rest_len() ==> #[trigger] final(self).byte_at(i) == old(self).byte_at(i),
            r == (if old(self).rest_len() > 0 {
                Some(old(self).byte_at(0))
            } else {
                None
            }),
    ;

    /// Hands out one byte.
    fn next_byte(&mut self) -> (r: Result<u8, EndOfInput>)
        requires
            old(self).inv(),
        ensures
            final(self).inv(),
            final(self).chunk_len() == old(self).chunk_len(),
            old(self).rest_len() > 0 ==> {
                &&& r == Ok::<u8, EndOfInput>(old(self).byte_at(0))
                &&& final(self).rest_len() == old(self).rest_len() - 1
                &&& forall|i: usize|
                    i < final(self).rest_len() ==> #[trigger] final(self).byte_at(i) == old(self).byte_at((i + 1) as usize)
                &&& final(self).pos() == old(self).pos() + 1
            },
            old(self).rest_len() == 0 ==> {
                &&& r is Err
                &&& final(self).rest_len() == 0
                &&& final(self).pos() == old(self).pos()
            },
    ;

    /// Hands out the next `chunk_len()` bytes, or what is left when fewer
    /// remain.
    fn next_chunk(&mut self) -> (r: Result<Vec<u8>, EndOfInput>)
        requires
            old(self).inv(),
        ensures
            final(self).inv(),
            final(self).chunk_len() == old(self).chunk_len(),
            old(self).rest_len() > 0 ==> {
                let n = if old(self).chunk_len() < old(self).rest_len() {
                    old(self).chunk_len()
                } else {
                    old(self).rest_len()
                };
                &&& r is Ok
                &&& r->Ok_0@.len() == n
                &&& forall|j: int| 0 <= j < n ==> #[trigger] r->Ok_0@[j] == old(self).byte_at(j as usize)
                &&& final(self).rest_len() == old(self).rest_len() - n
                &&& forall|i: usize|
                    i < final(self).rest_len() ==> #[trigger] final(self).byte_at(i) == old(self).byte_at((i + n) as usize)
                &&& final(self).pos() == old(self).pos() + n
            },
            old(self).rest_len() == 0 ==> {
                &&& r is Err
                &&& final(self).rest_len() == 0
                &&& final(self).pos() == old(self).pos()
            },
    ;

    /// Hands out every byte up to and including the first `delim`; reports
    /// [`EndOfInput`], consuming nothing, when no `delim` remains.
    fn next_until(&mut self, delim: u8) -> (r: Result<Vec<u8>, EndOfInput>)
        requires
            old(self).inv(),
        ensures
            final(self).inv(),
            final(self).chunk_len() == old(self).chunk_len(),
            (exists|k: usize| k < old(self).rest_len() && old(self).byte_at(k) == delim) ==> {
                &&& r is Ok
                &&& {
                    let v = r->Ok_0@;
                    &&& 0 < v.len() <= old(self).rest_len()
                    &&& forall|j: int| 0 <= j < v.len() ==> #[trigger] v[j] == old(self).byte_at(j as usize)
                    &&& v.last() == delim
                    &&& forall|j: int| 0 <= j < v.len() - 1 ==> v[j] != delim
                    &&& final(self).rest_len() == old(self).rest_len() - v.len()
                    &&& forall|i: usize|
                        i < final(self).rest_len() ==> #[trigger] final(self).byte_at(i) == old(self).byte_at(
                            (i + v.len()) as usize,
                        )
                    &&& final(self).pos() == old(self).pos() + v.len()
                }
            },
            !(exists|k: usize| k < old(self).rest_len() && old(self).byte_at(k) == delim) ==> {
                &&& r is Err
                &&& final(self).rest_len() == old(self).rest_len()
                &&& forall|i: usize| i < old(self).rest_len() ==> #[trigger] final(self).byte_at(i) == old(self).byte_at(i)
                &&& final(self).pos() == old(self).pos()
            },
    ;

    /// Hands out every byte up to and including the first one found in
    /// `delims`; when none is found, hands out all that remains.
    fn next_until_any(&mut self, delims: &[u8]) -> (r: Result<Vec<u8>, EndOfInput>)
        requires
            old(self).inv(),
        ensures
            final(self).inv(),
            final(self).chunk_len() == old(self).chunk_len(),
            old(self).rest_len() > 0 ==> {
                &&& r is Ok
                &&& {
                    let v = r->Ok_0@;
                    &&& 0 < v.len() <= old(self).rest_len()
                    &&& forall|j: int| 0 <= j < v.len() ==> #[trigger] v[j] == old(self).byte_at(j as usize)
                    &&& forall|j: int| 0 <= j < v.len() - 1 ==> !delims@.contains(#[trigger] v[j])
                    &&& (delims@.contains(v.last()) || v.len() == old(self).rest_len())
                    &&& final(self).rest_len() == old(self).rest_len() - v.len()
                    &&& forall|i: usize|
                        i < final(self).rest_len() ==> #[trigger] final(self).byte_at(i) == old(self).byte_at(
                            (i + v.len()) as usize,
                        )
                    &&& final(self).pos() == old(self).pos() + v.len()
                }
            },
            old(self).rest_len() == 0 ==> {
                &&& r is Err
                &&& final(self).rest_len() == 0
                &&& final(self).pos() == old(self).pos()
            },
    ;

    /// Consumes the run of whitespace bytes at the front.
    fn skip_whitespace(&mut self)
        requires
            old(self).inv(),
        ensures
            final(self).inv(),
            final(self).chunk_len() == old(self).chunk_len(),
            final(self).rest_len() <= old(self).rest_len(),
            ({
                let k = (old(self).rest_len() - final(self).rest_len()) as usize;
                &&& forall|j: usize| j < k ==> is_whitespace(#[trigger] old(self).byte_at(j))
                &&& final(self).rest_len() > 0 ==> !is_whitespace(final(self).byte_at(0))
                &&& forall|i: usize|
                    i < final(self).rest_len() ==> #[trigger] final(self).byte_at(i) == old(self).byte_at(
                        (i + k) as usize,
                    )
                &&& final(self).pos() == old(self).pos() + k
            }),
    ;
}

/// The bytes that a reader has still to hand out, in order.
pub trait ByteReaderModel {
    spec fn remaining(&self) -> Seq<u8>;
}

impl<R: ByteReader> ByteReaderModel for R {
    open spec fn remaining(&self) -> Seq<u8> {
        Seq::new(self.rest_len() as nat, |i: int| self.byte_at(i as usize))
    }
}

proof fn lemma_ws_len_exact(s: Seq<u8>, k: int)
    requires
        0 <= k <= s.len(),
        forall|j: int| 0 <= j < k ==> is_whitespace(#[trigger] s[j]),
        k == s.len() || !is_whitespace(s[k]),
    ensures
        ws_len(s) == k,
    decreases k,
{
    if k > 0 {
        let t = s.drop_first();
        assert forall|j: int| 0 <= j < k - 1 implies is_whitespace(#[trigger] t[j]) by {
            assert(t[j] == s[j + 1]);
        }
        if k - 1 < t.len() {
            assert(t[k - 1] == s[k]);
        }
        lemma_ws_len_exact(t, k - 1);
        assert(is_whitespace(s[0]));
    } else if s.len() > 0 {
        assert(!is_whitespace(s[0]));
    }
}

/// [`ByteReader::peek_byte`], stated over `remaining`.
pub fn peek_next<R: ByteReader>(reader: &mut R) -> (r: Option<u8>)
    requires
        old(reader).inv(),
    ensures
        final(reader).inv(),
        final(reader).chunk_len() == old(reader).chunk_len(),
        final(reader).remaining() == old(reader).remaining(),
        final(reader).pos() == old(reader).pos(),
        r == (if old(reader).remaining().len() > 0 {
            Some(old(reader).remaining()[0])
        } else {
            None
        }),
{
    let r = reader.peek_byte();
    assert forall|i: int| 0 <= i < reader.remaining().len() implies reader.remaining()[i] == old(
        reader,
    ).remaining()[i] by {
        assert(reader.byte_at(i as usize) == old(reader).byte_at(i as usize));
    }
    assert(reader.remaining() =~= old(reader).remaining());
    r
}

/// [`ByteReader::next_byte`], stated over `remaining`.
pub fn read_byte<R: ByteReader>(reader: &mut R) -> (r: Result<u8, EndOfInput>)
    requires
        old(reader).inv(),
    ensures
        final(reader).inv(),
        final(reader).chunk_len() == old(reader).chunk_len(),
        old(reader).remaining().len() > 0 ==> {
            &&& r == Ok::<u8, EndOfInput>(old(reader).remaining()[0])
            &&& final(reader).remaining() == old(reader).remaining().drop_first()
            &&& final(reader).pos() == old(reader).pos() + 1
        },
        old(reader).remaining().len() == 0 ==> {
            &&& r is Err
            &&& final(reader).remaining() == old(reader).remaining()
            &&& final(reader).pos() == old(reader).pos()
        },
{
    let r = reader.next_byte();
    proof {
    if old(reader).rest_len() > 0 {
        assert forall|i: int| 0 <= i < reader.remaining().len() implies reader.remaining()[i] == old(
            reader,
        ).remaining().drop_first()[i] by {
            assert(reader.byte_at(i as usize) == old(reader).byte_at((i + 1) as usize));
        }
        assert(reader.remaining() =~= old(reader).remaining().drop_first());
    } else {
        assert(reader.remaining() =~= old(reader).remaining());
    }
    }
    r
}

/// [`ByteReader::next_until`], stated over `remaining`.
pub fn read_until<R: ByteReader>(reader: &mut R, delim: u8) -> (r: Result<Vec<u8>, EndOfInput>)
    requires
        old(reader).inv(),
    ensures
        final(reader).inv(),
        final(reader).chunk_len() == old(reader).chunk_len(),
        old(reader).remaining().contains(delim) ==> {
            &&& r is Ok
            &&& {
                let v = r->Ok_0@;
                &&& 0 < v.len() <= old(reader).remaining().len()
                &&& v == old(reader).remaining().take(v.len() as int)
                &&& v.last() == delim
                &&& forall|j: int| 0 <= j < v.len() - 1 ==> v[j] != delim
                &&& final(reader).remaining() == old(reader).remaining().skip(v.len() as int)
                &&& final(reader).pos() == old(reader).pos() + v.len()
            }
        },
        !old(reader).remaining().contains(delim) ==> {
            &&& r is Err
            &&& final(reader).remaining() == old(reader).remaining()
            &&& final(reader).pos() == old(reader).pos()
        },
{
    let ghost s = reader.remaining();
    let ghost has = exists|k: usize| k < old(reader).rest_len() && old(reader).byte_at(k) == delim;
    proof {
        if s.contains(delim) {
            let k = choose|k: int| 0 <= k < s.len() && s[k] == delim;
            assert(old(reader).byte_at(k as usize) == delim);
        }
        if has {
            let k = choose|k: usize| k < old(reader).rest_len() && old(reader).byte_at(k) == delim;
            assert(s[k as int] == delim);
        }
    }
    let r = reader.next_until(delim);
    proof {
        if has {
            let v = r->Ok_0@;
            assert(v =~= s.take(v.len() as int));
            assert forall|i: int| 0 <= i < reader.remaining().len() implies reader.remaining()[i] == s.skip(
                v.len() as int,
            )[i] by {
                assert(reader.byte_at(i as usize) == old(reader).byte_at((i + v.len()) as usize));
            }
            assert(reader.remaining() =~= s.skip(v.len() as int));
        } else {
            assert forall|i: int| 0 <= i < reader.remaining().len() implies reader.remaining()[i] == s[i] by {
                assert(reader.byte_at(i as usize) == old(reader).byte_at(i as usize));
            }
            assert(reader.remaining() =~= s);
        }
    }
    r
}

/// [`ByteReader::skip_whitespace`], stated over `remaining`.
pub fn skip_ws<R: ByteReader>(reader: &mut R)
    requires
        old(reader).inv(),
    ensures
        final(reader).inv(),
        final(reader).chunk_len() == old(reader).chunk_len(),
        final(reader).remaining() == old(reader).remaining().skip(ws_len(old(reader).remaining()) as int),
        final(reader).pos() == old(reader).pos() + ws_len(old(reader).remaining()),
{
    let ghost s = reader.remaining();
    reader.skip_whitespace();
    proof {
        let k = (old(reader).rest_len() - reader.rest_len()) as usize;
        assert forall|j: int| 0 <= j < k implies is_whitespace(#[trigger] s[j]) by {
            assert(is_whitespace(old(reader).byte_at(j as usize)));
        }
        if k < s.len() {
            assert(s[k as int] == reader.byte_at(0));
        }
        lemma_ws_len_exact(s, k as int);
        assert forall|i: int| 0 <= i < reader.remaining().len() implies reader.remaining()[i] == s.skip(
            k as int,
        )[i] by {
            assert(reader.byte_at(i as usize) == old(reader).byte_at((i + k) as usize));
        }
        assert(reader.remaining() =~= s.skip(k as int));
    }
}

} // verus!
