//! The bookkeeping of a reader that reads its input a chunk at a time:
//! which buffered bytes are still pending, how many have been handed out,
//! and how each read takes from the buffer.
use vstd::prelude::*;
use vstd::slice::{slice_subrange, slice_to_vec};
use crate::byte_reader::{lemma_ws_len_bound, ws_len};
use crate::token_type::TokenType;

verus! {

/// A buffer refilled from an input that arrives in chunks, with the
/// absolute offset of the next byte to hand out.
///
/// The caller reads a chunk whenever `pending` is empty and hands it to
/// `refill`; every read takes from the front of `pending`, and a read that
/// spans several chunks is made of several calls that append to one
/// output vector.
pub struct RefillBuffer {
    buf: Vec<u8>,
    at: usize,
    offset: usize,
}

impl RefillBuffer {
    /// The buffered bytes not yet handed out.
    pub closed spec fn pending(&self) -> Seq<u8> {
        self.buf@.subrange(self.at as int, self.buf@.len() as int)
    }

    /// The number of bytes handed out so far.
    pub closed spec fn pos(&self) -> usize {
        self.offset
    }

    pub closed spec fn inv(&self) -> bool {
        &&& self.at <= self.buf@.len()
        &&& self.offset + (self.buf@.len() - self.at) <= usize::MAX
    }

    /// An empty buffer at offset 0.
    pub fn new() -> (r: Self)
        ensures
            r.inv(),
            r.pending() == Seq::<u8>::empty(),
            r.pos() == 0,
    {
        let r = Self { buf: Vec::new(), at: 0, offset: 0 };
        assert(r.pending() =~= Seq::<u8>::empty());
        r
    }

    /// The absolute offset of the next byte to hand out.
    pub fn offset(&self) -> (r: usize)
        ensures
            r == self.pos(),
    {
        self.offset
    }

    /// The number of pending bytes.
    pub fn pending_len(&self) -> (r: usize)
        requires
            self.inv(),
        ensures
            r == self.pending().len(),
    {
        self.buf.len() - self.at
    }

    /// Puts a newly read chunk in place of the exhausted buffer.
    pub fn refill(&mut self, bytes: Vec<u8>)
        requires
            old(self).inv(),
            old(self).pending().len() == 0,
            old(self).pos() + bytes@.len() <= usize::MAX,
        ensures
            final(self).inv(),
            final(self).pending() == bytes@,
            final(self).pos() == old(self).pos(),
    {
        self.buf = bytes;
        self.at = 0;
        assert(self.pending() =~= self.buf@);
    }

    /// The next pending byte, without taking it.
    pub fn peek(&self) -> (r: Option<u8>)
        requires
            self.inv(),
        ensures
            r == (if self.pending().len() > 0 {
                Some(self.pending()[0])
            } else {
                None
            }),
    {
        if self.at < self.buf.len() {
            Some(self.buf[self.at])
        } else {
            None
        }
    }

    /// Takes the next pending byte.
    pub fn take_byte(&mut self) -> (r: Option<u8>)
        requires
            old(self).inv(),
        ensures
            final(self).inv(),
            old(self).pending().len() > 0 ==> {
                &&& r == Some(old(self).pending()[0])
                &&& final(self).pending() == old(self).pending().drop_first()
                &&& final(self).pos() == old(self).pos() + 1
            },
            old(self).pending().len() == 0 ==> r is None && *final(self) == *old(self),
    {
        if self.at < self.buf.len() {
            let b = self.buf[self.at];
            self.at = self.at + 1;
            self.offset = self.offset + 1;
            assert(self.pending() =~= old(self).pending().drop_first());
            Some(b)
        } else {
            None
        }
    }

    /// Appends to `out` pending bytes until it holds `want` bytes or
    /// nothing is pending; returns how many were taken.
    pub fn take_chunk(&mut self, out: &mut Vec<u8>, want: usize) -> (n: usize)
        requires
            old(self).inv(),
            old(out)@.len() <= want,
        ensures
            final(self).inv(),
            n == (if want - old(out)@.len() < old(self).pending().len() {
                (want - old(out)@.len()) as nat
            } else {
                old(self).pending().len()
            }),
            final(out)@ == old(out)@ + old(self).pending().take(n as int),
            final(self).pending() == old(self).pending().skip(n as int),
            final(self).pos() == old(self).pos() + n,
    {
        let room = want - out.len();
        let left = self.buf.len() - self.at;
        let n = if room < left {
            room
        } else {
            left
        };
        let mut piece = slice_to_vec(slice_subrange(self.buf.as_slice(), self.at, self.at + n));
        out.append(&mut piece);
        self.at = self.at + n;
        self.offset = self.offset + n;
        assert(final(out)@ =~= old(out)@ + old(self).pending().take(n as int));
        assert(self.pending() =~= old(self).pending().skip(n as int));
        n
    }

    /// Appends to `out` the pending bytes up to and including the first
    /// `delim`, found with `memchr`; when none is pending, appends them all.
    /// Returns whether `delim` was found.
    pub fn take_until(&mut self, delim: u8, out: &mut Vec<u8>) -> (found: bool)
        requires
            old(self).inv(),
        ensures
            final(self).inv(),
            found == old(self).pending().contains(delim),
            found ==> exists|k: int|
                0 <= k < old(self).pending().len() && old(self).pending()[k] == delim && (forall|j: int|
                    0 <= j < k ==> old(self).pending()[j] != delim) && final(out)@ == old(out)@
                    + old(self).pending().take(k + 1) && final(self).pending() == old(self).pending().skip(k + 1)
                    && final(self).pos() == old(self).pos() + k + 1,
            !found ==> {
                &&& final(out)@ == old(out)@ + old(self).pending()
                &&& final(self).pending().len() == 0
                &&& final(self).pos() == old(self).pos() + old(self).pending().len()
            },
    {
        let rest = slice_subrange(self.buf.as_slice(), self.at, self.buf.len());
        assert(rest@ =~= self.pending());
        let n = match memchr::memchr(delim, rest) {
            Some(i) => i + 1,
            None => rest.len(),
        };
        let found = n < rest.len() || (n > 0 && rest[n - 1] == delim);
        let ghost p = self.pending();
        let mut piece = slice_to_vec(slice_subrange(rest, 0, n));
        out.append(&mut piece);
        self.at = self.at + n;
        self.offset = self.offset + n;
        assert(final(out)@ =~= old(out)@ + p.take(n as int));
        assert(self.pending() =~= p.skip(n as int));
        proof {
            if found {
                assert(p[n - 1] == delim);
                assert(p.contains(delim));
            }
            if p.contains(delim) {
                let k = choose|k: int| 0 <= k < p.len() && p[k] == delim;
                assert(p[k] == delim);
            }
            if !found {
                assert(p.take(n as int) =~= p);
            }
        }
        found
    }

    /// Puts back bytes just handed out, once nothing is pending: a read
    /// that found no delimiter before the end then consumes nothing.
    pub fn put_back(&mut self, bytes: Vec<u8>)
        requires
            old(self).inv(),
            old(self).pending().len() == 0,
            bytes@.len() <= old(self).pos(),
        ensures
            final(self).inv(),
            final(self).pending() == bytes@,
            final(self).pos() == old(self).pos() - bytes@.len(),
    {
        self.offset = self.offset - bytes.len();
        self.buf = bytes;
        self.at = 0;
        assert(self.pending() =~= self.buf@);
    }

    /// Appends to `out` the pending bytes up to and including the first one
    /// found in `delims`; when none is pending, appends them all. Returns
    /// whether one was found.
    pub fn take_until_any(&mut self, delims: &[u8], out: &mut Vec<u8>) -> (found: bool)
        requires
            old(self).inv(),
        ensures
            final(self).inv(),
            ({
                let p = old(self).pending();
                let n = (final(out)@.len() - old(out)@.len()) as int;
                &&& 0 <= n <= p.len()
                &&& final(out)@ == old(out)@ + p.take(n)
                &&& final(self).pending() == p.skip(n)
                &&& final(self).pos() == old(self).pos() + n
                &&& forall|j: int| 0 <= j < n - 1 ==> !delims@.contains(#[trigger] p[j])
                &&& found == (n > 0 && delims@.contains(p[n - 1]))
                &&& !found ==> n == p.len() && forall|j: int| 0 <= j < n ==> !delims@.contains(#[trigger] p[j])
            }),
    {
        let ghost p = self.pending();
        let ghost out0 = out@;
        let ghost at0 = self.at;
        let mut found = false;
        while self.at < self.buf.len() && !found
            invariant
                self.inv(),
                self.buf == old(self).buf,
                p == old(self).pending(),
                at0 == old(self).at,
                at0 <= self.at,
                self.offset == old(self).offset + (self.at - at0),
                out@ == out0 + p.take(self.at - at0),
                found ==> self.at > at0 && delims@.contains(p[self.at - at0 - 1]),
                forall|j: int| 0 <= j < self.at - at0 - 1 ==> !delims@.contains(#[trigger] p[j]),
                !found ==> forall|j: int| 0 <= j < self.at - at0 ==> !delims@.contains(#[trigger] p[j]),
            decreases self.buf@.len() - self.at,
        {
            let b = self.buf[self.at];
            assert(b == p[self.at - at0]);
            let mut k: usize = 0;
            while k < delims.len() && delims[k] != b
                invariant
                    k <= delims@.len(),
                    forall|m: int| 0 <= m < k ==> delims@[m] != b,
                decreases delims@.len() - k,
            {
                k = k + 1;
            }
            if k < delims.len() {
                assert(delims@[k as int] == b);
                found = true;
            } else {
                assert(!delims@.contains(b));
            }
            out.push(b);
            self.at = self.at + 1;
            self.offset = self.offset + 1;
            assert(out@ =~= out0 + p.take(self.at - at0));
        }
        assert(self.pending() =~= p.skip(self.at - at0));
        found
    }

    /// Takes the pending whitespace; returns whether a byte other than
    /// whitespace is pending afterwards.
    pub fn skip_whitespace(&mut self) -> (stopped: bool)
        requires
            old(self).inv(),
        ensures
            final(self).inv(),
            final(self).pending() == old(self).pending().skip(ws_len(old(self).pending()) as int),
            final(self).pos() == old(self).pos() + ws_len(old(self).pending()),
            stopped == (ws_len(old(self).pending()) < old(self).pending().len()),
    {
        proof {
            lemma_ws_len_bound(self.pending());
        }
        while self.at < self.buf.len() && TokenType::is_whitespace_byte(self.buf[self.at])
            invariant
                self.inv(),
                self.buf == old(self).buf,
                old(self).at <= self.at,
                self.offset == old(self).offset + (self.at - old(self).at),
                ws_len(old(self).pending()) == (self.at - old(self).at) + ws_len(self.pending()),
            decreases self.buf@.len() - self.at,
        {
            assert(self.pending().drop_first() =~= self.buf@.subrange(self.at + 1, self.buf@.len() as int));
            self.at = self.at + 1;
            self.offset = self.offset + 1;
        }
        proof {
            lemma_ws_len_bound(self.pending());
            assert(self.pending() =~= old(self).pending().skip(ws_len(old(self).pending()) as int));
        }
        self.at < self.buf.len()
    }
}

} // verus!
