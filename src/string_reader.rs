//! A reader over bytes held in memory.
use vstd::prelude::*;
use vstd::slice::{slice_subrange, slice_to_vec};
use crate::byte_reader::{ByteReader, ByteReaderModel, EndOfInput};
use crate::token_type::is_whitespace;
use crate::token_type::TokenType;

verus! {

/// Relies on memchr::memchr: the index of the first byte of `haystack`
/// equal to `needle`, or `None` when there is none.
pub assume_specification[ memchr::memchr ](needle: u8, haystack: &[u8]) -> (r: Option<usize>)
    ensures
        match r {
            Some(i) => {
                &&& i < haystack@.len()
                &&& haystack@[i as int] == needle
                &&& forall|j: int| 0 <= j < i ==> haystack@[j] != needle
            },
            None => !haystack@.contains(needle),
        },
;

/// The chunk length of a reader made by [`BufferedStringReader::new`].
pub const DEFAULT_CHUNK_SIZE_TEXT: usize = 1024;

/// A [`ByteReader`] over bytes held in memory.
pub struct BufferedStringReader {
    value: Vec<u8>,
    chunk_size: usize,
    offset: usize,
}

impl BufferedStringReader {
    /// The bytes this reader was made over.
    pub closed spec fn content(&self) -> Seq<u8> {
        self.value@
    }

    /// A reader positioned at the first byte of `value`.
    pub fn new(value: Vec<u8>) -> (r: Self)
        ensures
            r.inv(),
            r.remaining() == value@,
            r.pos() == 0,
            r.chunk_len() == DEFAULT_CHUNK_SIZE_TEXT,
    {
        let r = Self { value, chunk_size: DEFAULT_CHUNK_SIZE_TEXT, offset: 0 };
        let _ = r.value.len();
        assert forall|i: int| 0 <= i < r.value@.len() implies r.remaining()[i] == r.value@[i] by {
            assert(r.byte_at(i as usize) == r.value@[i]);
        }
        assert(r.remaining() =~= r.value@);
        r
    }

    /// The same reader, with `next_chunk` handing out `chunk_size` bytes.
    pub fn with_chunk_size(self, chunk_size: usize) -> (r: Self)
        requires
            self.inv(),
        ensures
            r.inv(),
            r.remaining() == self.remaining(),
            r.pos() == self.pos(),
            r.chunk_len() == chunk_size,
    {
        let r = Self { value: self.value, chunk_size, offset: self.offset };
        assert(r.remaining() =~= self.remaining());
        r
    }
}

impl ByteReader for BufferedStringReader {
    closed spec fn rest_len(&self) -> usize {
        (self.value@.len() - self.offset) as usize
    }

    closed spec fn byte_at(&self, i: usize) -> u8 {
        self.value@[self.offset + i]
    }

    closed spec fn pos(&self) -> usize {
        self.offset
    }

    closed spec fn chunk_len(&self) -> usize {
        self.chunk_size
    }

    closed spec fn inv(&self) -> bool {
        self.offset <= self.value@.len()
    }

    fn offset(&self) -> (r: usize) {
        self.offset
    }

    fn peek_byte(&mut self) -> (r: Option<u8>) {
        if self.offset < self.value.len() {
            Some(self.value[self.offset])
        } else {
            None
        }
    }

    fn next_byte(&mut self) -> (r: Result<u8, EndOfInput>) {
        if self.offset < self.value.len() {
            let b = self.value[self.offset];
            self.offset = self.offset + 1;
            Ok(b)
        } else {
            Err(EndOfInput)
        }
    }

    fn next_chunk(&mut self) -> (r: Result<Vec<u8>, EndOfInput>) {
        if self.offset == self.value.len() {
            return Err(EndOfInput);
        }
        let left = self.value.len() - self.offset;
        let n = if self.chunk_size < left {
            self.chunk_size
        } else {
            left
        };
        let out = slice_to_vec(slice_subrange(self.value.as_slice(), self.offset, self.offset + n));
        self.offset = self.offset + n;
        Ok(out)
    }

    fn next_until(&mut self, delim: u8) -> (r: Result<Vec<u8>, EndOfInput>) {
        let start = self.offset;
        let rest = slice_subrange(self.value.as_slice(), self.offset, self.value.len());
        match memchr::memchr(delim, rest) {
            Some(i) => {
                assert(old(self).byte_at(i) == delim);
                let out = slice_to_vec(slice_subrange(rest, 0, i + 1));
                self.offset = self.offset + i + 1;
                Ok(out)
            },
            None => {
                proof {
                    assert forall|k: usize| k < old(self).rest_len() implies old(self).byte_at(k) != delim by {
                        assert(rest@[k as int] == old(self).byte_at(k));
                    }
                }
                Err(EndOfInput)
            },
        }
    }

    fn next_until_any(&mut self, delims: &[u8]) -> (r: Result<Vec<u8>, EndOfInput>) {
        if self.offset == self.value.len() {
            return Err(EndOfInput);
        }
        let start = self.offset;
        let mut i = self.offset;
        let mut found = false;
        while i < self.value.len() && !found
            invariant
                start <= i <= self.value@.len(),
                start == old(self).offset,
                self.value == old(self).value,
                found ==> i > start && delims@.contains(self.value@[i - 1]),
                forall|j: int| start <= j < i - 1 ==> !delims@.contains(#[trigger] self.value@[j]),
                !found ==> forall|j: int| start <= j < i ==> !delims@.contains(#[trigger] self.value@[j]),
            decreases self.value@.len() - i,
        {
            let b = self.value[i];
            let mut k: usize = 0;
            while k < delims.len() && delims[k] != b
                invariant
                    k <= delims@.len(),
                    !found,
                    forall|m: int| 0 <= m < k ==> delims@[m] != b,
                decreases delims@.len() - k,
            {
                k = k + 1;
            }
            if k < delims.len() {
                assert(delims@[k as int] == b);
                found = true;
            } else {
                assert(!delims@.contains(b));
            }
            i = i + 1;
        }
        let out = slice_to_vec(slice_subrange(self.value.as_slice(), start, i));
        self.offset = i;
        assert forall|j: int| 0 <= j < out@.len() - 1 implies !delims@.contains(#[trigger] out@[j]) by {
            assert(out@[j] == self.value@[start + j]);
        }
        Ok(out)
    }

    fn skip_whitespace(&mut self) {
        while self.offset < self.value.len() && TokenType::is_whitespace_byte(self.value[self.offset])
            invariant
                old(self).offset <= self.offset <= self.value@.len(),
                self.value == old(self).value,
                self.chunk_size == old(self).chunk_size,
                forall|j: int| old(self).offset <= j < self.offset ==> is_whitespace(#[trigger] self.value@[j]),
            decreases self.value@.len() - self.offset,
        {
            self.offset = self.offset + 1;
        }
        assert forall|j: usize| j < (old(self).rest_len() - self.rest_len()) as usize implies is_whitespace(
            #[trigger] old(self).byte_at(j),
        ) by {
            assert(old(self).byte_at(j) == self.value@[old(self).offset + j]);
        }
    }
}

} // verus!
