//! A view of a byte range of a rope, from which all reading starts.

use crate::bytes::{Bytes, BytesRev};
use crate::chars::{Chars, CharsRev};
use crate::chunks::{Chunks, ChunksRev};
use crate::cursor::Cursor;
use crate::rope::Rope;
use crate::text::{
    char_count, is_boundary, lemma_boundary_in_prefix, lemma_boundary_in_suffix,
    lemma_line_breaks_le, lemma_line_breaks_monotonic, lemma_split_counts, line_count, CR, LF,
};
use vstd::prelude::*;
use vstd::utf8::*;

verus! {

/// The text of a rope between two character boundaries. It borrows the
/// rope and copies nothing.
#[derive(Clone, Copy)]
pub struct Slice<'a> {
    pub(crate) rope: &'a Rope,
    pub(crate) start: usize,
    pub(crate) end: usize,
}

impl<'a> View for Slice<'a> {
    type V = Seq<u8>;

    /// The text of the slice as bytes.
    open(crate) spec fn view(&self) -> Seq<u8> {
        self.rope@.subrange(self.start as int, self.end as int)
    }
}

impl<'a> Slice<'a> {
    /// True when the slice lies between two character boundaries of a
    /// well-formed rope.
    pub open(crate) spec fn wf(&self) -> bool {
        &&& self.rope.wf()
        &&& self.start <= self.end <= self.rope@.len()
        &&& is_char_boundary(self.rope@, self.start as int)
        &&& is_char_boundary(self.rope@, self.end as int)
    }

    /// The text of a well-formed slice is valid UTF-8.
    pub proof fn lemma_valid(&self)
        requires
            self.wf(),
        ensures
            valid_utf8(self@),
            is_boundary(self@, 0),
            is_boundary(self@, self@.len() as int),
            self@.len() <= usize::MAX,
    {
        let w = self.rope@;
        self.rope.lemma_valid();
        lemma_boundary_in_prefix(w, self.start as int, self.end as int);
        valid_utf8_split(w.subrange(0, self.end as int), self.start as int);
        assert(w.subrange(0, self.end as int).subrange(self.start as int, self.end as int)
            =~= self@);
        is_char_boundary_start_end_of_seq(self@);
    }

    /// A position is a character boundary of the slice exactly when it is
    /// one of the rope.
    pub(crate) proof fn lemma_boundary(&self, i: int)
        requires
            self.wf(),
            0 <= i <= self@.len(),
        ensures
            is_char_boundary(self@, i) <==> is_char_boundary(self.rope@, self.start + i),
    {
        let w = self.rope@;
        self.rope.lemma_valid();
        lemma_boundary_in_suffix(w, self.end as int, self.start as int);
        let tail = w.subrange(self.start as int, w.len() as int);
        assert(tail.subrange(0, self.end - self.start) =~= self@);
        lemma_boundary_in_prefix(tail, i, self.end - self.start);
        lemma_boundary_in_suffix(w, self.start + i, self.start as int);
    }

    /// The slice of `rope` from `start` to `end`.
    pub(crate) fn new(rope: &'a Rope, start: usize, end: usize) -> (r: Self)
        requires
            rope.wf(),
            start <= end <= rope@.len(),
            is_char_boundary(rope@, start as int),
            is_char_boundary(rope@, end as int),
        ensures
            r.wf(),
            r@ == rope@.subrange(start as int, end as int),
            r.rope == rope,
            r.start == start,
            r.end == end,
    {
        Self { rope, start, end }
    }

    /// Returns `true` if the slice is empty.
    pub fn is_empty(&self) -> (r: bool)
        requires
            self.wf(),
        ensures
            r == (self@.len() == 0),
    {
        self.start == self.end
    }

    /// Returns the length of the slice in bytes.
    pub fn byte_len(&self) -> (r: usize)
        requires
            self.wf(),
        ensures
            r == self@.len(),
    {
        self.end - self.start
    }

    /// Returns the length of the slice in `char`s.
    pub fn char_len(&self) -> (r: usize)
        requires
            self.wf(),
        ensures
            r == char_count(self@),
    {
        proof {
            let w = self.rope@;
            self.rope.lemma_valid();
            let head = w.subrange(0, self.end as int);
            lemma_boundary_in_prefix(w, self.start as int, self.end as int);
            lemma_split_counts(head, self.start as int);
            assert(head.subrange(0, self.start as int) =~= w.subrange(0, self.start as int));
            assert(head.subrange(self.start as int, head.len() as int) =~= self@);
        }
        self.rope.byte_to_char(self.end) - self.rope.byte_to_char(self.start)
    }

    /// Returns the length of the slice in lines.
    pub fn line_len(&self) -> (r: usize)
        requires
            self.wf(),
            self@.len() < usize::MAX,
        ensures
            r == line_count(self@),
    {
        proof {
            let w = self.rope@;
            self.rope.lemma_valid();
            let head = w.subrange(0, self.end as int);
            lemma_boundary_in_prefix(w, self.start as int, self.end as int);
            lemma_split_counts(head, self.start as int);
            assert(head.subrange(0, self.start as int) =~= w.subrange(0, self.start as int));
            assert(head.subrange(self.start as int, head.len() as int) =~= self@);
            lemma_line_breaks_le(self@);
            if self@.len() > 0 {
                lemma_line_breaks_monotonic(self@, 1, self@.len() as int);
                assert(self@.subrange(0, self@.len() as int) =~= self@);
            }
        }
        let before = self.rope.info_at(self.start).line_break_count;
        let upto = self.rope.info_at(self.end).line_break_count;
        let split_pair = 0 < self.start && self.start < self.end && self.rope.byte(self.start - 1)
            == CR && self.rope.byte(self.start) == LF;
        if split_pair {
            upto - before + 2
        } else {
            upto - before + 1
        }
    }

    /// Returns a `Cursor` at the front of the slice.
    pub fn cursor_front(&self) -> (r: Cursor<'a>)
        requires
            self.wf(),
        ensures
            r.wf(),
            r.text() == self@,
            r.index() == 0,
    {
        Cursor::new(self.rope, self.start, self.end, self.start)
    }

    /// Returns a `Cursor` at the back of the slice.
    pub fn cursor_back(&self) -> (r: Cursor<'a>)
        requires
            self.wf(),
        ensures
            r.wf(),
            r.text() == self@,
            r.index() == self@.len(),
    {
        Cursor::new(self.rope, self.start, self.end, self.end)
    }

    /// Returns a `Cursor` at the given `byte_index` of the slice.
    pub fn cursor_at(&self, byte_index: usize) -> (r: Cursor<'a>)
        requires
            self.wf(),
            is_boundary(self@, byte_index as int),
        ensures
            r.wf(),
            r.text() == self@,
            r.index() == byte_index,
    {
        proof {
            self.lemma_boundary(byte_index as int);
        }
        Cursor::new(self.rope, self.start, self.end, self.start + byte_index)
    }

    /// Returns an iterator over the chunks of the slice.
    pub fn chunks(&self) -> (r: Chunks<'a>)
        requires
            self.wf(),
        ensures
            r.wf(),
            r@ == self@,
    {
        let r = Chunks::new(self.cursor_front());
        r
    }

    /// Returns a reverse iterator over the chunks of the slice.
    pub fn chunks_rev(&self) -> (r: ChunksRev<'a>)
        requires
            self.wf(),
        ensures
            r.wf(),
            r@ == self@,
    {
        let r = ChunksRev::new(self.cursor_back());
        r
    }

    /// Returns an iterator over the bytes of the slice.
    pub fn bytes(&self) -> (r: Bytes<'a>)
        requires
            self.wf(),
        ensures
            r.wf(),
            r@ == self@,
    {
        Bytes::new(self.chunks())
    }

    /// Returns a reverse iterator over the bytes of the slice.
    pub fn bytes_rev(&self) -> (r: BytesRev<'a>)
        requires
            self.wf(),
        ensures
            r.wf(),
            r@ == self@,
    {
        BytesRev::new(self.chunks_rev())
    }

    /// Returns an iterator over the `char`s of the slice.
    pub fn chars(&self) -> (r: Chars<'a>)
        requires
            self.wf(),
        ensures
            r.wf(),
            r@ == decode_utf8(self@),
    {
        Chars::new(self.chunks())
    }

    /// Returns a reverse iterator over the `char`s of the slice.
    pub fn chars_rev(&self) -> (r: CharsRev<'a>)
        requires
            self.wf(),
        ensures
            r.wf(),
            r@ == decode_utf8(self@),
    {
        CharsRev::new(self.chunks_rev())
    }
}

} // verus!
