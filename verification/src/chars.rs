//! Iteration over the characters of a slice.

use crate::chunks::{Chunks, ChunksRev};
use crate::str_utils;
use crate::text::{lemma_char_between, lemma_decode_concat};
use vstd::prelude::*;
use vstd::string::*;
use vstd::utf8::*;

verus! {

/// An iterator over the characters of a slice, from front to back.
pub struct Chars<'a> {
    pub(crate) chunks: Chunks<'a>,
    pub(crate) chunk: &'a str,
    pub(crate) index: usize,
}

/// An iterator over the characters of a slice, from back to front.
pub struct CharsRev<'a> {
    pub(crate) chunks: ChunksRev<'a>,
    pub(crate) chunk: &'a str,
    pub(crate) index: usize,
}

impl<'a> View for Chars<'a> {
    type V = Seq<char>;

    /// The characters that are still to come.
    open(crate) spec fn view(&self) -> Seq<char> {
        decode_utf8(
            self.chunk.spec_bytes().subrange(
                self.index as int,
                self.chunk.spec_bytes().len() as int,
            ),
        ) + decode_utf8(self.chunks@)
    }
}

impl<'a> View for CharsRev<'a> {
    type V = Seq<char>;

    /// The characters that are still to come, the last of them first.
    open(crate) spec fn view(&self) -> Seq<char> {
        decode_utf8(self.chunks@) + decode_utf8(
            self.chunk.spec_bytes().subrange(0, self.index as int),
        )
    }
}

impl<'a> Chars<'a> {
    /// True when the chunks below are well formed and the position is a
    /// character boundary of the current chunk.
    pub open(crate) spec fn wf(&self) -> bool {
        &&& self.chunks.wf()
        &&& self.index <= self.chunk.spec_bytes().len()
        &&& is_char_boundary(self.chunk.spec_bytes(), self.index as int)
    }

    /// The characters of `chunks`.
    pub(crate) fn new(chunks: Chunks<'a>) -> (r: Self)
        requires
            chunks.wf(),
        ensures
            r.wf(),
            r@ == decode_utf8(chunks@),
    {
        let r = Self { chunks, chunk: "", index: 0 };
        proof {
            reveal_strlit("");
        }
        r
    }

    /// The next character, or `None` when all have been handed out.
    pub fn next(&mut self) -> (r: Option<char>)
        requires
            old(self).wf(),
        ensures
            final(self).wf(),
            match r {
                None => old(self)@.len() == 0 && final(self)@ == old(self)@,
                Some(c) => old(self)@ == seq![c] + final(self)@,
            },
    {
        proof {
            encode_utf8_valid_utf8(self.chunk@);
        }
        if self.index == str_utils::byte_len(self.chunk) {
            match self.chunks.next() {
                None => {
                    return None;
                },
                Some(chunk) => {
                    proof {
                        encode_utf8_valid_utf8(chunk@);
                        self.chunks.lemma_valid();
                        lemma_decode_concat(chunk.spec_bytes(), self.chunks@);
                        assert(chunk.spec_bytes().subrange(0, chunk.spec_bytes().len() as int)
                            =~= chunk.spec_bytes());
                    }
                    self.chunk = chunk;
                    self.index = 0;
                },
            }
        }
        let ghost bytes = self.chunk.spec_bytes();
        let ghost from = self.index as int;
        let len = str_utils::byte_len(self.chunk);
        let (_, tail) = self.chunk.split_at(self.index);
        proof {
            encode_utf8_decode_utf8(tail@);
            assert(tail@.len() > 0);
        }
        let c = tail.get_char(0);
        let mut next: usize = self.index + 1;
        proof {
            is_char_boundary_start_end_of_seq(bytes);
        }
        while !self.chunk.is_char_boundary(next)
            invariant
                from < next <= len,
                len == bytes.len(),
                bytes == self.chunk.spec_bytes(),
                is_char_boundary(bytes, len as int),
                forall|k: int| from < k < next ==> !is_char_boundary(bytes, k),
            decreases len - next,
        {
            next += 1;
        }
        proof {
            lemma_char_between(bytes, from, next as int);
        }
        self.index = next;
        Some(c)
    }

    /// The characters that are still to come.
    pub fn to_vec(self) -> (r: Vec<char>)
        requires
            self.wf(),
        ensures
            r@ == self@,
    {
        let ghost goal = self@;
        let mut iter = self;
        let mut out: Vec<char> = Vec::new();
        loop
            invariant
                iter.wf(),
                out@ + iter@ == goal,
            ensures
                out@ == goal,
            decreases iter@.len(),
        {
            match iter.next() {
                None => {
                    break ;
                },
                Some(c) => {
                    out.push(c);
                },
            }
        }
        out
    }
}

impl<'a> CharsRev<'a> {
    /// True when the chunks below are well formed and the position is a
    /// character boundary of the current chunk.
    pub open(crate) spec fn wf(&self) -> bool {
        &&& self.chunks.wf()
        &&& self.index <= self.chunk.spec_bytes().len()
        &&& is_char_boundary(self.chunk.spec_bytes(), self.index as int)
    }

    /// The characters of `chunks`, to be read from the back.
    pub(crate) fn new(chunks: ChunksRev<'a>) -> (r: Self)
        requires
            chunks.wf(),
        ensures
            r.wf(),
            r@ == decode_utf8(chunks@),
    {
        let r = Self { chunks, chunk: "", index: 0 };
        proof {
            encode_utf8_valid_utf8(""@);
        }
        r
    }

    /// The next character from the back, or `None` when all have been
    /// handed out.
    pub fn next(&mut self) -> (r: Option<char>)
        requires
            old(self).wf(),
        ensures
            final(self).wf(),
            match r {
                None => old(self)@.len() == 0 && final(self)@ == old(self)@,
                Some(c) => old(self)@ == final(self)@.push(c),
            },
    {
        proof {
            encode_utf8_valid_utf8(self.chunk@);
        }
        if self.index == 0 {
            match self.chunks.next() {
                None => {
                    return None;
                },
                Some(chunk) => {
                    proof {
                        encode_utf8_valid_utf8(chunk@);
                        self.chunks.lemma_valid();
                        lemma_decode_concat(self.chunks@, chunk.spec_bytes());
                        is_char_boundary_start_end_of_seq(chunk.spec_bytes());
                        assert(chunk.spec_bytes().subrange(0, chunk.spec_bytes().len() as int)
                            =~= chunk.spec_bytes());
                    }
                    self.chunk = chunk;
                    self.index = str_utils::byte_len(chunk);
                },
            }
        }
        let ghost bytes = self.chunk.spec_bytes();
        let ghost upto = self.index as int;
        let mut prev: usize = self.index - 1;
        while !self.chunk.is_char_boundary(prev)
            invariant
                0 <= prev < upto <= bytes.len(),
                bytes == self.chunk.spec_bytes(),
                is_char_boundary(bytes, 0),
                forall|k: int| prev < k < upto ==> !is_char_boundary(bytes, k),
            decreases prev,
        {
            prev -= 1;
        }
        let (_, tail) = self.chunk.split_at(prev);
        proof {
            encode_utf8_decode_utf8(tail@);
            lemma_char_between(bytes, prev as int, upto);
        }
        let c = tail.get_char(0);
        self.index = prev;
        Some(c)
    }

    /// The characters that are still to come, the last of them first.
    pub fn to_vec(self) -> (r: Vec<char>)
        requires
            self.wf(),
        ensures
            r@ == self@.reverse(),
    {
        let ghost goal = self@;
        let mut iter = self;
        let mut out: Vec<char> = Vec::new();
        loop
            invariant
                iter.wf(),
                iter@ + out@.reverse() == goal,
            ensures
                out@ == goal.reverse(),
            decreases iter@.len(),
        {
            match iter.next() {
                None => {
                    break ;
                },
                Some(c) => {
                    out.push(c);
                },
            }
        }
        out
    }
}

} // verus!
