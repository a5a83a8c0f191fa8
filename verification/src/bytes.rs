//! Iteration over the bytes of a slice.

use crate::chunks::{Chunks, ChunksRev};
use crate::str_utils;
use vstd::prelude::*;
use vstd::string::*;

verus! {

/// An iterator over the bytes of a slice, from front to back.
pub struct Bytes<'a> {
    pub(crate) chunks: Chunks<'a>,
    pub(crate) chunk: &'a str,
    pub(crate) index: usize,
}

/// An iterator over the bytes of a slice, from back to front.
pub struct BytesRev<'a> {
    pub(crate) chunks: ChunksRev<'a>,
    pub(crate) chunk: &'a str,
    pub(crate) index: usize,
}

impl<'a> View for Bytes<'a> {
    type V = Seq<u8>;

    /// The bytes that are still to come.
    open(crate) spec fn view(&self) -> Seq<u8> {
        self.chunk.spec_bytes().subrange(self.index as int, self.chunk.spec_bytes().len() as int)
            + self.chunks@
    }
}

impl<'a> View for BytesRev<'a> {
    type V = Seq<u8>;

    /// The bytes that are still to come, the last of them first.
    open(crate) spec fn view(&self) -> Seq<u8> {
        self.chunks@ + self.chunk.spec_bytes().subrange(0, self.index as int)
    }
}

impl<'a> Bytes<'a> {
    /// True when the chunks below are well formed and the position lies in
    /// the current chunk.
    pub open(crate) spec fn wf(&self) -> bool {
        &&& self.chunks.wf()
        &&& self.index <= self.chunk.spec_bytes().len()
    }

    /// The bytes of `chunks`.
    pub(crate) fn new(chunks: Chunks<'a>) -> (r: Self)
        requires
            chunks.wf(),
        ensures
            r.wf(),
            r@ == chunks@,
    {
        let r = Self { chunks, chunk: "", index: 0 };
        proof {
            reveal_strlit("");
        }
        r
    }

    /// The next byte, or `None` when all have been handed out.
    pub fn next(&mut self) -> (r: Option<u8>)
        requires
            old(self).wf(),
        ensures
            final(self).wf(),
            match r {
                None => old(self)@.len() == 0 && final(self)@ == old(self)@,
                Some(byte) => old(self)@ == seq![byte] + final(self)@,
            },
    {
        if self.index == str_utils::byte_len(self.chunk) {
            match self.chunks.next() {
                None => {
                    return None;
                },
                Some(chunk) => {
                    self.chunk = chunk;
                    self.index = 0;
                },
            }
        }
        let byte = self.chunk.as_bytes()[self.index];
        self.index += 1;
        Some(byte)
    }

    /// The bytes that are still to come.
    pub fn to_vec(self) -> (r: Vec<u8>)
        requires
            self.wf(),
        ensures
            r@ == self@,
    {
        let ghost goal = self@;
        let mut iter = self;
        let mut out: Vec<u8> = Vec::new();
        loop
            invariant
                iter.wf(),
                out@ + iter@ == goal,
            ensures
                out@ == goal,
            decreases iter@.len(),
        {
            match iter.next() {
                None => {
                    break ;
                },
                Some(byte) => {
                    out.push(byte);
                },
            }
        }
        out
    }
}

impl<'a> BytesRev<'a> {
    /// True when the chunks below are well formed and the position lies in
    /// the current chunk.
    pub open(crate) spec fn wf(&self) -> bool {
        &&& self.chunks.wf()
        &&& self.index <= self.chunk.spec_bytes().len()
    }

    /// The bytes of `chunks`, to be read from the back.
    pub(crate) fn new(chunks: ChunksRev<'a>) -> (r: Self)
        requires
            chunks.wf(),
        ensures
            r.wf(),
            r@ == chunks@,
    {
        let r = Self { chunks, chunk: "", index: 0 };
        r
    }

    /// The next byte from the back, or `None` when all have been handed
    /// out.
    pub fn next(&mut self) -> (r: Option<u8>)
        requires
            old(self).wf(),
        ensures
            final(self).wf(),
            match r {
                None => old(self)@.len() == 0 && final(self)@ == old(self)@,
                Some(byte) => old(self)@ == final(self)@.push(byte),
            },
    {
        if self.index == 0 {
            match self.chunks.next() {
                None => {
                    return None;
                },
                Some(chunk) => {
                    self.chunk = chunk;
                    self.index = str_utils::byte_len(chunk);
                },
            }
        }
        let byte = self.chunk.as_bytes()[self.index - 1];
        self.index -= 1;
        Some(byte)
    }

    /// The bytes that are still to come, the last of them first.
    pub fn to_vec(self) -> (r: Vec<u8>)
        requires
            self.wf(),
        ensures
            r@ == self@.reverse(),
    {
        let ghost goal = self@;
        let mut iter = self;
        let mut out: Vec<u8> = Vec::new();
        loop
            invariant
                iter.wf(),
                iter@ + out@.reverse() == goal,
            ensures
                out@ == goal.reverse(),
            decreases iter@.len(),
        {
            match iter.next() {
                None => {
                    break ;
                },
                Some(byte) => {
                    out.push(byte);
                },
            }
        }
        out
    }
}

} // verus!
