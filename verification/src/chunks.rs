//! Iteration over the chunks of a slice: runs of text that each lie in one
//! leaf.

use crate::cursor::Cursor;
use crate::node::MAX_LEAF_LEN;
use crate::text::lemma_encode_concat;
use vstd::prelude::*;
use vstd::string::*;
use vstd::utf8::*;

verus! {

/// An iterator over the chunks of a slice, from front to back.
pub struct Chunks<'a> {
    pub(crate) cursor: Cursor<'a>,
}

/// An iterator over the chunks of a slice, from back to front.
pub struct ChunksRev<'a> {
    pub(crate) cursor: Cursor<'a>,
}

impl<'a> View for Chunks<'a> {
    type V = Seq<u8>;

    /// The text that is still to come.
    open(crate) spec fn view(&self) -> Seq<u8> {
        self.cursor.text().subrange(self.cursor.index(), self.cursor.text().len() as int)
    }
}

impl<'a> View for ChunksRev<'a> {
    type V = Seq<u8>;

    /// The text that is still to come, the last chunk of it first.
    open(crate) spec fn view(&self) -> Seq<u8> {
        self.cursor.text().subrange(0, self.cursor.index())
    }
}

impl<'a> Chunks<'a> {
    /// True when the cursor below is well formed.
    pub open(crate) spec fn wf(&self) -> bool {
        self.cursor.wf()
    }

    /// The text that is still to come is valid UTF-8.
    pub proof fn lemma_valid(&self)
        requires
            self.wf(),
        ensures
            valid_utf8(self@),
    {
        self.cursor.lemma_index();
        valid_utf8_split(self.cursor.text(), self.cursor.index());
    }

    /// The chunks that follow `cursor`.
    pub(crate) fn new(cursor: Cursor<'a>) -> (r: Self)
        requires
            cursor.wf(),
        ensures
            r.wf(),
            r.cursor == cursor,
    {
        Self { cursor }
    }

    /// The next chunk, or `None` when all the text has been handed out.
    pub fn next(&mut self) -> (r: Option<&'a str>)
        requires
            old(self).wf(),
        ensures
            final(self).wf(),
            match r {
                None => old(self)@.len() == 0 && final(self)@ == old(self)@,
                Some(chunk) => {
                    &&& 0 < chunk.spec_bytes().len() <= MAX_LEAF_LEN
                    &&& old(self)@ == chunk.spec_bytes() + final(self)@
                },
            },
    {
        let r = self.cursor.next_chunk();
        r
    }

    /// The text that is still to come, as one string.
    pub fn to_string(self) -> (r: String)
        requires
            self.wf(),
        ensures
            encode_utf8(r@) == self@,
    {
        let ghost goal = self@;
        let mut iter = self;
        let mut out = String::new();
        loop
            invariant
                iter.wf(),
                encode_utf8(out@) + iter@ == goal,
            ensures
                encode_utf8(out@) == goal,
            decreases iter@.len(),
        {
            let ghost before = out@;
            match iter.next() {
                None => {
                    break ;
                },
                Some(chunk) => {
                    out.append(chunk);
                    proof {
                        lemma_encode_concat(before, chunk@);
                    }
                },
            }
        }
        out
    }
}

impl<'a> ChunksRev<'a> {
    /// True when the cursor below is well formed.
    pub open(crate) spec fn wf(&self) -> bool {
        self.cursor.wf()
    }

    /// The text that is still to come is valid UTF-8.
    pub proof fn lemma_valid(&self)
        requires
            self.wf(),
        ensures
            valid_utf8(self@),
    {
        self.cursor.lemma_index();
        valid_utf8_split(self.cursor.text(), self.cursor.index());
    }

    /// The chunks that precede `cursor`.
    pub(crate) fn new(cursor: Cursor<'a>) -> (r: Self)
        requires
            cursor.wf(),
        ensures
            r.wf(),
            r.cursor == cursor,
    {
        Self { cursor }
    }

    /// The next chunk from the back, or `None` when all the text has been
    /// handed out.
    pub fn next(&mut self) -> (r: Option<&'a str>)
        requires
            old(self).wf(),
        ensures
            final(self).wf(),
            match r {
                None => old(self)@.len() == 0 && final(self)@ == old(self)@,
                Some(chunk) => {
                    &&& 0 < chunk.spec_bytes().len() <= MAX_LEAF_LEN
                    &&& old(self)@ == final(self)@ + chunk.spec_bytes()
                },
            },
    {
        let r = self.cursor.prev_chunk();
        r
    }
}

} // verus!
