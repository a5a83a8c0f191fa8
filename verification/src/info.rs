//! The summary that every node of the tree caches: how many bytes,
//! characters and line breaks its text holds.

use crate::str_utils;
use crate::text::{
    char_count, lemma_char_count_le, lemma_decode_concat, lemma_line_breaks_concat,
    lemma_line_breaks_le, line_breaks, seam,
};
use vstd::prelude::*;
use vstd::string::*;
use vstd::utf8::*;

verus! {

/// Byte, character and line break counts of a run of text.
#[derive(Clone, Copy, Debug)]
pub struct Info {
    pub byte_count: usize,
    pub char_count: usize,
    pub line_break_count: usize,
}

impl Info {
    /// True when the three counts are those of `bytes`.
    pub open spec fn describes(self, bytes: Seq<u8>) -> bool {
        &&& self.byte_count == bytes.len()
        &&& self.char_count == char_count(bytes)
        &&& self.line_break_count == line_breaks(bytes)
    }

    /// The summary of the empty text.
    pub fn new() -> (r: Info)
        ensures
            r.byte_count == 0,
            r.char_count == 0,
            r.line_break_count == 0,
            r.describes(Seq::empty()),
    {
        Info { byte_count: 0, char_count: 0, line_break_count: 0 }
    }

    /// The summary of `s`, found by scanning it once.
    pub fn of_str(s: &str) -> (r: Info)
        ensures
            r.describes(s.spec_bytes()),
    {
        proof {
            encode_utf8_decode_utf8(s@);
        }
        Info {
            byte_count: str_utils::byte_len(s),
            char_count: s.unicode_len(),
            line_break_count: str_utils::count_line_breaks(s),
        }
    }

    /// The element-wise sum of two summaries.
    pub fn combine(self, other: Info) -> (r: Info)
        requires
            self.byte_count + other.byte_count <= usize::MAX,
            self.char_count + other.char_count <= usize::MAX,
            self.line_break_count + other.line_break_count <= usize::MAX,
        ensures
            r.byte_count == self.byte_count + other.byte_count,
            r.char_count == self.char_count + other.char_count,
            r.line_break_count == self.line_break_count + other.line_break_count,
    {
        Info {
            byte_count: self.byte_count + other.byte_count,
            char_count: self.char_count + other.char_count,
            line_break_count: self.line_break_count + other.line_break_count,
        }
    }

    /// The sum of the summaries of two valid texts is the summary of their
    /// join, provided that the join forms no CR LF pair at the junction.
    pub proof fn lemma_combine(self, a: Seq<u8>, other: Info, b: Seq<u8>)
        requires
            self.describes(a),
            other.describes(b),
            valid_utf8(a),
            valid_utf8(b),
            !seam(a, b),
            a.len() + b.len() <= usize::MAX,
        ensures
            self.char_count + other.char_count <= usize::MAX,
            self.line_break_count + other.line_break_count <= usize::MAX,
            valid_utf8(a + b),
            char_count(a + b) == self.char_count + other.char_count,
            line_breaks(a + b) == self.line_break_count + other.line_break_count,
    {
        lemma_decode_concat(a, b);
        lemma_line_breaks_concat(a, b);
        lemma_char_count_le(a + b);
        lemma_line_breaks_le(a + b);
    }
}

} // verus!
