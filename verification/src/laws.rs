//! What holds of every rope, stated over the text that a rope stands for,
//! and two functions that put such statements to work.

use crate::node::MIN_LEAF_LEN;
use crate::rope::Rope;
use crate::text::{
    char_count, is_boundary, lemma_char_count_monotonic, lemma_line_breaks_concat,
    lemma_line_breaks_monotonic, line_breaks, line_count, CR, LF,
};
use vstd::arithmetic::power2::pow2;
use vstd::prelude::*;
use vstd::string::*;
use vstd::utf8::*;

verus! {

/// A rope whose bytes are the encoding of the characters `s` stands for
/// exactly those characters. The iterator that `chars` returns starts out
/// with `text()` still to come and hands it out from the front; the one
/// that `chars_rev` returns hands the same characters out from the back.
pub proof fn lemma_round_trip(rope: Rope, s: Seq<char>)
    requires
        rope.wf(),
        rope@ == encode_utf8(s),
    ensures
        rope.text() == s,
{
    encode_utf8_decode_utf8(s);
}

/// In a well-formed rope every leaf caches the summary of its own text and
/// every branch the sum of the summaries that its children cache.
pub proof fn lemma_cached_sums(rope: Rope)
    requires
        rope.wf(),
    ensures
        rope.spec_root().aggregates(rope.spec_height()),
{
    rope.spec_root().lemma_aggregates(rope.spec_height());
}

/// The text that `split_off(i)` leaves in place, followed by the text that
/// it returns, is the text before the split, and the two are short enough
/// to be appended: appending what was split off undoes the split.
pub proof fn lemma_split_append(rope: Rope, i: usize)
    requires
        rope.wf(),
        is_boundary(rope@, i as int),
    ensures
        rope@.subrange(0, i as int) + rope@.subrange(i as int, rope@.len() as int) == rope@,
        rope@.subrange(0, i as int).len() + rope@.subrange(i as int, rope@.len() as int).len()
            <= usize::MAX,
{
}

/// Where a text that ends in CR is followed by one that begins with LF, the
/// joined text keeps both bytes side by side, and the pair counts as one
/// line break: the joined text has one line break less than the two parts
/// had.
pub proof fn lemma_crlf_join(a: Rope, b: Rope)
    requires
        a.wf(),
        b.wf(),
        a@.len() > 0,
        b@.len() > 0,
        a@.last() == CR,
        b@.first() == LF,
    ensures
        line_breaks(a@ + b@) == line_breaks(a@) + line_breaks(b@) - 1,
        line_count(a@ + b@) == line_count(a@) + line_count(b@) - 2,
        (a@ + b@)[a@.len() - 1] == CR,
        (a@ + b@)[a@.len() as int] == LF,
{
    lemma_line_breaks_concat(a@, b@);
}

/// Of two character boundaries, the later one has at least as many
/// characters and lines before it as the earlier one.
pub proof fn lemma_coordinates_monotonic(rope: Rope, i: usize, j: usize)
    requires
        rope.wf(),
        is_boundary(rope@, i as int),
        is_boundary(rope@, j as int),
        i <= j,
    ensures
        char_count(rope@.subrange(0, i as int)) <= char_count(rope@.subrange(0, j as int)),
        line_count(rope@.subrange(0, i as int)) <= line_count(rope@.subrange(0, j as int)),
{
    rope.lemma_valid();
    lemma_char_count_monotonic(rope@, i as int, j as int);
    lemma_line_breaks_monotonic(rope@, i as int, j as int);
}

/// A rope of height `h > 0` holds at least `MIN_LEAF_LEN * 2^h` bytes, so
/// the height grows with the logarithm of the length only.
pub proof fn lemma_logarithmic_height(rope: Rope)
    requires
        rope.wf(),
        rope.spec_height() > 0,
    ensures
        rope@.len() >= MIN_LEAF_LEN * pow2(rope.spec_height()),
{
    rope.spec_root().lemma_balanced(rope.spec_height());
}

/// The empty text has no bytes, no characters and one line.
pub proof fn lemma_empty_text()
    ensures
        Seq::<u8>::empty().len() == 0,
        char_count(Seq::<u8>::empty()) == 0,
        line_count(Seq::<u8>::empty()) == 1,
{
}

/// Builds the rope of `s` and collects its characters, once from the front
/// and once from the back: the first list is `s`, the second is `s`
/// reversed.
pub fn round_trip(s: &str) -> (r: (Vec<char>, Vec<char>))
    ensures
        r.0@ == s@,
        r.1@ == s@.reverse(),
{
    proof {
        encode_utf8_decode_utf8(s@);
    }
    let rope = Rope::from(s);
    (rope.chars().to_vec(), rope.chars_rev().to_vec())
}

/// Splits a copy of `rope` at `byte_index` and appends what was split off
/// again: the result holds the text of `rope`.
pub fn split_and_append(rope: &Rope, byte_index: usize) -> (r: Rope)
    requires
        rope.wf(),
        is_boundary(rope@, byte_index as int),
    ensures
        r.wf(),
        r@ == rope@,
{
    let mut head = rope.clone();
    let tail = head.split_off(byte_index);
    head.append(tail);
    head
}

} // verus!
