//! Scans over a single chunk of text.

use crate::text::{
    char_count, is_boundary, lemma_ascii_boundaries, lemma_boundary_at_junction,
    lemma_encode_concat, lemma_line_breaks_step, lemma_lines_before_step, line_breaks,
    lines_before, mid_crlf, CR, LF,
};
use vstd::prelude::*;
use vstd::string::*;
use vstd::utf8::*;

verus! {

/// The length of `s` in bytes.
pub fn byte_len(s: &str) -> (r: usize)
    ensures
        r == s.spec_bytes().len(),
{
    s.as_bytes().len()
}

/// True when `s` ends with a carriage return.
pub fn last_is_cr(s: &str) -> (r: bool)
    ensures
        r == (s.spec_bytes().len() > 0 && s.spec_bytes().last() == CR),
{
    let bytes = s.as_bytes();
    let n = bytes.len();
    n > 0 && bytes[n - 1] == CR
}

/// True when `s` begins with a line feed.
pub fn first_is_lf(s: &str) -> (r: bool)
    ensures
        r == (s.spec_bytes().len() > 0 && s.spec_bytes().first() == LF),
{
    let bytes = s.as_bytes();
    bytes.len() > 0 && bytes[0] == LF
}

/// The number of line terminators in `s`.
pub fn count_line_breaks(s: &str) -> (r: usize)
    ensures
        r == line_breaks(s.spec_bytes()),
{
    let bytes = s.as_bytes();
    let n = bytes.len();
    let mut count: usize = 0;
    let mut i: usize = 0;
    while i < n
        invariant
            i <= n,
            n == bytes@.len(),
            count == line_breaks(bytes@.subrange(0, i as int)),
            count <= i,
        decreases n - i,
    {
        let b = bytes[i];
        let after_cr = i > 0 && bytes[i - 1] == CR;
        if b == CR || (b == LF && !after_cr) {
            count += 1;
        }
        proof {
            lemma_line_breaks_step(bytes@, i as int);
        }
        i += 1;
    }
    assert(bytes@.subrange(0, n as int) =~= bytes@);
    count
}

/// The byte offset at which the character with index `char_index` starts,
/// or the length of `s` when `char_index` is the number of its characters.
pub fn char_to_byte(s: &str, char_index: usize) -> (r: usize)
    requires
        char_index <= char_count(s.spec_bytes()),
    ensures
        is_boundary(s.spec_bytes(), r as int),
        char_count(s.spec_bytes().subrange(0, r as int)) == char_index,
{
    proof {
        encode_utf8_decode_utf8(s@);
    }
    let head = s.substring_char(0, char_index);
    let r = byte_len(head);
    proof {
        let x = s@.subrange(0, char_index as int);
        let y = s@.subrange(char_index as int, s@.len() as int);
        assert(x + y =~= s@);
        lemma_encode_concat(x, y);
        encode_utf8_valid_utf8(x);
        encode_utf8_valid_utf8(y);
        lemma_boundary_at_junction(encode_utf8(x), encode_utf8(y));
        assert(s.spec_bytes().subrange(0, r as int) =~= encode_utf8(x));
        encode_utf8_decode_utf8(x);
    }
    r
}

/// The byte offset just behind the terminator that ends line
/// `line_index - 1`, which is where line `line_index` starts; the first line
/// starts at 0.
pub fn line_to_byte(s: &str, line_index: usize) -> (r: usize)
    requires
        line_index <= line_breaks(s.spec_bytes()),
    ensures
        is_boundary(s.spec_bytes(), r as int),
        lines_before(s.spec_bytes(), r as int) == line_index,
        forall|j: int| 0 <= j < r ==> lines_before(s.spec_bytes(), j) < line_index,
{
    let bytes = s.as_bytes();
    let n = bytes.len();
    proof {
        encode_utf8_valid_utf8(s@);
    }
    if line_index == 0 {
        return 0;
    }
    let mut count: usize = 0;
    let mut i: usize = 0;
    while i < n
        invariant
            i <= n,
            n == bytes@.len(),
            bytes@ == s.spec_bytes(),
            valid_utf8(bytes@),
            line_index > 0,
            line_index <= line_breaks(bytes@),
            count == line_breaks(bytes@.subrange(0, i as int)),
            count <= i,
            forall|j: int| 0 <= j <= i ==> lines_before(bytes@, j) < line_index,
        decreases n - i,
    {
        let b = bytes[i];
        let after_cr = i > 0 && bytes[i - 1] == CR;
        if b == CR || (b == LF && !after_cr) {
            count += 1;
        }
        proof {
            lemma_line_breaks_step(bytes@, i as int);
            lemma_lines_before_step(bytes@, i as int);
        }
        i += 1;
        let open_pair = i < n && b == CR && bytes[i] == LF;
        let ended: usize = if open_pair {
            count - 1
        } else {
            count
        };
        if ended == line_index {
            proof {
                if b == LF || b == CR {
                    lemma_ascii_boundaries(bytes@, i - 1);
                }
            }
            return i;
        }
    }
    proof {
        assert(bytes@.subrange(0, n as int) =~= bytes@);
        assert(lines_before(bytes@, n as int) < line_index);
        assert(false);
    }
    n
}

/// In a valid text, a character boundary lies at most three bytes before
/// any position.
pub proof fn lemma_boundary_near(bytes: Seq<u8>, i: int) -> (j: int)
    requires
        valid_utf8(bytes),
        0 <= i <= bytes.len(),
    ensures
        0 <= j <= i,
        i - 3 <= j,
        is_char_boundary(bytes, j),
    decreases bytes.len(),
{
    let len = length_of_first_scalar(bytes);
    if i == 0 || i < len {
        0
    } else {
        let rest = pop_first_scalar(bytes);
        let k = lemma_boundary_near(rest, i - len);
        k + len
    }
}

/// The largest position up to `limit` at which `s` can be cut without
/// splitting a character or a CR LF pair. It lies at most four bytes before
/// `limit`.
pub fn safe_cut(s: &str, limit: usize) -> (r: usize)
    requires
        limit <= s.spec_bytes().len(),
    ensures
        r <= limit,
        limit <= r + 4,
        is_boundary(s.spec_bytes(), r as int),
        !mid_crlf(s.spec_bytes(), r as int),
        forall|j: int|
            r < j <= limit ==> !is_char_boundary(s.spec_bytes(), j) || mid_crlf(
                s.spec_bytes(),
                j,
            ),
{
    let bytes = s.as_bytes();
    let ghost near = 0int;
    proof {
        encode_utf8_valid_utf8(s@);
        near = lemma_boundary_near(bytes@, limit as int);
    }
    let mut j: usize = limit;
    while !s.is_char_boundary(j)
        invariant
            near <= j <= limit,
            limit <= bytes@.len(),
            bytes@ == s.spec_bytes(),
            limit - 3 <= near,
            0 <= near,
            is_char_boundary(bytes@, near),
            forall|k: int| j < k <= limit ==> !is_char_boundary(bytes@, k),
        decreases j,
    {
        j -= 1;
    }
    if j > 0 && j < bytes.len() && bytes[j - 1] == CR && bytes[j] == LF {
        proof {
            lemma_ascii_boundaries(bytes@, j - 1);
        }
        j - 1
    } else {
        j
    }
}

} // verus!
