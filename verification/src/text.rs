//! The mathematical vocabulary of the crate: what a line break is, how many
//! characters and line breaks a run of UTF-8 bytes holds, and how those
//! counts behave when runs are joined or cut.

use vstd::prelude::*;
use vstd::utf8::*;

verus! {

/// The line feed byte.
pub const LF: u8 = 0x0a;

/// The carriage return byte.
pub const CR: u8 = 0x0d;

/// True when the byte at `i` adds a line break to the text before it: every
/// carriage return does, and so does every line feed that does not directly
/// follow a carriage return. A CR LF pair therefore counts once.
pub open spec fn breaks_at(bytes: Seq<u8>, i: int) -> bool {
    bytes[i] == CR || (bytes[i] == LF && (i == 0 || bytes[i - 1] != CR))
}

/// The number of line terminators in `bytes`: LF, CR, and CR LF as one.
pub open spec fn line_breaks(bytes: Seq<u8>) -> nat
    decreases bytes.len(),
{
    if bytes.len() == 0 {
        0
    } else {
        line_breaks(bytes.drop_last()) + if breaks_at(bytes, bytes.len() - 1) {
            1nat
        } else {
            0nat
        }
    }
}

/// The number of lines in `bytes`: a text without a line break is one line.
pub open spec fn line_count(bytes: Seq<u8>) -> nat {
    line_breaks(bytes) + 1
}

/// The number of characters encoded in `bytes`.
pub open spec fn char_count(bytes: Seq<u8>) -> nat {
    decode_utf8(bytes).len()
}

/// True when joining `a` and `b` would bring a trailing CR and a leading LF
/// together.
pub open spec fn seam(a: Seq<u8>, b: Seq<u8>) -> bool {
    a.len() > 0 && b.len() > 0 && a.last() == CR && b.first() == LF
}

/// True when `i` lies between the two bytes of a CR LF pair.
pub open spec fn mid_crlf(bytes: Seq<u8>, i: int) -> bool {
    0 < i < bytes.len() && bytes[i - 1] == CR && bytes[i] == LF
}

/// The number of line terminators that end at or before `i`. A CR LF pair
/// that straddles `i` has not ended yet.
pub open spec fn lines_before(bytes: Seq<u8>, i: int) -> int {
    line_breaks(bytes.subrange(0, i)) - if mid_crlf(bytes, i) {
        1int
    } else {
        0int
    }
}

/// True when `i` is a position of `bytes` at which the text may be cut into
/// two valid texts.
pub open spec fn is_boundary(bytes: Seq<u8>, i: int) -> bool {
    0 <= i <= bytes.len() && is_char_boundary(bytes, i)
}

/// Line breaks add up over a join, except that a CR LF pair formed at the
/// junction is one break where the parts had two.
pub proof fn lemma_line_breaks_concat(a: Seq<u8>, b: Seq<u8>)
    ensures
        line_breaks(a + b) == line_breaks(a) + line_breaks(b) - if seam(a, b) {
            1int
        } else {
            0int
        },
    decreases b.len(),
{
    if b.len() > 0 {
        let ab = a + b;
        let b1 = b.drop_last();
        assert(ab.drop_last() =~= a + b1);
        lemma_line_breaks_concat(a, b1);
    }
}

/// A text has at most as many line breaks as bytes.
pub proof fn lemma_line_breaks_le(bytes: Seq<u8>)
    ensures
        line_breaks(bytes) <= bytes.len(),
    decreases bytes.len(),
{
    if bytes.len() > 0 {
        lemma_line_breaks_le(bytes.drop_last());
    }
}

/// The line breaks of a prefix never exceed those of a longer prefix.
pub proof fn lemma_line_breaks_monotonic(bytes: Seq<u8>, i: int, j: int)
    requires
        0 <= i <= j <= bytes.len(),
    ensures
        line_breaks(bytes.subrange(0, i)) <= line_breaks(bytes.subrange(0, j)),
    decreases j - i,
{
    if i < j {
        assert(bytes.subrange(0, j).drop_last() =~= bytes.subrange(0, j - 1));
        lemma_line_breaks_monotonic(bytes, i, j - 1);
    }
}

/// Extending a prefix by one byte adds that byte's line break, if any.
pub proof fn lemma_line_breaks_step(bytes: Seq<u8>, i: int)
    requires
        0 <= i < bytes.len(),
    ensures
        line_breaks(bytes.subrange(0, i + 1)) == line_breaks(bytes.subrange(0, i)) + if breaks_at(
            bytes,
            i,
        ) {
            1nat
        } else {
            0nat
        },
{
    let p = bytes.subrange(0, i + 1);
    assert(p.drop_last() =~= bytes.subrange(0, i));
}

/// The count of ended line terminators never decreases along the text, and
/// grows by at most one per byte.
pub proof fn lemma_lines_before_step(bytes: Seq<u8>, i: int)
    requires
        0 <= i < bytes.len(),
    ensures
        lines_before(bytes, i) <= lines_before(bytes, i + 1) <= lines_before(bytes, i) + 1,
        lines_before(bytes, i) >= 0,
{
    lemma_line_breaks_step(bytes, i);
}

/// The count of ended line terminators is monotonic in the position.
pub proof fn lemma_lines_before_monotonic(bytes: Seq<u8>, i: int, j: int)
    requires
        0 <= i <= j <= bytes.len(),
    ensures
        0 <= lines_before(bytes, i) <= lines_before(bytes, j),
    decreases j - i,
{
    if i < j {
        lemma_lines_before_step(bytes, j - 1);
        lemma_lines_before_monotonic(bytes, i, j - 1);
    }
}

/// Encoding distributes over concatenation.
pub proof fn lemma_encode_concat(x: Seq<char>, y: Seq<char>)
    ensures
        encode_utf8(x + y) == encode_utf8(x) + encode_utf8(y),
    decreases x.len(),
{
    if x.len() > 0 {
        let xy = x + y;
        assert(xy.drop_first() =~= x.drop_first() + y);
        lemma_encode_concat(x.drop_first(), y);
    }
}

/// Decoding distributes over the concatenation of valid texts.
pub proof fn lemma_decode_concat(a: Seq<u8>, b: Seq<u8>)
    requires
        valid_utf8(a),
        valid_utf8(b),
    ensures
        valid_utf8(a + b),
        decode_utf8(a + b) == decode_utf8(a) + decode_utf8(b),
{
    valid_utf8_concat(a, b);
    decode_utf8_encode_utf8(a);
    decode_utf8_encode_utf8(b);
    lemma_encode_concat(decode_utf8(a), decode_utf8(b));
    encode_utf8_decode_utf8(decode_utf8(a) + decode_utf8(b));
}

/// A valid text has at most as many characters as bytes.
pub proof fn lemma_char_count_le(bytes: Seq<u8>)
    requires
        valid_utf8(bytes),
    ensures
        char_count(bytes) <= bytes.len(),
    decreases bytes.len(),
{
    if bytes.len() > 0 {
        lemma_char_count_le(pop_first_scalar(bytes));
    }
}

/// The junction of two valid texts is a character boundary of their join.
pub proof fn lemma_boundary_at_junction(a: Seq<u8>, b: Seq<u8>)
    requires
        valid_utf8(a),
        valid_utf8(b),
    ensures
        valid_utf8(a + b),
        is_char_boundary(a + b, a.len() as int),
    decreases a.len(),
{
    if a.len() > 0 {
        let rest = pop_first_scalar(a);
        assert(pop_first_scalar(a + b) =~= rest + b);
        lemma_boundary_at_junction(rest, b);
    }
}

/// Inside the join of two valid texts, a position is a character boundary
/// exactly when it is one of the part it falls in.
pub proof fn lemma_boundary_in_concat(a: Seq<u8>, b: Seq<u8>, i: int)
    requires
        valid_utf8(a),
        valid_utf8(b),
        0 <= i <= a.len() + b.len(),
    ensures
        i <= a.len() ==> (is_char_boundary(a + b, i) <==> is_char_boundary(a, i)),
        i >= a.len() ==> (is_char_boundary(a + b, i) <==> is_char_boundary(b, i - a.len())),
{
    let ab = a + b;
    lemma_boundary_at_junction(a, b);
    is_char_boundary_start_end_of_seq(a);
    is_char_boundary_start_end_of_seq(b);
    is_char_boundary_start_end_of_seq(ab);
    if i < a.len() {
        is_char_boundary_iff_not_is_continuation_byte(ab, i);
        is_char_boundary_iff_not_is_continuation_byte(a, i);
    } else if i > a.len() && i < ab.len() {
        is_char_boundary_iff_not_is_continuation_byte(ab, i);
        is_char_boundary_iff_not_is_continuation_byte(b, i - a.len());
    }
}

/// Cutting a valid text at a character boundary gives two valid texts whose
/// characters and line breaks add up to those of the whole.
pub proof fn lemma_split_counts(bytes: Seq<u8>, i: int)
    requires
        valid_utf8(bytes),
        is_boundary(bytes, i),
    ensures
        valid_utf8(bytes.subrange(0, i)),
        valid_utf8(bytes.subrange(i, bytes.len() as int)),
        char_count(bytes) == char_count(bytes.subrange(0, i)) + char_count(
            bytes.subrange(i, bytes.len() as int),
        ),
        line_breaks(bytes) == line_breaks(bytes.subrange(0, i)) + line_breaks(
            bytes.subrange(i, bytes.len() as int),
        ) - if mid_crlf(bytes, i) {
            1int
        } else {
            0int
        },
{
    let a = bytes.subrange(0, i);
    let b = bytes.subrange(i, bytes.len() as int);
    valid_utf8_split(bytes, i);
    decode_utf8_split(bytes, i);
    assert(a + b =~= bytes);
    lemma_line_breaks_concat(a, b);
}

/// A position inside a prefix that ends at a character boundary is a
/// character boundary of the prefix exactly when it is one of the whole.
pub proof fn lemma_boundary_in_prefix(bytes: Seq<u8>, i: int, j: int)
    requires
        valid_utf8(bytes),
        is_boundary(bytes, j),
        0 <= i <= j,
    ensures
        valid_utf8(bytes.subrange(0, j)),
        is_char_boundary(bytes.subrange(0, j), i) <==> is_char_boundary(bytes, i),
{
    let a = bytes.subrange(0, j);
    let b = bytes.subrange(j, bytes.len() as int);
    valid_utf8_split(bytes, j);
    assert(a + b =~= bytes);
    lemma_boundary_in_concat(a, b, i);
}

/// A position inside a suffix that starts at a character boundary is a
/// character boundary of the suffix exactly when it is one of the whole.
pub proof fn lemma_boundary_in_suffix(bytes: Seq<u8>, i: int, j: int)
    requires
        valid_utf8(bytes),
        is_boundary(bytes, j),
        j <= i <= bytes.len(),
    ensures
        valid_utf8(bytes.subrange(j, bytes.len() as int)),
        is_char_boundary(bytes.subrange(j, bytes.len() as int), i - j) <==> is_char_boundary(
            bytes,
            i,
        ),
{
    let a = bytes.subrange(0, j);
    let b = bytes.subrange(j, bytes.len() as int);
    valid_utf8_split(bytes, j);
    assert(a + b =~= bytes);
    lemma_boundary_in_concat(a, b, i);
}

/// The characters of a prefix never exceed those of a longer prefix.
pub proof fn lemma_char_count_monotonic(bytes: Seq<u8>, i: int, j: int)
    requires
        valid_utf8(bytes),
        is_boundary(bytes, i),
        is_boundary(bytes, j),
        i <= j,
    ensures
        char_count(bytes.subrange(0, i)) <= char_count(bytes.subrange(0, j)),
        i < j ==> char_count(bytes.subrange(0, i)) < char_count(bytes.subrange(0, j)),
{
    let p = bytes.subrange(0, j);
    lemma_boundary_in_prefix(bytes, i, j);
    lemma_split_counts(p, i);
    assert(p.subrange(0, i) =~= bytes.subrange(0, i));
}

/// An ASCII byte in a valid text is followed by a character boundary, and
/// stands on one.
pub proof fn lemma_ascii_boundaries(bytes: Seq<u8>, i: int)
    requires
        valid_utf8(bytes),
        0 <= i < bytes.len(),
        bytes[i] < 0x80,
    ensures
        is_char_boundary(bytes, i),
        is_char_boundary(bytes, i + 1),
{
    is_char_boundary_iff_not_is_continuation_byte(bytes, i);
    valid_utf8_split(bytes, i);
    let b = bytes.subrange(i, bytes.len() as int);
    assert(is_char_boundary(b, 1)) by {
        reveal_with_fuel(is_char_boundary, 2);
    }
    lemma_boundary_in_suffix(bytes, i + 1, i);
}

/// True when the text `c` stands in `w` at offset `o`, between two
/// character boundaries of `w`.
#[verifier::opaque]
pub open spec fn window(w: Seq<u8>, o: int, c: Seq<u8>) -> bool {
    &&& 0 <= o
    &&& o + c.len() <= w.len()
    &&& w.subrange(o, o + c.len()) == c
    &&& is_char_boundary(w, o)
    &&& is_char_boundary(w, o + c.len())
}

/// A position inside a window is a character boundary of the window's text
/// exactly when it is one of the whole.
pub proof fn lemma_window_boundary(w: Seq<u8>, o: int, c: Seq<u8>, j: int)
    requires
        valid_utf8(w),
        valid_utf8(c),
        window(w, o, c),
        0 <= j <= c.len(),
    ensures
        is_char_boundary(w, o + j) <==> is_char_boundary(c, j),
{
    reveal(window);
    is_char_boundary_start_end_of_seq(c);
    if 0 < j < c.len() {
        is_char_boundary_iff_not_is_continuation_byte(w, o + j);
        is_char_boundary_iff_not_is_continuation_byte(c, j);
    }
}

/// A valid text is a window of itself.
pub proof fn lemma_window_whole(w: Seq<u8>)
    requires
        valid_utf8(w),
    ensures
        window(w, 0, w),
{
    reveal(window);
    is_char_boundary_start_end_of_seq(w);
    assert(w.subrange(0, w.len() as int) =~= w);
}

/// A window lies inside the whole, and each part of its text is the part of
/// the whole at the same place.
pub proof fn lemma_window_part(w: Seq<u8>, o: int, c: Seq<u8>, i: int, j: int)
    requires
        window(w, o, c),
        0 <= i <= j <= c.len(),
    ensures
        0 <= o,
        o + c.len() <= w.len(),
        is_char_boundary(w, o),
        is_char_boundary(w, o + c.len()),
        c.subrange(i, j) == w.subrange(o + i, o + j),
{
    reveal(window);
}

/// A valid text without a character boundary strictly inside it is the
/// encoding of a single character.
pub proof fn lemma_single_char(bytes: Seq<u8>)
    requires
        valid_utf8(bytes),
        bytes.len() > 0,
        forall|k: int| 0 < k < bytes.len() ==> !is_char_boundary(bytes, k),
    ensures
        char_count(bytes) == 1,
{
    let len = length_of_first_scalar(bytes);
    let rest = pop_first_scalar(bytes);
    if len < bytes.len() {
        assert(is_char_boundary(bytes, len)) by {
            reveal_with_fuel(is_char_boundary, 2);
        }
    }
    assert(decode_utf8(rest).len() == 0);
}

/// Between two neighbouring character boundaries `i < j` of a valid text
/// stands one character: the first of the text from `i` on, and the last of
/// the text up to `j`.
pub proof fn lemma_char_between(bytes: Seq<u8>, i: int, j: int)
    requires
        valid_utf8(bytes),
        is_boundary(bytes, i),
        is_boundary(bytes, j),
        i < j,
        forall|k: int| i < k < j ==> !is_char_boundary(bytes, k),
    ensures
        ({
            let n = bytes.len() as int;
            let c = decode_utf8(bytes.subrange(i, n))[0];
            &&& decode_utf8(bytes.subrange(i, n)).len() > 0
            &&& decode_utf8(bytes.subrange(i, n)) == seq![c] + decode_utf8(bytes.subrange(j, n))
            &&& decode_utf8(bytes.subrange(0, j)) == decode_utf8(bytes.subrange(0, i)).push(c)
        }),
{
    let n = bytes.len() as int;
    let tail = bytes.subrange(i, n);
    let mid = bytes.subrange(i, j);
    lemma_boundary_in_suffix(bytes, j, i);
    decode_utf8_split(tail, j - i);
    valid_utf8_split(tail, j - i);
    assert(tail.subrange(0, j - i) =~= mid);
    assert(tail.subrange(j - i, tail.len() as int) =~= bytes.subrange(j, n));
    assert forall|k: int| 0 < k < mid.len() implies !is_char_boundary(mid, k) by {
        lemma_boundary_in_prefix(tail, k, j - i);
        lemma_boundary_in_suffix(bytes, i + k, i);
    }
    lemma_single_char(mid);
    let head = bytes.subrange(0, j);
    lemma_boundary_in_prefix(bytes, i, j);
    decode_utf8_split(head, i);
    assert(head.subrange(0, i) =~= bytes.subrange(0, i));
    assert(head.subrange(i, head.len() as int) =~= mid);
}

} // verus!
