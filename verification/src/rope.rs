//! The rope itself: a tree height and a root, with queries that read the
//! cached summaries and edits that rebuild the spine they touch.

use crate::builder::Builder;
use crate::bytes::{Bytes, BytesRev};
use crate::chars::{Chars, CharsRev};
use crate::chunks::{Chunks, ChunksRev};
use crate::cursor::Cursor;
use crate::info::Info;
use crate::node::{Leaf, Node, MAX_CHILDREN};
use crate::slice::Slice;
use crate::str_utils;
use crate::text::{
    char_count, is_boundary, lemma_ascii_boundaries, lemma_char_count_monotonic,
    lemma_line_breaks_le, line_breaks, line_count, lines_before, seam, CR, LF,
};
use std::ops::Range;
use vstd::prelude::*;
use vstd::string::*;
use vstd::utf8::*;

verus! {

/// A text held as a balanced tree of chunks.
#[derive(Debug)]
pub struct Rope {
    pub(crate) height: usize,
    pub(crate) root: Node,
}

impl View for Rope {
    type V = Seq<u8>;

    /// The text as bytes.
    open(crate) spec fn view(&self) -> Seq<u8> {
        self.root.bytes()
    }
}

impl Rope {
    /// True when the tree is well formed: every leaf lies at depth
    /// `height` and holds at most `MAX_LEAF_LEN` bytes, and at least
    /// `MIN_LEAF_LEN` unless it is the root; every branch has at least
    /// `MIN_CHILDREN` and at most `MAX_CHILDREN` children; no CR LF pair is
    /// split between two leaves; and every cached summary is that of the
    /// text below it.
    pub open(crate) spec fn wf(&self) -> bool {
        self.root.wf(self.height as nat)
    }

    /// The text as characters.
    pub open spec fn text(&self) -> Seq<char> {
        decode_utf8(self@)
    }

    /// The number of branch levels above the leaves.
    pub open(crate) spec fn spec_height(&self) -> nat {
        self.height as nat
    }

    /// The root of the tree.
    pub open(crate) spec fn spec_root(&self) -> Node {
        self.root
    }

    /// The text of a well-formed rope is valid UTF-8, so its start and its
    /// end are character boundaries.
    pub proof fn lemma_valid(&self)
        requires
            self.wf(),
        ensures
            valid_utf8(self@),
            is_boundary(self@, 0),
            is_boundary(self@, self@.len() as int),
            self@.len() <= usize::MAX,
    {
        self.root.lemma_wf_valid(self.height as nat);
        is_char_boundary_start_end_of_seq(self@);
    }

    /// Creates a new empty `Rope`.
    pub fn new() -> (r: Self)
        ensures
            r.wf(),
            r@ == Seq::<u8>::empty(),
            r.spec_height() == 0,
    {
        Self { height: 0, root: Node::Leaf(Leaf::new()) }
    }

    /// Returns `true` if `self` is empty.
    pub fn is_empty(&self) -> (r: bool)
        requires
            self.wf(),
        ensures
            r == (self@.len() == 0),
    {
        self.byte_len() == 0
    }

    /// Returns the length of `self` in bytes.
    pub fn byte_len(&self) -> (r: usize)
        requires
            self.wf(),
        ensures
            r == self@.len(),
    {
        self.root.info().byte_count
    }

    /// Returns the length of `self` in `char`s.
    pub fn char_len(&self) -> (r: usize)
        requires
            self.wf(),
        ensures
            r == char_count(self@),
    {
        self.root.info().char_count
    }

    /// Returns the length of `self` in lines.
    pub fn line_len(&self) -> (r: usize)
        requires
            self.wf(),
            self@.len() < usize::MAX,
        ensures
            r == line_count(self@),
    {
        proof {
            lemma_line_breaks_le(self@);
        }
        self.root.info().line_break_count + 1
    }

    /// Returns `true` if `byte_index` is a position of the text at which
    /// no character is cut in two.
    pub fn is_char_boundary(&self, byte_index: usize) -> (r: bool)
        requires
            self.wf(),
        ensures
            r == is_boundary(self@, byte_index as int),
    {
        self.root.is_char_boundary(byte_index, Ghost(self.height as nat))
    }

    /// Converts the given `byte_index` to a `char` index: the number of
    /// characters before it.
    pub fn byte_to_char(&self, byte_index: usize) -> (r: usize)
        requires
            self.wf(),
            is_boundary(self@, byte_index as int),
        ensures
            r == char_count(self@.subrange(0, byte_index as int)),
    {
        self.info_at(byte_index).char_count
    }

    /// Converts the given `byte_index` to a line number: the number of
    /// lines of the text before it, which is one more than the number of
    /// line terminators there.
    pub fn byte_to_line(&self, byte_index: usize) -> (r: usize)
        requires
            self.wf(),
            is_boundary(self@, byte_index as int),
            byte_index < usize::MAX,
        ensures
            r == line_count(self@.subrange(0, byte_index as int)),
    {
        proof {
            lemma_line_breaks_le(self@.subrange(0, byte_index as int));
        }
        self.info_at(byte_index).line_break_count + 1
    }

    /// Converts the given `char_index` to a byte index: the first
    /// character boundary with `char_index` characters before it.
    pub fn char_to_byte(&self, char_index: usize) -> (r: usize)
        requires
            self.wf(),
            char_index <= char_count(self@),
        ensures
            is_boundary(self@, r as int),
            char_count(self@.subrange(0, r as int)) == char_index,
            forall|j: int|
                0 <= j < r && is_char_boundary(self@, j) ==> char_count(
                    #[trigger] self@.subrange(0, j),
                ) < char_index,
    {
        proof {
            self.lemma_valid();
        }
        let r = if char_index == 0 {
            0
        } else if char_index == self.char_len() {
            assert(self@.subrange(0, self@.len() as int) =~= self@);
            self.byte_len()
        } else {
            self.root.char_to_byte(char_index, Ghost(self.height as nat))
        };
        proof {
            assert forall|j: int| 0 <= j < r && is_char_boundary(self@, j) implies char_count(
                #[trigger] self@.subrange(0, j),
            ) < char_index by {
                lemma_char_count_monotonic(self@, j, r as int);
            }
        }
        r
    }

    /// Converts the given `line_index` to a byte index: the first position
    /// with `line_index` line terminators ended before it, which is where
    /// the line with that index, counted from zero, starts.
    pub fn line_to_byte(&self, line_index: usize) -> (r: usize)
        requires
            self.wf(),
            line_index <= line_breaks(self@),
        ensures
            is_boundary(self@, r as int),
            lines_before(self@, r as int) == line_index,
            forall|j: int| 0 <= j < r ==> lines_before(self@, j) < line_index,
    {
        if line_index == 0 {
            proof {
                self.lemma_valid();
            }
            return 0;
        }
        self.root.line_to_byte(line_index, Ghost(self.height as nat))
    }

    /// Returns the slice of `self` corresponding to the given `byte_range`.
    pub fn slice(&self, byte_range: Range<usize>) -> (r: Slice<'_>)
        requires
            self.wf(),
            byte_range.start <= byte_range.end,
            is_boundary(self@, byte_range.start as int),
            is_boundary(self@, byte_range.end as int),
        ensures
            r.wf(),
            r@ == self@.subrange(byte_range.start as int, byte_range.end as int),
    {
        Slice::new(self, byte_range.start, byte_range.end)
    }

    /// The slice that holds all of `self`.
    pub fn as_slice(&self) -> (r: Slice<'_>)
        requires
            self.wf(),
        ensures
            r.wf(),
            r@ == self@,
    {
        proof {
            self.lemma_valid();
        }
        Slice::new(self, 0, self.byte_len())
    }

    /// Returns a `Cursor` at the front of `self`.
    pub fn cursor_front(&self) -> (r: Cursor<'_>)
        requires
            self.wf(),
        ensures
            r.wf(),
            r.text() == self@,
            r.index() == 0,
    {
        self.as_slice().cursor_front()
    }

    /// Returns a `Cursor` at the back of `self`.
    pub fn cursor_back(&self) -> (r: Cursor<'_>)
        requires
            self.wf(),
        ensures
            r.wf(),
            r.text() == self@,
            r.index() == self@.len(),
    {
        self.as_slice().cursor_back()
    }

    /// Returns a `Cursor` at the given `byte_index` of `self`.
    pub fn cursor_at(&self, byte_index: usize) -> (r: Cursor<'_>)
        requires
            self.wf(),
            is_boundary(self@, byte_index as int),
        ensures
            r.wf(),
            r.text() == self@,
            r.index() == byte_index,
    {
        self.as_slice().cursor_at(byte_index)
    }

    /// Returns an iterator over the chunks of `self`.
    pub fn chunks(&self) -> (r: Chunks<'_>)
        requires
            self.wf(),
        ensures
            r.wf(),
            r@ == self@,
    {
        self.as_slice().chunks()
    }

    /// Returns a reverse iterator over the chunks of `self`.
    pub fn chunks_rev(&self) -> (r: ChunksRev<'_>)
        requires
            self.wf(),
        ensures
            r.wf(),
            r@ == self@,
    {
        self.as_slice().chunks_rev()
    }

    /// Returns an iterator over the bytes of `self`.
    pub fn bytes(&self) -> (r: Bytes<'_>)
        requires
            self.wf(),
        ensures
            r.wf(),
            r@ == self@,
    {
        self.as_slice().bytes()
    }

    /// Returns a reverse iterator over the bytes of `self`.
    pub fn bytes_rev(&self) -> (r: BytesRev<'_>)
        requires
            self.wf(),
        ensures
            r.wf(),
            r@ == self@,
    {
        self.as_slice().bytes_rev()
    }

    /// Returns an iterator over the `char`s of `self`.
    pub fn chars(&self) -> (r: Chars<'_>)
        requires
            self.wf(),
        ensures
            r.wf(),
            r@ == self.text(),
    {
        self.as_slice().chars()
    }

    /// Returns a reverse iterator over the `char`s of `self`.
    pub fn chars_rev(&self) -> (r: CharsRev<'_>)
        requires
            self.wf(),
        ensures
            r.wf(),
            r@ == self.text(),
    {
        self.as_slice().chars_rev()
    }

    /// The text of `self` as one string.
    pub fn to_string(&self) -> (r: String)
        requires
            self.wf(),
        ensures
            encode_utf8(r@) == self@,
            r@ == self.text(),
    {
        let r = self.chunks().to_string();
        proof {
            encode_utf8_decode_utf8(r@);
        }
        r
    }

    /// Appends `other` to `self`. Where `self` ends with a CR and `other`
    /// begins with an LF, the pair ends up in one leaf.
    pub fn append(&mut self, mut other: Self)
        requires
            old(self).wf(),
            other.wf(),
            old(self)@.len() + other@.len() <= usize::MAX,
        ensures
            final(self).wf(),
            final(self)@ == old(self)@ + other@,
    {
        if self.is_empty() {
            *self = other;
            return ;
        }
        if other.is_empty() {
            return ;
        }
        let ghost left = self@;
        let ghost right = other@;
        if str_utils::last_is_cr(self.root.chunk_back(Ghost(self.height as nat)))
            && str_utils::first_is_lf(other.root.chunk_front(Ghost(other.height as nat))) {
            proof {
                self.lemma_valid();
                other.lemma_valid();
                lemma_ascii_boundaries(left, left.len() - 1);
                lemma_ascii_boundaries(right, 0);
            }
            self.truncate_back(self.byte_len() - 1);
            other.truncate_front(1);
            let pair = Self::from("\r\n");
            proof {
                reveal_strlit("\r\n");
                is_ascii_chars_encode_utf8("\r\n"@);
            }
            self.append_internal(pair);
        }
        self.append_internal(other)
    }

    /// Splits `self` at the given `byte_index`: `self` keeps the text
    /// before it, and the text from there on is returned.
    pub fn split_off(&mut self, byte_index: usize) -> (r: Self)
        requires
            old(self).wf(),
            is_boundary(old(self)@, byte_index as int),
        ensures
            final(self).wf(),
            r.wf(),
            final(self)@ == old(self)@.subrange(0, byte_index as int),
            r@ == old(self)@.subrange(byte_index as int, old(self)@.len() as int),
    {
        if byte_index == 0 {
            let whole = self.clone();
            *self = Self::new();
            return whole;
        }
        if byte_index == self.byte_len() {
            return Self::new();
        }
        let (head, tail) = Self::split_node(&self.root, self.height, byte_index);
        *self = head;
        tail
    }

    /// Truncates `self` at the front, keeping the byte range `byte_start..`.
    pub fn truncate_front(&mut self, byte_start: usize)
        requires
            old(self).wf(),
            is_boundary(old(self)@, byte_start as int),
        ensures
            final(self).wf(),
            final(self)@ == old(self)@.subrange(byte_start as int, old(self)@.len() as int),
    {
        if byte_start == 0 {
            return ;
        }
        if byte_start == self.byte_len() {
            *self = Self::new();
            return ;
        }
        let (_, tail) = Self::split_node(&self.root, self.height, byte_start);
        *self = tail;
    }

    /// Truncates `self` at the back, keeping the byte range `..byte_end`.
    pub fn truncate_back(&mut self, byte_end: usize)
        requires
            old(self).wf(),
            is_boundary(old(self)@, byte_end as int),
        ensures
            final(self).wf(),
            final(self)@ == old(self)@.subrange(0, byte_end as int),
    {
        if byte_end == 0 {
            *self = Self::new();
            return ;
        }
        if byte_end == self.byte_len() {
            return ;
        }
        let (head, _) = Self::split_node(&self.root, self.height, byte_end);
        *self = head;
    }

    /// The rope with the given root.
    pub(crate) fn from_raw_parts(height: usize, root: Node) -> (r: Self)
        requires
            root.wf(height as nat),
        ensures
            r.wf(),
            r@ == root.bytes(),
            r.spec_height() == height,
    {
        Self { height, root }
    }

    /// The rope over a list of sibling trees, each of height `height - 1`.
    /// A single tree becomes the root itself.
    pub(crate) fn from_nodes(height: usize, nodes: Vec<Node>) -> (r: Self)
        requires
            height >= 1,
            1 <= nodes@.len() <= MAX_CHILDREN,
            Node::siblings_wf(nodes@, (height - 1) as nat),
            Node::join(nodes@).len() <= usize::MAX,
        ensures
            r.wf(),
            r@ == Node::join(nodes@),
            r@.len() > 0,
    {
        let mut root = Node::from_nodes(nodes, Ghost((height - 1) as nat));
        let levels = root.pull_up_singular_nodes(Ghost(height as nat));
        Self { height: height - levels, root }
    }

    /// The root of the tree.
    pub(crate) fn root(&self) -> (r: &Node)
        ensures
            r == self.root,
    {
        &self.root
    }

    /// The height of the tree.
    pub(crate) fn height(&self) -> (r: usize)
        ensures
            r == self.spec_height(),
    {
        self.height
    }

    /// The byte at `byte_index`.
    pub(crate) fn byte(&self, byte_index: usize) -> (r: u8)
        requires
            self.wf(),
            byte_index < self@.len(),
        ensures
            r == self@[byte_index as int],
    {
        self.root.byte(byte_index, Ghost(self.height as nat))
    }

    /// The summary of the text before `byte_index`.
    pub(crate) fn info_at(&self, byte_index: usize) -> (r: Info)
        requires
            self.wf(),
            is_boundary(self@, byte_index as int),
        ensures
            r.describes(self@.subrange(0, byte_index as int)),
    {
        if byte_index == 0 {
            return Info::new();
        }
        if byte_index == self.byte_len() {
            assert(self@.subrange(0, self@.len() as int) =~= self@);
            return self.root.info();
        }
        self.root.info_at(byte_index, Ghost(self.height as nat))
    }

    /// Joins the tree of `other` to the right of that of `self`, at the
    /// depth at which the two are equally high. The junction must not form
    /// a CR LF pair. The tree that results is as high as the higher of the
    /// two, or one level higher.
    pub(crate) fn append_internal(&mut self, other: Self)
        requires
            old(self).wf(),
            other.wf(),
            !seam(old(self)@, other@),
            old(self)@.len() + other@.len() <= usize::MAX,
        ensures
            final(self).wf(),
            final(self)@ == old(self)@ + other@,
            final(self).spec_height() >= old(self).spec_height(),
            final(self).spec_height() >= other.spec_height(),
            final(self).spec_height() <= old(self).spec_height() + 1 || final(self).spec_height()
                <= other.spec_height() + 1,
    {
        proof {
            if self.height > 0 {
                self.root.lemma_height_bound(self.height as nat);
            }
            if other.height > 0 {
                other.root.lemma_height_bound(other.height as nat);
            }
        }
        if self.is_empty() {
            *self = other;
            return ;
        }
        if other.is_empty() {
            return ;
        }
        if self.height < other.height {
            let mut root = other.root.clone();
            let height = other.height;
            match root.prepend_at_depth(
                self.root.clone(),
                height - self.height,
                Ghost(height as nat),
            ) {
                None => {
                    *self = Self { height, root };
                },
                Some(node) => {
                    proof {
                        Node::lemma_siblings_two(node, root, height as nat);
                    }
                    let mut nodes: Vec<Node> = Vec::new();
                    nodes.push(node);
                    nodes.push(root);
                    assert(nodes@ =~= seq![node, root]);
                    *self = Self {
                        height: height + 1,
                        root: Node::from_nodes(nodes, Ghost(height as nat)),
                    };
                },
            }
        } else {
            let mut root = self.root.clone();
            let height = self.height;
            match root.append_at_depth(other.root, height - other.height, Ghost(height as nat)) {
                None => {
                    *self = Self { height, root };
                },
                Some(node) => {
                    proof {
                        Node::lemma_siblings_two(root, node, height as nat);
                    }
                    let mut nodes: Vec<Node> = Vec::new();
                    nodes.push(root);
                    nodes.push(node);
                    assert(nodes@ =~= seq![root, node]);
                    *self = Self {
                        height: height + 1,
                        root: Node::from_nodes(nodes, Ghost(height as nat)),
                    };
                },
            }
        }
    }

    /// Cuts the tree `node` at byte `byte_index`, which lies strictly
    /// inside its text, into the rope of the text before and the rope of
    /// the text from there on.
    pub(crate) fn split_node(node: &Node, height: usize, byte_index: usize) -> (r: (Self, Self))
        requires
            node.wf(height as nat),
            0 < byte_index < node.bytes().len(),
            is_boundary(node.bytes(), byte_index as int),
        ensures
            r.0.wf(),
            r.1.wf(),
            r.0@ == node.bytes().subrange(0, byte_index as int),
            r.1@ == node.bytes().subrange(byte_index as int, node.bytes().len() as int),
        decreases height,
    {
        match node {
            Node::Leaf(leaf) => {
                let (head, tail) = leaf.split_at(byte_index);
                (
                    Self { height: 0, root: Node::Leaf(head) },
                    Self { height: 0, root: Node::Leaf(tail) },
                )
            },
            Node::Branch(branch) => {
                let ghost h = (height - 1) as nat;
                let ghost nodes = branch.nodes@;
                let n = branch.nodes.len();
                let (index, info) = Node::search_by_byte(&branch.nodes, byte_index, Ghost(h));
                let offset = byte_index - info.byte_count;
                let child_len = branch.nodes[index].info().byte_count;
                proof {
                    assert(Node::prefix_bytes(nodes, 0) =~= Seq::<u8>::empty());
                    Node::lemma_cut_at_child(nodes, h, index as int, offset as int);
                }
                if offset == child_len {
                    let left = Self::from_nodes(
                        height,
                        Node::clone_range(&branch.nodes, 0, index + 1),
                    );
                    let right = Self::from_nodes(
                        height,
                        Node::clone_range(&branch.nodes, index + 1, n),
                    );
                    (left, right)
                } else {
                    let (mut head, mut tail) = Self::split_node(
                        &branch.nodes[index],
                        height - 1,
                        offset,
                    );
                    if index > 0 {
                        let mut left = Self::from_nodes(
                            height,
                            Node::clone_range(&branch.nodes, 0, index),
                        );
                        left.append_internal(head);
                        head = left;
                    }
                    if index + 1 < n {
                        let right = Self::from_nodes(
                            height,
                            Node::clone_range(&branch.nodes, index + 1, n),
                        );
                        tail.append_internal(right);
                    }
                    (head, tail)
                }
            },
        }
    }
}

impl Clone for Rope {
    /// Another handle to the same tree; no text is copied.
    fn clone(&self) -> (r: Self)
        ensures
            r == *self,
    {
        Self { height: self.height, root: self.root.clone() }
    }
}

impl<'a> From<&'a str> for Rope {
    /// The rope that holds `string`.
    fn from(string: &'a str) -> (r: Self)
        ensures
            r.wf(),
            r@ == string.spec_bytes(),
    {
        let mut builder = Builder::new();
        let _ = str_utils::byte_len(string);
        builder.push_str(string);
        builder.build()
    }
}

/// What `from` returns is stated by its own `ensures`: the text of the
/// rope. Which tree holds that text is not given in closed form.
impl<'a> vstd::std_specs::convert::FromSpecImpl<&'a str> for Rope {
    open spec fn obeys_from_spec() -> bool {
        false
    }

    open spec fn from_spec(string: &'a str) -> Self {
        arbitrary()
    }
}

impl From<String> for Rope {
    /// The rope that holds `string`.
    fn from(string: String) -> (r: Self)
        ensures
            r.wf(),
            r@ == encode_utf8(string@),
    {
        Self::from(string.as_str())
    }
}

/// What `from` returns is stated by its own `ensures`.
impl vstd::std_specs::convert::FromSpecImpl<String> for Rope {
    open spec fn obeys_from_spec() -> bool {
        false
    }

    open spec fn from_spec(string: String) -> Self {
        arbitrary()
    }
}

impl<'a> From<&'a String> for Rope {
    /// The rope that holds `string`.
    fn from(string: &'a String) -> (r: Self)
        ensures
            r.wf(),
            r@ == encode_utf8(string@),
    {
        Self::from(string.as_str())
    }
}

/// What `from` returns is stated by its own `ensures`.
impl<'a> vstd::std_specs::convert::FromSpecImpl<&'a String> for Rope {
    open spec fn obeys_from_spec() -> bool {
        false
    }

    open spec fn from_spec(string: &'a String) -> Self {
        arbitrary()
    }
}

} // verus!
