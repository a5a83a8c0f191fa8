//! Reading a tree: the descent to the child that holds a byte, a character
//! or a line, and the conversions between the three that rest on it.

use crate::info::Info;
use crate::node::Node;
use crate::str_utils;
use crate::text::{
    char_count, is_boundary, lemma_decode_concat, lemma_lines_before_monotonic, line_breaks,
    lines_before,
};
use vstd::prelude::*;
use vstd::string::*;
use vstd::utf8::*;

verus! {

impl Node {
    /// The index of the first child whose text reaches byte `byte_index` of
    /// the joined text, with the summary of the children before it.
    pub fn search_by_byte(
        nodes: &Vec<Node>,
        byte_index: usize,
        Ghost(height): Ghost<nat>,
    ) -> (r: (usize, Info))
        requires
            Self::siblings_wf(nodes@, height),
            nodes@.len() >= 1,
            byte_index <= Self::join(nodes@).len() <= usize::MAX,
        ensures
            r.0 < nodes@.len(),
            r.1.describes(Self::prefix_bytes(nodes@, r.0 as nat)),
            r.1.byte_count <= byte_index <= r.1.byte_count + nodes@[r.0 as int].bytes().len(),
            r.0 > 0 ==> r.1.byte_count < byte_index,
    {
        let n = nodes.len();
        let mut index: usize = 0;
        let mut info = Info::new();
        proof {
            Self::lemma_child_window(nodes@, height, 0);
        }
        while index + 1 < n && nodes[index].info().byte_count < byte_index - info.byte_count
            invariant
                index < n,
                n == nodes@.len(),
                Self::siblings_wf(nodes@, height),
                byte_index <= Self::join(nodes@).len() <= usize::MAX,
                info.describes(Self::prefix_bytes(nodes@, index as nat)),
                info.byte_count <= byte_index,
                index > 0 ==> info.byte_count < byte_index,
                info.byte_count + nodes@[index as int].bytes().len() <= Self::join(nodes@).len(),
            decreases n - index,
        {
            let child = nodes[index].info();
            proof {
                Self::lemma_child_window(nodes@, height, index as int);
                Self::lemma_child_window(nodes@, height, index + 1);
                info.lemma_combine(
                    Self::prefix_bytes(nodes@, index as nat),
                    child,
                    nodes@[index as int].bytes(),
                );
            }
            info = info.combine(child);
            index += 1;
        }
        (index, info)
    }

    /// The text of the first leaf.
    pub fn chunk_front(&self, Ghost(height): Ghost<nat>) -> (r: &str)
        requires
            self.wf(height),
        ensures
            r.spec_bytes().len() <= self.bytes().len(),
            r.spec_bytes() == self.bytes().subrange(0, r.spec_bytes().len() as int),
            self.bytes().len() > 0 ==> r.spec_bytes().len() > 0,
        decreases height,
    {
        match self {
            Node::Leaf(leaf) => {
                leaf.as_str()
            },
            Node::Branch(branch) => {
                let r = branch.nodes[0].chunk_front(Ghost((height - 1) as nat));
                proof {
                    Self::lemma_child_prefix(
                        branch.nodes@,
                        (height - 1) as nat,
                        0,
                        r.spec_bytes().len() as int,
                    );
                }
                r
            },
        }
    }

    /// The text of the last leaf.
    pub fn chunk_back(&self, Ghost(height): Ghost<nat>) -> (r: &str)
        requires
            self.wf(height),
        ensures
            r.spec_bytes().len() <= self.bytes().len(),
            r.spec_bytes() == self.bytes().subrange(
                self.bytes().len() - r.spec_bytes().len(),
                self.bytes().len() as int,
            ),
            self.bytes().len() > 0 ==> r.spec_bytes().len() > 0,
        decreases height,
    {
        match self {
            Node::Leaf(leaf) => {
                leaf.as_str()
            },
            Node::Branch(branch) => {
                let n = branch.nodes.len();
                let r = branch.nodes[n - 1].chunk_back(Ghost((height - 1) as nat));
                r
            },
        }
    }
    /// The index of the first child whose text reaches character
    /// `char_index` of the joined text, with the summary of the children
    /// before it.
    pub fn search_by_char(
        nodes: &Vec<Node>,
        char_index: usize,
        Ghost(height): Ghost<nat>,
    ) -> (r: (usize, Info))
        requires
            Self::siblings_wf(nodes@, height),
            nodes@.len() >= 1,
            Self::join(nodes@).len() <= usize::MAX,
            char_index <= char_count(Self::join(nodes@)),
        ensures
            r.0 < nodes@.len(),
            r.1.describes(Self::prefix_bytes(nodes@, r.0 as nat)),
            r.1.char_count <= char_index <= r.1.char_count + char_count(
                nodes@[r.0 as int].bytes(),
            ),
    {
        let n = nodes.len();
        let mut index: usize = 0;
        let mut info = Info::new();
        while index + 1 < n && nodes[index].info().char_count < char_index - info.char_count
            invariant
                index < n,
                n == nodes@.len(),
                Self::siblings_wf(nodes@, height),
                Self::join(nodes@).len() <= usize::MAX,
                char_index <= char_count(Self::join(nodes@)),
                info.describes(Self::prefix_bytes(nodes@, index as nat)),
                info.char_count <= char_index,
            decreases n - index,
        {
            let child = nodes[index].info();
            proof {
                Self::lemma_child_window(nodes@, height, index as int);
                info.lemma_combine(
                    Self::prefix_bytes(nodes@, index as nat),
                    child,
                    nodes@[index as int].bytes(),
                );
            }
            info = info.combine(child);
            index += 1;
        }
        proof {
            Self::lemma_child_counts(nodes@, height, index as int);
        }
        (index, info)
    }

    /// The index of the first child in whose text the line terminator with
    /// number `line_index` ends, with the summary of the children before
    /// it.
    pub fn search_by_line(
        nodes: &Vec<Node>,
        line_index: usize,
        Ghost(height): Ghost<nat>,
    ) -> (r: (usize, Info))
        requires
            Self::siblings_wf(nodes@, height),
            nodes@.len() >= 1,
            Self::join(nodes@).len() <= usize::MAX,
            line_index <= line_breaks(Self::join(nodes@)),
        ensures
            r.0 < nodes@.len(),
            r.1.describes(Self::prefix_bytes(nodes@, r.0 as nat)),
            r.1.line_break_count <= line_index <= r.1.line_break_count + line_breaks(
                nodes@[r.0 as int].bytes(),
            ),
            r.0 > 0 ==> r.1.line_break_count < line_index,
    {
        let n = nodes.len();
        let mut index: usize = 0;
        let mut info = Info::new();
        while index + 1 < n && nodes[index].info().line_break_count < line_index
            - info.line_break_count
            invariant
                index < n,
                n == nodes@.len(),
                Self::siblings_wf(nodes@, height),
                Self::join(nodes@).len() <= usize::MAX,
                line_index <= line_breaks(Self::join(nodes@)),
                info.describes(Self::prefix_bytes(nodes@, index as nat)),
                info.line_break_count <= line_index,
                index > 0 ==> info.line_break_count < line_index,
            decreases n - index,
        {
            let child = nodes[index].info();
            proof {
                Self::lemma_child_window(nodes@, height, index as int);
                info.lemma_combine(
                    Self::prefix_bytes(nodes@, index as nat),
                    child,
                    nodes@[index as int].bytes(),
                );
            }
            info = info.combine(child);
            index += 1;
        }
        proof {
            Self::lemma_child_counts(nodes@, height, index as int);
        }
        (index, info)
    }

    /// True when `byte_index` is a position of the text at which no
    /// character is cut in two.
    pub fn is_char_boundary(&self, byte_index: usize, Ghost(height): Ghost<nat>) -> (r: bool)
        requires
            self.wf(height),
        ensures
            r == is_boundary(self.bytes(), byte_index as int),
        decreases height,
    {
        if byte_index > self.info().byte_count {
            return false;
        }
        match self {
            Node::Leaf(leaf) => leaf.as_str().is_char_boundary(byte_index),
            Node::Branch(branch) => {
                let ghost h = (height - 1) as nat;
                let (index, info) = Self::search_by_byte(&branch.nodes, byte_index, Ghost(h));
                proof {
                    Self::lemma_child_boundary(
                        branch.nodes@,
                        h,
                        index as int,
                        byte_index - info.byte_count,
                    );
                }
                branch.nodes[index].is_char_boundary(byte_index - info.byte_count, Ghost(h))
            },
        }
    }

    /// The summary of the text before `byte_index`.
    pub fn info_at(&self, byte_index: usize, Ghost(height): Ghost<nat>) -> (r: Info)
        requires
            self.wf(height),
            is_boundary(self.bytes(), byte_index as int),
        ensures
            r.describes(self.bytes().subrange(0, byte_index as int)),
        decreases height,
    {
        match self {
            Node::Leaf(leaf) => {
                let (head, _) = leaf.as_str().split_at(byte_index);
                Info::of_str(head)
            },
            Node::Branch(branch) => {
                let ghost h = (height - 1) as nat;
                let ghost nodes = branch.nodes@;
                let (index, info) = Self::search_by_byte(&branch.nodes, byte_index, Ghost(h));
                let offset = byte_index - info.byte_count;
                proof {
                    Self::lemma_child_window(nodes, h, index as int);
                    Self::lemma_child_prefix(nodes, h, index as int, offset as int);
                    Self::lemma_child_boundary(nodes, h, index as int, offset as int);
                }
                let inner = branch.nodes[index].info_at(offset, Ghost(h));
                proof {
                    let a = Self::prefix_bytes(nodes, index as nat);
                    let c = nodes[index as int].bytes();
                    valid_utf8_split(c, offset as int);
                    info.lemma_combine(a, inner, c.subrange(0, offset as int));
                }
                info.combine(inner)
            },
        }
    }

    /// The byte offset at which the character with index `char_index`
    /// starts, or the length of the text when `char_index` is the number of
    /// its characters.
    pub fn char_to_byte(&self, char_index: usize, Ghost(height): Ghost<nat>) -> (r: usize)
        requires
            self.wf(height),
            char_index <= char_count(self.bytes()),
        ensures
            is_boundary(self.bytes(), r as int),
            char_count(self.bytes().subrange(0, r as int)) == char_index,
        decreases height,
    {
        match self {
            Node::Leaf(leaf) => str_utils::char_to_byte(leaf.as_str(), char_index),
            Node::Branch(branch) => {
                let ghost h = (height - 1) as nat;
                let ghost nodes = branch.nodes@;
                let (index, info) = Self::search_by_char(&branch.nodes, char_index, Ghost(h));
                let inner = branch.nodes[index].char_to_byte(
                    char_index - info.char_count,
                    Ghost(h),
                );
                proof {
                    let a = Self::prefix_bytes(nodes, index as nat);
                    let c = nodes[index as int].bytes();
                    Self::lemma_child_window(nodes, h, index as int);
                    Self::lemma_child_prefix(nodes, h, index as int, inner as int);
                    Self::lemma_child_boundary(nodes, h, index as int, inner as int);
                    valid_utf8_split(c, inner as int);
                    lemma_decode_concat(a, c.subrange(0, inner as int));
                }
                info.byte_count + inner
            },
        }
    }

    /// The byte offset just behind the line terminator with number
    /// `line_index`, counted from one; 0 for `line_index` 0.
    pub fn line_to_byte(&self, line_index: usize, Ghost(height): Ghost<nat>) -> (r: usize)
        requires
            self.wf(height),
            line_index <= line_breaks(self.bytes()),
        ensures
            is_boundary(self.bytes(), r as int),
            lines_before(self.bytes(), r as int) == line_index,
            forall|j: int| 0 <= j < r ==> lines_before(self.bytes(), j) < line_index,
        decreases height,
    {
        match self {
            Node::Leaf(leaf) => str_utils::line_to_byte(leaf.as_str(), line_index),
            Node::Branch(branch) => {
                let ghost h = (height - 1) as nat;
                let ghost nodes = branch.nodes@;
                let (index, info) = Self::search_by_line(&branch.nodes, line_index, Ghost(h));
                let inner = branch.nodes[index].line_to_byte(
                    line_index - info.line_break_count,
                    Ghost(h),
                );
                proof {
                    let a = Self::prefix_bytes(nodes, index as nat);
                    let w = self.bytes();
                    Self::lemma_child_window(nodes, h, index as int);
                    Self::lemma_child_boundary(nodes, h, index as int, inner as int);
                    Self::lemma_child_lines(nodes, h, index as int, inner as int);
                    assert forall|j: int| 0 <= j < a.len() + inner implies lines_before(w, j)
                        < line_index by {
                        if j < a.len() {
                            lemma_lines_before_monotonic(w, j, a.len() as int);
                            Self::lemma_child_lines(nodes, h, index as int, 0);
                        } else {
                            Self::lemma_child_lines(nodes, h, index as int, j - a.len());
                        }
                    }
                }
                info.byte_count + inner
            },
        }
    }

    /// The byte at `byte_index`.
    pub fn byte(&self, byte_index: usize, Ghost(height): Ghost<nat>) -> (r: u8)
        requires
            self.wf(height),
            byte_index < self.bytes().len(),
        ensures
            r == self.bytes()[byte_index as int],
        decreases height,
    {
        match self {
            Node::Leaf(leaf) => leaf.as_str().as_bytes()[byte_index],
            Node::Branch(branch) => {
                let ghost h = (height - 1) as nat;
                let (index, info) = Self::search_by_byte(&branch.nodes, byte_index + 1, Ghost(h));
                proof {
                    Self::lemma_child_window(branch.nodes@, h, index as int);
                }
                branch.nodes[index].byte(byte_index - info.byte_count, Ghost(h))
            },
        }
    }
}

} // verus!
