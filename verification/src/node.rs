//! The tree cells: leaves that hold text, branches that hold equally deep
//! children, and what it means for a tree of them to be well formed.

pub mod edit;
pub mod lemmas;
pub mod query;

use crate::info::Info;
use crate::str_utils;
use crate::text::{is_boundary, lemma_encode_concat, seam};
use std::sync::Arc;
use vstd::prelude::*;
use vstd::string::*;
use vstd::utf8::*;

verus! {

/// The largest number of bytes that a leaf holds.
pub const MAX_LEAF_LEN: usize = 1024;

/// The smallest number of bytes that a leaf holds, unless it is the only
/// leaf of its tree.
pub const MIN_LEAF_LEN: usize = 256;

/// The smallest number of children of a branch.
pub const MIN_CHILDREN: usize = 2;

/// The largest number of children of a branch.
pub const MAX_CHILDREN: usize = 8;

/// A run of text together with its summary.
#[derive(Debug)]
pub struct Leaf {
    pub info: Info,
    pub text: Arc<String>,
}

/// An ordered list of children together with the summary of their joined
/// text.
#[derive(Debug)]
pub struct Branch {
    pub info: Info,
    pub nodes: Arc<Vec<Node>>,
}

/// A cell of the tree.
#[derive(Debug)]
pub enum Node {
    Leaf(Leaf),
    Branch(Branch),
}

/// Another handle to the value that `a` points to.
///
/// Calls `Arc::clone`, which hands out a second pointer to the same
/// allocation; the contract says that the value seen through it is the same.
#[verifier::external_body]
pub(crate) fn share<T>(a: &Arc<T>) -> (r: Arc<T>)
    ensures
        r == *a,
{
    Arc::clone(a)
}

impl Leaf {
    /// The text of the leaf as bytes.
    pub open spec fn bytes(self) -> Seq<u8> {
        encode_utf8(self.text@)
    }

    /// The summary is that of the text, and the text is not longer than a
    /// leaf may be.
    pub open spec fn wf(self) -> bool {
        &&& self.info.describes(self.bytes())
        &&& self.bytes().len() <= MAX_LEAF_LEN
    }

    /// The empty leaf.
    pub fn new() -> (r: Leaf)
        ensures
            r.wf(),
            r.bytes() == Seq::<u8>::empty(),
    {
        Leaf { info: Info::new(), text: Arc::new(String::new()) }
    }

    /// A leaf that holds a copy of `s`.
    pub fn from_str(s: &str) -> (r: Leaf)
        requires
            s.spec_bytes().len() <= MAX_LEAF_LEN,
        ensures
            r.wf(),
            r.bytes() == s.spec_bytes(),
    {
        Leaf { info: Info::of_str(s), text: Arc::new(s.to_owned()) }
    }

    /// The text of the leaf.
    pub fn as_str(&self) -> (r: &str)
        ensures
            r@ == self.text@,
            r.spec_bytes() == self.bytes(),
    {
        self.text.as_str()
    }

    /// The leaf that holds the text of `self` followed by that of `other`.
    pub fn concat(&self, other: &Leaf) -> (r: Leaf)
        requires
            self.wf(),
            other.wf(),
            self.bytes().len() + other.bytes().len() <= MAX_LEAF_LEN,
            !seam(self.bytes(), other.bytes()),
        ensures
            r.wf(),
            r.bytes() == self.bytes() + other.bytes(),
    {
        let mut text = self.as_str().to_owned();
        text.append(other.as_str());
        proof {
            lemma_encode_concat(self.text@, other.text@);
            encode_utf8_valid_utf8(self.text@);
            encode_utf8_valid_utf8(other.text@);
            self.info.lemma_combine(self.bytes(), other.info, other.bytes());
        }
        Leaf { info: self.info.combine(other.info), text: Arc::new(text) }
    }

    /// The two leaves that hold the text before and from byte `i`.
    pub fn split_at(&self, i: usize) -> (r: (Leaf, Leaf))
        requires
            self.wf(),
            is_boundary(self.bytes(), i as int),
        ensures
            r.0.wf(),
            r.1.wf(),
            r.0.bytes() == self.bytes().subrange(0, i as int),
            r.1.bytes() == self.bytes().subrange(i as int, self.bytes().len() as int),
    {
        let (head, tail) = self.as_str().split_at(i);
        (Leaf::from_str(head), Leaf::from_str(tail))
    }

    /// Two leaves that share the text of `self` followed by that of `other`
    /// about evenly, cut where neither a character nor a CR LF pair is
    /// split. For two leaves of which one is short and which do not fit
    /// into one.
    pub fn distribute(&self, other: &Leaf) -> (r: (Leaf, Leaf))
        requires
            self.wf(),
            other.wf(),
            MAX_LEAF_LEN < self.bytes().len() + other.bytes().len() < MAX_LEAF_LEN + MIN_LEAF_LEN,
        ensures
            r.0.wf(),
            r.1.wf(),
            r.0.bytes().len() >= MIN_LEAF_LEN,
            r.1.bytes().len() >= MIN_LEAF_LEN,
            r.0.bytes() + r.1.bytes() == self.bytes() + other.bytes(),
            !seam(r.0.bytes(), r.1.bytes()),
    {
        let mut text = self.as_str().to_owned();
        text.append(other.as_str());
        proof {
            lemma_encode_concat(self.text@, other.text@);
        }
        let total = self.info.byte_count + other.info.byte_count;
        let cut = str_utils::safe_cut(text.as_str(), total / 2 + 2);
        let (head, tail) = text.as_str().split_at(cut);
        (Leaf::from_str(head), Leaf::from_str(tail))
    }
}

impl Node {
    /// The text of the subtree as bytes: that of its leaves from left to
    /// right.
    pub open spec fn bytes(self) -> Seq<u8>
        decreases self, 0nat,
    {
        match self {
            Node::Leaf(leaf) => leaf.bytes(),
            Node::Branch(branch) => Self::prefix_bytes(branch.nodes@, branch.nodes@.len()),
        }
    }

    /// The joined text of the first `n` of `nodes`.
    pub open spec fn prefix_bytes(nodes: Seq<Node>, n: nat) -> Seq<u8>
        decreases nodes, n,
    {
        if n == 0 || n > nodes.len() {
            Seq::empty()
        } else {
            Self::prefix_bytes(nodes, (n - 1) as nat) + nodes[n - 1].bytes()
        }
    }

    /// The least number of bytes of a tree that stands under a branch: a
    /// leaf there holds at least `MIN_LEAF_LEN` bytes, a branch some text.
    pub open spec fn min_len(height: nat) -> nat {
        if height == 0 {
            MIN_LEAF_LEN as nat
        } else {
            1
        }
    }

    /// True when the tree holds enough text to stand under a branch.
    pub open spec fn full(self, height: nat) -> bool {
        self.bytes().len() >= Self::min_len(height)
    }

    /// The joined text of `nodes`.
    pub open spec fn join(nodes: Seq<Node>) -> Seq<u8> {
        Self::prefix_bytes(nodes, nodes.len())
    }

    /// The summary that the node caches.
    pub open spec fn spec_info(self) -> Info {
        match self {
            Node::Leaf(leaf) => leaf.info,
            Node::Branch(branch) => branch.info,
        }
    }

    /// The children of a branch; a leaf has none.
    pub open spec fn children(self) -> Seq<Node> {
        match self {
            Node::Leaf(_) => Seq::empty(),
            Node::Branch(branch) => branch.nodes@,
        }
    }

    /// True when the subtree is a well-formed tree of the given height:
    /// every leaf lies at depth `height` and holds at most `MAX_LEAF_LEN`
    /// bytes, every branch has between `MIN_CHILDREN` and `MAX_CHILDREN`
    /// children, every leaf but a root holds at least `MIN_LEAF_LEN` bytes,
    /// no CR LF pair is split between neighbours, and every cached summary
    /// is that of the text below it.
    pub open spec fn wf(self, height: nat) -> bool
        decreases height, 0nat,
    {
        match self {
            Node::Leaf(leaf) => height == 0 && leaf.wf(),
            Node::Branch(branch) => {
                &&& height > 0
                &&& MIN_CHILDREN <= branch.nodes@.len() <= MAX_CHILDREN
                &&& Self::siblings_wf(branch.nodes@, (height - 1) as nat)
                &&& branch.info.describes(self.bytes())
            },
        }
    }

    /// True when `nodes` can stand side by side under one branch: each is a
    /// well-formed tree of the given height with enough text, and no CR LF
    /// pair is split between two neighbours.
    pub open spec fn siblings_wf(nodes: Seq<Node>, height: nat) -> bool
        decreases height, 1nat,
    {
        &&& forall|i: int|
            0 <= i < nodes.len() ==> (#[trigger] nodes[i]).wf(height) && nodes[i].full(height)
        &&& forall|i: int|
            0 <= i < nodes.len() - 1 ==> !seam((#[trigger] nodes[i]).bytes(), nodes[i + 1].bytes())
    }

    /// True when the subtree is well formed but for a chain of branches with
    /// a single child at its top.
    pub open spec fn chain_wf(self, height: nat) -> bool
        decreases height,
    {
        ||| self.wf(height)
        ||| {
            &&& height > 0
            &&& self is Branch
            &&& self.children().len() == 1
            &&& self.spec_info().describes(self.bytes())
            &&& self.children()[0].bytes().len() > 0
            &&& self.children()[0].chain_wf((height - 1) as nat)
        }
    }

    /// The element-wise sum of the summaries that the first `n` of `nodes`
    /// cache: bytes, characters, line breaks.
    pub open spec fn sum_info(nodes: Seq<Node>, n: nat) -> (int, int, int)
        decreases n,
    {
        if n == 0 || n > nodes.len() {
            (0, 0, 0)
        } else {
            let rest = Self::sum_info(nodes, (n - 1) as nat);
            let last = nodes[n - 1].spec_info();
            (
                rest.0 + last.byte_count,
                rest.1 + last.char_count,
                rest.2 + last.line_break_count,
            )
        }
    }

    /// True when every leaf of the subtree caches the summary of its text
    /// and every branch the sum of the summaries that its children cache.
    pub open spec fn aggregates(self, height: nat) -> bool
        decreases height,
    {
        match self {
            Node::Leaf(leaf) => leaf.info.describes(leaf.bytes()),
            Node::Branch(branch) => {
                &&& height > 0
                &&& Self::sum_info(branch.nodes@, branch.nodes@.len()) == (
                    branch.info.byte_count as int,
                    branch.info.char_count as int,
                    branch.info.line_break_count as int,
                )
                &&& forall|i: int|
                    0 <= i < branch.nodes@.len() ==> (#[trigger] branch.nodes@[i]).aggregates(
                        (height - 1) as nat,
                    )
            },
        }
    }

    /// The summary of the subtree.
    pub fn info(&self) -> (r: Info)
        ensures
            r == self.spec_info(),
    {
        match self {
            Node::Leaf(leaf) => leaf.info,
            Node::Branch(branch) => branch.info,
        }
    }

    /// Appends handles to `src[from..to]` to `out`.
    pub fn extend_range(out: &mut Vec<Node>, src: &Vec<Node>, from: usize, to: usize)
        requires
            from <= to <= src@.len(),
        ensures
            final(out)@ == old(out)@ + src@.subrange(from as int, to as int),
    {
        let mut i: usize = from;
        while i < to
            invariant
                from <= i <= to <= src@.len(),
                out@ == old(out)@ + src@.subrange(from as int, i as int),
            decreases to - i,
        {
            out.push(src[i].clone());
            i += 1;
        }
    }

    /// Handles to `src[from..to]`.
    pub fn clone_range(src: &Vec<Node>, from: usize, to: usize) -> (r: Vec<Node>)
        requires
            from <= to <= src@.len(),
        ensures
            r@ == src@.subrange(from as int, to as int),
    {
        let mut out: Vec<Node> = Vec::new();
        Self::extend_range(&mut out, src, from, to);
        out
    }

    /// The branch over `nodes`, with the summary found by adding up theirs.
    pub fn from_nodes(nodes: Vec<Node>, Ghost(height): Ghost<nat>) -> (r: Node)
        requires
            1 <= nodes@.len() <= MAX_CHILDREN,
            Self::siblings_wf(nodes@, height),
            Self::join(nodes@).len() <= usize::MAX,
        ensures
            r is Branch,
            r.children() == nodes@,
            r.bytes() == Self::join(nodes@),
            r.bytes().len() > 0,
            r.chain_wf(height + 1),
            nodes@.len() >= MIN_CHILDREN ==> r.wf(height + 1),
    {
        let mut info = Info::new();
        let mut i: usize = 0;
        let n = nodes.len();
        while i < n
            invariant
                i <= n,
                n == nodes@.len(),
                Self::siblings_wf(nodes@, height),
                Self::join(nodes@).len() <= usize::MAX,
                info.describes(Self::prefix_bytes(nodes@, i as nat)),
            decreases n - i,
        {
            let child = nodes[i].info();
            proof {
                let a = Self::prefix_bytes(nodes@, i as nat);
                let b = nodes@[i as int].bytes();
                Self::lemma_siblings_valid(nodes@, height, i as nat);
                nodes@[i as int].lemma_wf_valid(height);
                Self::lemma_join_split(nodes@, i + 1);
                info.lemma_combine(a, child, b);
            }
            info = info.combine(child);
            i += 1;
        }
        proof {
            assert(nodes@[0].chain_wf(height));
        }
        Node::Branch(Branch { info, nodes: Arc::new(nodes) })
    }

    /// True when the node is a branch with exactly one child.
    pub fn is_singular(&self) -> (r: bool)
        ensures
            r == (self is Branch && self.children().len() == 1),
    {
        match self {
            Node::Leaf(_) => false,
            Node::Branch(branch) => branch.nodes.len() == 1,
        }
    }

    /// The children of a branch.
    pub fn child_nodes(&self) -> (r: &Vec<Node>)
        requires
            self is Branch,
        ensures
            r@ == self.children(),
    {
        match self {
            Node::Leaf(_) => vstd::pervasive::unreached(),
            Node::Branch(branch) => &branch.nodes,
        }
    }

    /// Replaces a branch that has a single child by that child, again and
    /// again, and returns how many levels that took away.
    pub fn pull_up_singular_nodes(&mut self, Ghost(height): Ghost<nat>) -> (r: usize)
        requires
            old(self).chain_wf(height),
            height <= usize::MAX,
        ensures
            r <= height,
            final(self).wf((height - r) as nat),
            final(self).bytes() == old(self).bytes(),
    {
        let mut count: usize = 0;
        while self.is_singular()
            invariant
                count <= height <= usize::MAX,
                self.chain_wf((height - count) as nat),
                self.bytes() == old(self).bytes(),
            decreases height - count,
        {
            proof {
                Self::lemma_join_one(self.children()[0]);
                assert(self.children() =~= seq![self.children()[0]]);
            }
            let child = self.child_nodes()[0].clone();
            *self = child;
            count += 1;
        }
        count
    }

    /// True when the node is a leaf.
    pub fn is_leaf(&self) -> (r: bool)
        ensures
            r == (self is Leaf),
    {
        match self {
            Node::Leaf(_) => true,
            Node::Branch(_) => false,
        }
    }

    /// The leaf that the node is.
    pub fn as_leaf(&self) -> (r: &Leaf)
        requires
            self is Leaf,
        ensures
            Node::Leaf(*r) == *self,
    {
        match self {
            Node::Leaf(leaf) => leaf,
            Node::Branch(_) => vstd::pervasive::unreached(),
        }
    }
}

impl Clone for Leaf {
    /// Another handle to the same leaf; the text is shared, not copied.
    fn clone(&self) -> (r: Self)
        ensures
            r == *self,
    {
        Leaf { info: self.info, text: share(&self.text) }
    }
}

impl Clone for Node {
    /// Another handle to the same subtree; what lies below is shared, not
    /// copied.
    fn clone(&self) -> (r: Self)
        ensures
            r == *self,
    {
        match self {
            Node::Leaf(leaf) => Node::Leaf(leaf.clone()),
            Node::Branch(branch) => Node::Branch(
                Branch { info: branch.info, nodes: share(&branch.nodes) },
            ),
        }
    }
}

} // verus!
