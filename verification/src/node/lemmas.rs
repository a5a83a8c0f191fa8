//! What follows from the well-formedness of a tree: how the text, the
//! summaries and the character boundaries of a branch are made up of those
//! of its children.

use crate::node::{Node, MIN_LEAF_LEN};
use crate::text::{
    char_count, lemma_boundary_in_concat, lemma_decode_concat, lemma_line_breaks_concat,
    lemma_window_boundary, line_breaks, lines_before, seam, window,
};
use vstd::arithmetic::power2::{lemma2_to64, lemma_pow2_unfold, pow2};
use vstd::prelude::*;
use vstd::utf8::*;

verus! {

impl Node {
    /// The joined text of the first `n` nodes depends on those nodes only.
    pub proof fn lemma_prefix_bytes_ext(a: Seq<Node>, b: Seq<Node>, n: nat)
        requires
            n <= a.len(),
            n <= b.len(),
            forall|i: int| 0 <= i < n ==> a[i] == b[i],
        ensures
            Self::prefix_bytes(a, n) == Self::prefix_bytes(b, n),
        decreases n,
    {
        if n > 0 {
            Self::lemma_prefix_bytes_ext(a, b, (n - 1) as nat);
        }
    }

    /// The text of a list of nodes is that of its first part followed by
    /// that of the rest.
    pub proof fn lemma_join_concat(a: Seq<Node>, b: Seq<Node>)
        ensures
            Self::join(a + b) == Self::join(a) + Self::join(b),
        decreases b.len(),
    {
        let ab = a + b;
        if b.len() > 0 {
            let b1 = b.drop_last();
            Self::lemma_join_concat(a, b1);
            Self::lemma_prefix_bytes_ext(ab, a + b1, (ab.len() - 1) as nat);
            Self::lemma_prefix_bytes_ext(b, b1, b1.len());
        }
    }

    /// The text of a list of nodes, cut at `k`.
    pub proof fn lemma_join_split(nodes: Seq<Node>, k: int)
        requires
            0 <= k <= nodes.len(),
        ensures
            Self::join(nodes) == Self::join(nodes.subrange(0, k)) + Self::join(
                nodes.subrange(k, nodes.len() as int),
            ),
            Self::prefix_bytes(nodes, k as nat) == Self::join(nodes.subrange(0, k)),
    {
        let a = nodes.subrange(0, k);
        let b = nodes.subrange(k, nodes.len() as int);
        assert(a + b =~= nodes);
        Self::lemma_join_concat(a, b);
        Self::lemma_prefix_bytes_ext(nodes, a, k as nat);
    }

    /// The text of a list of one node is the text of that node.
    pub proof fn lemma_join_one(node: Node)
        ensures
            Self::join(seq![node]) == node.bytes(),
    {
        let s = seq![node];
        assert(Self::prefix_bytes(s, 0) == Seq::<u8>::empty());
    }

    /// A part of a list of siblings is a list of siblings.
    pub proof fn lemma_siblings_subrange(nodes: Seq<Node>, height: nat, from: int, to: int)
        requires
            Self::siblings_wf(nodes, height),
            0 <= from <= to <= nodes.len(),
        ensures
            Self::siblings_wf(nodes.subrange(from, to), height),
    {
        let sub = nodes.subrange(from, to);
        assert forall|i: int| 0 <= i < sub.len() implies (#[trigger] sub[i]).wf(height)
            && sub[i].full(height) by {
            assert(sub[i] == nodes[from + i]);
        }
        assert forall|i: int| 0 <= i < sub.len() - 1 implies !seam(
            (#[trigger] sub[i]).bytes(),
            sub[i + 1].bytes(),
        ) by {
            assert(sub[i] == nodes[from + i]);
            assert(sub[i + 1] == nodes[from + i + 1]);
        }
    }

    /// The text of a well-formed tree is valid UTF-8.
    pub proof fn lemma_wf_valid(self, height: nat)
        requires
            self.wf(height),
        ensures
            valid_utf8(self.bytes()),
        decreases height, 0nat, 0nat,
    {
        match self {
            Node::Leaf(leaf) => {
                encode_utf8_valid_utf8(leaf.text@);
            },
            Node::Branch(branch) => {
                Self::lemma_siblings_valid(branch.nodes@, (height - 1) as nat, branch.nodes@.len());
            },
        }
    }

    /// The joined text of siblings is valid UTF-8, it is not empty, and it
    /// begins and ends as the first and the last of them do.
    pub proof fn lemma_siblings_valid(nodes: Seq<Node>, height: nat, n: nat)
        requires
            Self::siblings_wf(nodes, height),
            n <= nodes.len(),
        ensures
            valid_utf8(Self::prefix_bytes(nodes, n)),
            n > 0 ==> Self::prefix_bytes(nodes, n).len() >= n,
            n > 0 ==> Self::prefix_bytes(nodes, n).first() == nodes[0].bytes().first(),
            n > 0 ==> Self::prefix_bytes(nodes, n).last() == nodes[n - 1].bytes().last(),
        decreases height, 1nat, n,
    {
        if n > 0 {
            Self::lemma_siblings_valid(nodes, height, (n - 1) as nat);
            nodes[n - 1].lemma_wf_valid(height);
            valid_utf8_concat(Self::prefix_bytes(nodes, (n - 1) as nat), nodes[n - 1].bytes());
        }
    }

    /// A tree of height `h > 0` holds more than `h` bytes.
    pub proof fn lemma_height_bound(self, height: nat)
        requires
            self.wf(height),
            height > 0,
        ensures
            self.bytes().len() > height,
        decreases height,
    {
        let nodes = self.children();
        let h = (height - 1) as nat;
        assert(self.bytes().len() >= nodes[0].bytes().len() + 1) by {
            Self::lemma_join_split(nodes, 1);
        }
        if h > 0 {
            nodes[0].lemma_height_bound(h);
        }
    }

    /// Two lists of siblings that meet without splitting a CR LF pair form
    /// one list of siblings.
    pub proof fn lemma_siblings_concat(a: Seq<Node>, b: Seq<Node>, height: nat)
        requires
            Self::siblings_wf(a, height),
            Self::siblings_wf(b, height),
            a.len() > 0 && b.len() > 0 ==> !seam(a.last().bytes(), b.first().bytes()),
        ensures
            Self::siblings_wf(a + b, height),
            Self::join(a + b) == Self::join(a) + Self::join(b),
    {
        let ab = a + b;
        Self::lemma_join_concat(a, b);
        assert forall|i: int| 0 <= i < ab.len() implies (#[trigger] ab[i]).wf(height)
            && ab[i].full(height) by {
            if i < a.len() {
                assert(ab[i] == a[i]);
            }
        }
        assert forall|i: int| 0 <= i < ab.len() - 1 implies !seam(
            (#[trigger] ab[i]).bytes(),
            ab[i + 1].bytes(),
        ) by {
            if i + 1 < a.len() {
                assert(ab[i + 1] == a[i + 1]);
            } else if i < a.len() {
                assert(ab[i + 1] == b.first());
            } else {
                assert(ab[i + 1] == b[i - a.len() + 1]);
            }
        }
    }

    /// A single well-formed tree with enough text is a list of siblings.
    pub proof fn lemma_siblings_one(node: Node, height: nat)
        requires
            node.wf(height),
            node.full(height),
        ensures
            Self::siblings_wf(seq![node], height),
            Self::join(seq![node]) == node.bytes(),
    {
        Self::lemma_join_one(node);
    }

    /// Two well-formed trees with enough text that meet without splitting
    /// a CR LF pair are a list of siblings.
    pub proof fn lemma_siblings_two(a: Node, b: Node, height: nat)
        requires
            a.wf(height),
            b.wf(height),
            a.full(height),
            b.full(height),
            !seam(a.bytes(), b.bytes()),
        ensures
            Self::siblings_wf(seq![a, b], height),
            Self::join(seq![a, b]) == a.bytes() + b.bytes(),
    {
        Self::lemma_siblings_one(a, height);
        Self::lemma_siblings_one(b, height);
        Self::lemma_siblings_concat(seq![a], seq![b], height);
        assert(seq![a] + seq![b] =~= seq![a, b]);
    }

    /// In a list of siblings, the last one may give way to a list of
    /// siblings whose text begins with its own.
    pub proof fn lemma_replace_last(before: Seq<Node>, tail: Seq<Node>, extra: Seq<u8>, height: nat)
        requires
            Self::siblings_wf(before, height),
            Self::siblings_wf(tail, height),
            before.len() >= 1,
            tail.len() >= 1,
            Self::join(tail) == before.last().bytes() + extra,
        ensures
            Self::siblings_wf(before.drop_last() + tail, height),
            Self::join(before.drop_last() + tail) == Self::join(before) + extra,
    {
        let n = before.len() as int;
        let kept = before.drop_last();
        Self::lemma_siblings_subrange(before, height, 0, n - 1);
        Self::lemma_join_split(before, n - 1);
        Self::lemma_siblings_valid(tail, height, tail.len());
        Self::lemma_siblings_concat(kept, tail, height);
    }

    /// In a list of siblings, the first one may give way to a list of
    /// siblings whose text ends with its own.
    pub proof fn lemma_replace_first(
        before: Seq<Node>,
        head: Seq<Node>,
        extra: Seq<u8>,
        height: nat,
    )
        requires
            Self::siblings_wf(before, height),
            Self::siblings_wf(head, height),
            before.len() >= 1,
            head.len() >= 1,
            Self::join(head) == extra + before.first().bytes(),
        ensures
            Self::siblings_wf(head + before.drop_first(), height),
            Self::join(head + before.drop_first()) == extra + Self::join(before),
    {
        let kept = before.drop_first();
        Self::lemma_join_split(before, 1);
        assert(before.subrange(0, 1) =~= seq![before[0]]);
        Self::lemma_join_one(before[0]);
        Self::lemma_siblings_valid(head, height, head.len());
        Self::lemma_siblings_concat(head, kept, height);
    }

    /// The text of a branch begins and ends as its first and last child do,
    /// and each child's text is a part of it.
    pub proof fn lemma_branch_ends(self, height: nat)
        requires
            self.wf(height),
            height > 0,
        ensures
            self.bytes().len() > 0,
            valid_utf8(self.bytes()),
            self.bytes().first() == self.children().first().bytes().first(),
            self.bytes().last() == self.children().last().bytes().last(),
            self.children().first().bytes().len() <= self.bytes().len(),
            self.children().last().bytes().len() <= self.bytes().len(),
    {
        let nodes = self.children();
        let n = nodes.len();
        let h = (height - 1) as nat;
        Self::lemma_siblings_valid(nodes, h, n);
        Self::lemma_join_split(nodes, 1);
    }

    /// How the text of the child with index `k` lies in the joined text of
    /// a list of siblings: behind the text of the children before it, in
    /// front of the text of those behind it, and without a CR LF pair split
    /// at either end.
    pub proof fn lemma_child_window(nodes: Seq<Node>, height: nat, k: int)
        requires
            Self::siblings_wf(nodes, height),
            0 <= k < nodes.len(),
        ensures
            ({
                let a = Self::prefix_bytes(nodes, k as nat);
                let c = nodes[k].bytes();
                let z = Self::join(nodes.subrange(k + 1, nodes.len() as int));
                let w = Self::join(nodes);
                &&& w == a + c + z
                &&& Self::prefix_bytes(nodes, (k + 1) as nat) == a + c
                &&& a == Self::join(nodes.subrange(0, k))
                &&& valid_utf8(a)
                &&& valid_utf8(c)
                &&& valid_utf8(z)
                &&& valid_utf8(a + c)
                &&& valid_utf8(w)
                &&& !seam(a, c)
                &&& !seam(c, z)
                &&& !seam(a + c, z)
                &&& c.len() > 0
                &&& (k > 0 ==> a.len() > 0)
                &&& (k + 1 < nodes.len() ==> z.len() > 0)
                &&& Self::siblings_wf(nodes.subrange(0, k), height)
                &&& Self::siblings_wf(nodes.subrange(k + 1, nodes.len() as int), height)
            }),
    {
        let n = nodes.len() as int;
        let rest = nodes.subrange(k + 1, n);
        Self::lemma_join_split(nodes, k + 1);
        Self::lemma_join_split(nodes, k);
        Self::lemma_siblings_valid(nodes, height, k as nat);
        Self::lemma_siblings_valid(nodes, height, (k + 1) as nat);
        Self::lemma_siblings_valid(nodes, height, n as nat);
        nodes[k].lemma_wf_valid(height);
        Self::lemma_siblings_valid(rest, height, rest.len());
    }

    /// A position inside a child's text is a character boundary of the
    /// child exactly when it is one of the joined text of the siblings.
    pub proof fn lemma_child_boundary(nodes: Seq<Node>, height: nat, k: int, j: int)
        requires
            Self::siblings_wf(nodes, height),
            0 <= k < nodes.len(),
            0 <= j <= nodes[k].bytes().len(),
        ensures
            is_char_boundary(Self::join(nodes), Self::prefix_bytes(nodes, k as nat).len() + j)
                <==> is_char_boundary(nodes[k].bytes(), j),
    {
        let a = Self::prefix_bytes(nodes, k as nat);
        let c = nodes[k].bytes();
        let z = Self::join(nodes.subrange(k + 1, nodes.len() as int));
        Self::lemma_child_window(nodes, height, k);
        lemma_boundary_in_concat(a + c, z, a.len() + j);
        lemma_boundary_in_concat(a, c, a.len() + j);
    }

    /// The text before a position inside a child is the text of the
    /// children before it followed by the child's text before the position.
    pub proof fn lemma_child_prefix(nodes: Seq<Node>, height: nat, k: int, j: int)
        requires
            Self::siblings_wf(nodes, height),
            0 <= k < nodes.len(),
            0 <= j <= nodes[k].bytes().len(),
        ensures
            ({
                let a = Self::prefix_bytes(nodes, k as nat);
                let c = nodes[k].bytes();
                let w = Self::join(nodes);
                &&& a.len() + c.len() <= w.len()
                &&& w.subrange(0, a.len() + j) == a + c.subrange(0, j)
                &&& w.subrange(a.len() + j, w.len() as int) == c.subrange(j, c.len() as int)
                    + Self::join(nodes.subrange(k + 1, nodes.len() as int))
                &&& !seam(a, c.subrange(0, j))
                &&& !seam(
                    c.subrange(j, c.len() as int),
                    Self::join(nodes.subrange(k + 1, nodes.len() as int)),
                )
            }),
    {
        let a = Self::prefix_bytes(nodes, k as nat);
        let c = nodes[k].bytes();
        let z = Self::join(nodes.subrange(k + 1, nodes.len() as int));
        let w = Self::join(nodes);
        Self::lemma_child_window(nodes, height, k);
        assert(w.subrange(0, a.len() + j) =~= a + c.subrange(0, j));
        assert(w.subrange(a.len() + j, w.len() as int) =~= c.subrange(j, c.len() as int) + z);
    }

    /// The line terminators that end before a position inside a child are
    /// those of the children before it and those that end before the
    /// position in the child.
    pub proof fn lemma_child_lines(nodes: Seq<Node>, height: nat, k: int, j: int)
        requires
            Self::siblings_wf(nodes, height),
            0 <= k < nodes.len(),
            0 <= j <= nodes[k].bytes().len(),
        ensures
            lines_before(Self::join(nodes), Self::prefix_bytes(nodes, k as nat).len() + j)
                == line_breaks(Self::prefix_bytes(nodes, k as nat)) + lines_before(
                nodes[k].bytes(),
                j,
            ),
    {
        let a = Self::prefix_bytes(nodes, k as nat);
        let c = nodes[k].bytes();
        Self::lemma_child_window(nodes, height, k);
        Self::lemma_child_prefix(nodes, height, k, j);
        lemma_line_breaks_concat(a, c.subrange(0, j));
    }

    /// The characters and line breaks of the joined text of siblings are
    /// those before a child, those of the child and those behind it.
    pub proof fn lemma_child_counts(nodes: Seq<Node>, height: nat, k: int)
        requires
            Self::siblings_wf(nodes, height),
            0 <= k < nodes.len(),
        ensures
            ({
                let a = Self::prefix_bytes(nodes, k as nat);
                let c = nodes[k].bytes();
                let z = Self::join(nodes.subrange(k + 1, nodes.len() as int));
                let w = Self::join(nodes);
                &&& char_count(w) == char_count(a) + char_count(c) + char_count(z)
                &&& line_breaks(w) == line_breaks(a) + line_breaks(c) + line_breaks(z)
                &&& char_count(a + c) == char_count(a) + char_count(c)
                &&& line_breaks(a + c) == line_breaks(a) + line_breaks(c)
            }),
    {
        let a = Self::prefix_bytes(nodes, k as nat);
        let c = nodes[k].bytes();
        let z = Self::join(nodes.subrange(k + 1, nodes.len() as int));
        Self::lemma_child_window(nodes, height, k);
        lemma_decode_concat(a, c);
        lemma_decode_concat(a + c, z);
        lemma_line_breaks_concat(a, c);
        lemma_line_breaks_concat(a + c, z);
    }

    /// Where the joined text of siblings stands in a text, the text of each
    /// of them stands there too, behind that of the siblings before it.
    pub proof fn lemma_window_child(w: Seq<u8>, o: int, nodes: Seq<Node>, height: nat, k: int)
        requires
            valid_utf8(w),
            Self::siblings_wf(nodes, height),
            window(w, o, Self::join(nodes)),
            0 <= k < nodes.len(),
        ensures
            window(w, o + Self::prefix_bytes(nodes, k as nat).len(), nodes[k].bytes()),
            Self::prefix_bytes(nodes, (k + 1) as nat) == Self::prefix_bytes(nodes, k as nat)
                + nodes[k].bytes(),
            nodes[k].wf(height),
            nodes[k].full(height),
            nodes[k].bytes().len() > 0,
            k + 1 == nodes.len() ==> Self::prefix_bytes(nodes, (k + 1) as nat) == Self::join(nodes),
    {
        reveal(window);
        let p = Self::join(nodes);
        let a = Self::prefix_bytes(nodes, k as nat);
        let c = nodes[k].bytes();
        Self::lemma_child_window(nodes, height, k);
        Self::lemma_child_boundary(nodes, height, k, 0);
        Self::lemma_child_boundary(nodes, height, k, c.len() as int);
        is_char_boundary_start_end_of_seq(c);
        lemma_window_boundary(w, o, p, a.len() as int);
        lemma_window_boundary(w, o, p, (a.len() + c.len()) as int);
        assert(w.subrange(o + a.len(), o + a.len() + c.len()) =~= c) by {
            assert forall|i: int| 0 <= i < c.len() implies w[o + a.len() + i] == c[i] by {
                assert(w.subrange(o, o + p.len())[a.len() + i] == w[o + a.len() + i]);
            }
        }
    }

    /// The summaries that siblings cache add up to the summary of their
    /// joined text.
    pub proof fn lemma_sum_info(nodes: Seq<Node>, height: nat, n: nat)
        requires
            Self::siblings_wf(nodes, height),
            n <= nodes.len(),
        ensures
            Self::sum_info(nodes, n) == (
                Self::prefix_bytes(nodes, n).len() as int,
                char_count(Self::prefix_bytes(nodes, n)) as int,
                line_breaks(Self::prefix_bytes(nodes, n)) as int,
            ),
        decreases n,
    {
        if n > 0 {
            Self::lemma_sum_info(nodes, height, (n - 1) as nat);
            Self::lemma_child_counts(nodes, height, n - 1);
        }
    }

    /// In a well-formed tree every cached summary is the sum of those one
    /// level below.
    pub proof fn lemma_aggregates(self, height: nat)
        requires
            self.wf(height),
        ensures
            self.aggregates(height),
        decreases height,
    {
        match self {
            Node::Leaf(_) => {},
            Node::Branch(branch) => {
                let nodes = branch.nodes@;
                let h = (height - 1) as nat;
                Self::lemma_sum_info(nodes, h, nodes.len());
                assert forall|i: int| 0 <= i < nodes.len() implies (#[trigger] nodes[i]).aggregates(
                    h,
                ) by {
                    nodes[i].lemma_aggregates(h);
                }
            },
        }
    }

    /// A tree of height `h > 0` holds at least `2^h` leaves' worth of text:
    /// its height is logarithmic in its length.
    pub proof fn lemma_balanced(self, height: nat)
        requires
            self.wf(height),
            height > 0,
        ensures
            self.bytes().len() >= MIN_LEAF_LEN * pow2(height),
        decreases height,
    {
        let nodes = self.children();
        let h = (height - 1) as nat;
        let unit = MIN_LEAF_LEN * pow2(h);
        lemma_pow2_unfold(height);
        assert(MIN_LEAF_LEN * pow2(height) == 2 * unit) by (nonlinear_arith)
            requires
                pow2(height) == 2 * pow2(h),
                unit == MIN_LEAF_LEN * pow2(h),
        ;
        assert forall|i: int| 0 <= i < 2 implies (#[trigger] nodes[i]).bytes().len() >= unit by {
            if h > 0 {
                nodes[i].lemma_balanced(h);
            } else {
                lemma2_to64();
            }
        }
        Self::lemma_child_window(nodes, h, 1);
    }

    /// What a cut inside or at the end of the child with index `k` leaves
    /// on either side: the children before it with the child's text up to
    /// the cut, and the rest of the child's text with the children behind
    /// it.
    pub proof fn lemma_cut_at_child(nodes: Seq<Node>, height: nat, k: int, j: int)
        requires
            Self::siblings_wf(nodes, height),
            0 <= k < nodes.len(),
            0 < j <= nodes[k].bytes().len(),
            is_char_boundary(
                Self::join(nodes),
                Self::prefix_bytes(nodes, k as nat).len() + j,
            ),
        ensures
            ({
                let n = nodes.len() as int;
                let a = Self::prefix_bytes(nodes, k as nat);
                let c = nodes[k].bytes();
                let z = Self::join(nodes.subrange(k + 1, n));
                let w = Self::join(nodes);
                &&& nodes[k].wf(height)
                &&& nodes[k].spec_info().describes(c)
                &&& is_char_boundary(c, j)
                &&& Self::siblings_wf(nodes.subrange(0, k), height)
                &&& Self::siblings_wf(nodes.subrange(0, k + 1), height)
                &&& Self::siblings_wf(nodes.subrange(k + 1, n), height)
                &&& Self::join(nodes.subrange(0, k)) == a
                &&& Self::join(nodes.subrange(0, k + 1)) == a + c
                &&& a.len() + c.len() + z.len() == w.len()
                &&& w.subrange(0, a.len() + j) == a + c.subrange(0, j)
                &&& w.subrange(a.len() + j, w.len() as int) == c.subrange(j, c.len() as int) + z
                &&& !seam(a, c.subrange(0, j))
                &&& !seam(c.subrange(j, c.len() as int), z)
                &&& (k == 0 ==> a.len() == 0)
                &&& (k > 0 ==> a.len() > 0)
                &&& (k + 1 == n ==> z.len() == 0)
                &&& (k + 1 < n ==> z.len() > 0)
            }),
    {
        let n = nodes.len() as int;
        let c = nodes[k].bytes();
        Self::lemma_child_window(nodes, height, k);
        Self::lemma_child_prefix(nodes, height, k, j);
        Self::lemma_child_boundary(nodes, height, k, j);
        Self::lemma_join_split(nodes, k + 1);
        Self::lemma_siblings_subrange(nodes, height, 0, k + 1);
        assert(nodes[k].wf(height));
        if k == 0 {
            assert(Self::prefix_bytes(nodes, 0) =~= Seq::<u8>::empty());
        }
        if k + 1 == n {
            assert(nodes.subrange(k + 1, n) =~= Seq::<Node>::empty());
        }
    }
}

} // verus!
