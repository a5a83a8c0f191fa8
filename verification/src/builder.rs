//! Builds a rope from text that arrives piece by piece.

use crate::node::{Leaf, Node, MAX_CHILDREN, MAX_LEAF_LEN, MIN_LEAF_LEN};
use crate::rope::Rope;
use crate::str_utils;
use crate::text::{lemma_encode_concat, seam};
use vstd::prelude::*;
use vstd::string::*;
use vstd::utf8::*;

verus! {

/// Collects text into leaves of bounded size and, at the end, stacks
/// branches over them level by level.
pub struct Builder {
    pub(crate) leaves: Vec<Node>,
    pub(crate) pending: String,
}

impl View for Builder {
    type V = Seq<u8>;

    /// The text pushed so far, as bytes.
    open(crate) spec fn view(&self) -> Seq<u8> {
        Node::join(self.leaves@) + encode_utf8(self.pending@)
    }
}

impl Builder {
    /// True when the finished leaves can stand side by side, the text that
    /// waits to become a leaf fits into two leaves, is enough for one where
    /// there are leaves already, and follows them without splitting a
    /// CR LF pair, and the whole is no longer than `usize::MAX`.
    pub open(crate) spec fn wf(&self) -> bool {
        &&& Node::siblings_wf(self.leaves@, 0)
        &&& encode_utf8(self.pending@).len() <= MAX_LEAF_LEN + MIN_LEAF_LEN
        &&& !seam(Node::join(self.leaves@), encode_utf8(self.pending@))
        &&& (self.leaves@.len() > 0 ==> encode_utf8(self.pending@).len() >= MIN_LEAF_LEN)
        &&& self@.len() <= usize::MAX
    }

    /// A builder that holds no text yet.
    pub fn new() -> (r: Self)
        ensures
            r.wf(),
            r@ == Seq::<u8>::empty(),
    {
        let r = Self { leaves: Vec::new(), pending: String::new() };
        r
    }

    /// Adds `string` to the end of the text.
    pub fn push_str(&mut self, string: &str)
        requires
            old(self).wf(),
            old(self)@.len() + string.spec_bytes().len() <= usize::MAX,
        ensures
            final(self).wf(),
            final(self)@ == old(self)@ + string.spec_bytes(),
    {
        let ghost goal = old(self)@ + string.spec_bytes();
        let mut buffer = self.pending.as_str().to_owned();
        buffer.append(string);
        let mut rest: &str = buffer.as_str();
        proof {
            lemma_encode_concat(old(self).pending@, string@);
        }
        while str_utils::byte_len(rest) > MAX_LEAF_LEN + MIN_LEAF_LEN
            invariant
                Node::siblings_wf(self.leaves@, 0),
                Node::join(self.leaves@) + rest.spec_bytes() == goal,
                !seam(Node::join(self.leaves@), rest.spec_bytes()),
                self.leaves@.len() > 0 ==> rest.spec_bytes().len() >= MIN_LEAF_LEN,
                goal.len() <= usize::MAX,
            decreases rest.spec_bytes().len(),
        {
            let cut = str_utils::safe_cut(rest, MAX_LEAF_LEN);
            let (head, tail) = rest.split_at(cut);
            let leaf = Node::Leaf(Leaf::from_str(head));
            proof {
                let before = self.leaves@;
                Node::lemma_siblings_one(leaf, 0);
                Node::lemma_siblings_concat(before, seq![leaf], 0);
                assert(before.push(leaf) =~= before + seq![leaf]);
            }
            self.leaves.push(leaf);
            rest = tail;
        }
        self.pending = rest.to_owned();
    }

    /// A run of siblings is a list of siblings, and its text is a part of
    /// the joined text that begins where the text of those before it ends.
    proof fn lemma_group_take(nodes: Seq<Node>, i: int, take: int, height: nat)
        requires
            Node::siblings_wf(nodes, height),
            0 <= i,
            0 < take,
            i + take <= nodes.len(),
        ensures
            Node::siblings_wf(nodes.subrange(i, i + take), height),
            Node::prefix_bytes(nodes, (i + take) as nat) == Node::prefix_bytes(nodes, i as nat)
                + Node::join(nodes.subrange(i, i + take)),
            Node::join(nodes.subrange(i, i + take)).len() <= Node::join(nodes).len(),
            Node::join(nodes.subrange(i, i + take)).len() > 0,
            Node::join(nodes.subrange(i, i + take)).first() == nodes[i].bytes().first(),
    {
        let taken = nodes.subrange(i, i + take);
        Node::lemma_join_split(nodes, i);
        Node::lemma_join_split(nodes, i + take);
        Node::lemma_join_concat(nodes.subrange(0, i), taken);
        assert(nodes.subrange(0, i) + taken =~= nodes.subrange(0, i + take));
        Node::lemma_siblings_valid(taken, height, taken.len());
    }

    /// A branch over the next run of siblings extends the list of branches
    /// over those before it.
    proof fn lemma_group_step(
        nodes: Seq<Node>,
        out: Seq<Node>,
        branch: Node,
        i: int,
        take: int,
        height: nat,
    )
        requires
            Node::siblings_wf(nodes, height),
            Node::siblings_wf(out, height + 1),
            Node::join(out) == Node::prefix_bytes(nodes, i as nat),
            0 <= i,
            0 < take,
            i + take <= nodes.len(),
            branch.wf(height + 1),
            branch.bytes() == Node::join(nodes.subrange(i, i + take)),
        ensures
            Node::siblings_wf(out.push(branch), height + 1),
            Node::join(out.push(branch)) == Node::prefix_bytes(nodes, (i + take) as nat),
    {
        Self::lemma_group_take(nodes, i, take, height);
        Node::lemma_siblings_valid(nodes, height, i as nat);
        Node::lemma_siblings_one(branch, height + 1);
        if out.len() > 0 {
            assert(i > 0) by {
                if i == 0 {
                    assert(Node::prefix_bytes(nodes, 0) =~= Seq::<u8>::empty());
                }
            }
            assert(!seam(nodes[i - 1].bytes(), nodes[i].bytes()));
        }
        Node::lemma_siblings_concat(out, seq![branch], height + 1);
        assert(out.push(branch) =~= out + seq![branch]);
    }

    /// One level of the tree: branches over `nodes`, each over at least
    /// two and at most `MAX_CHILDREN` of them, in order.
    fn group(nodes: &Vec<Node>, Ghost(height): Ghost<nat>) -> (r: Vec<Node>)
        requires
            nodes@.len() >= 2,
            Node::siblings_wf(nodes@, height),
            Node::join(nodes@).len() <= usize::MAX,
        ensures
            Node::siblings_wf(r@, height + 1),
            Node::join(r@) == Node::join(nodes@),
            1 <= r@.len() < nodes@.len(),
    {
        let n = nodes.len();
        let mut out: Vec<Node> = Vec::new();
        let mut i: usize = 0;
        while i < n
            invariant
                i <= n,
                n == nodes@.len(),
                n - i == 0 || n - i >= 2,
                Node::siblings_wf(nodes@, height),
                Node::join(nodes@).len() <= usize::MAX,
                Node::siblings_wf(out@, height + 1),
                Node::join(out@) == Node::prefix_bytes(nodes@, i as nat),
                2 * out@.len() <= i,
                i > 0 ==> out@.len() >= 1,
            decreases n - i,
        {
            let remaining = n - i;
            let take = if remaining <= MAX_CHILDREN {
                remaining
            } else if remaining == MAX_CHILDREN + 1 {
                MAX_CHILDREN - 1
            } else {
                MAX_CHILDREN
            };
            let children = Node::clone_range(nodes, i, i + take);
            proof {
                Self::lemma_group_take(nodes@, i as int, take as int, height);
            }
            let branch = Node::from_nodes(children, Ghost(height));
            proof {
                Self::lemma_group_step(nodes@, out@, branch, i as int, take as int, height);
            }
            out.push(branch);
            i += take;
        }
        out
    }

    /// The rope that holds the text pushed so far.
    pub fn build(self) -> (r: Rope)
        requires
            self.wf(),
        ensures
            r.wf(),
            r@ == self@,
    {
        let ghost goal = self@;
        let Builder { leaves, pending } = self;
        let mut nodes = leaves;
        let len = str_utils::byte_len(pending.as_str());
        if 0 < len && len <= MAX_LEAF_LEN {
            let leaf = Node::Leaf(Leaf::from_str(pending.as_str()));
            if nodes.len() == 0 {
                return Rope::from_raw_parts(0, leaf);
            }
            proof {
                Node::lemma_siblings_one(leaf, 0);
                Node::lemma_siblings_concat(nodes@, seq![leaf], 0);
                assert(nodes@.push(leaf) =~= nodes@ + seq![leaf]);
            }
            nodes.push(leaf);
        } else if len > MAX_LEAF_LEN {
            let cut = str_utils::safe_cut(pending.as_str(), len / 2 + 2);
            let (head, tail) = pending.as_str().split_at(cut);
            let first = Node::Leaf(Leaf::from_str(head));
            let second = Node::Leaf(Leaf::from_str(tail));
            proof {
                Node::lemma_siblings_two(first, second, 0);
                Node::lemma_siblings_concat(nodes@, seq![first, second], 0);
                assert(nodes@.push(first).push(second) =~= nodes@ + seq![first, second]);
            }
            nodes.push(first);
            nodes.push(second);
        }
        if nodes.len() == 0 {
            return Rope::new();
        }
        let mut height: usize = 0;
        while nodes.len() > 1
            invariant
                nodes@.len() >= 1,
                Node::siblings_wf(nodes@, height as nat),
                Node::join(nodes@) == goal,
                goal.len() <= usize::MAX,
            decreases nodes@.len(),
        {
            proof {
                if height > 0 {
                    nodes@[0].lemma_height_bound(height as nat);
                }
            }
            nodes = Self::group(&nodes, Ghost(height as nat));
            height += 1;
        }
        proof {
            assert(nodes@ =~= seq![nodes@[0]]);
            Node::lemma_join_one(nodes@[0]);
        }
        Rope::from_raw_parts(height, nodes[0].clone())
    }
}

} // verus!
