//! Joining trees: two nodes of one height into one or two, and a lower
//! tree onto the edge of a higher one.

use crate::node::{Node, MAX_CHILDREN, MAX_LEAF_LEN, MIN_CHILDREN, MIN_LEAF_LEN};
use crate::text::seam;
use vstd::prelude::*;

verus! {

impl Node {
    /// True when the two trees of one height can become one node: two
    /// leaves whose text fits into one leaf, or two branches whose children
    /// fit under one branch.
    pub open spec fn fits(self, other: Node) -> bool {
        match (self, other) {
            (Node::Leaf(a), Node::Leaf(b)) => a.bytes().len() + b.bytes().len() <= MAX_LEAF_LEN,
            (Node::Branch(a), Node::Branch(b)) => a.nodes@.len() + b.nodes@.len() <= MAX_CHILDREN,
            _ => false,
        }
    }

    /// Joins two trees of one height: into one node where they fit into
    /// one, into two otherwise. Two leaves that do not fit into one and of
    /// which one is short share their text evenly; in every other case of
    /// two nodes, the two are `self` and `other`.
    pub fn join_pair(&self, other: &Node, Ghost(height): Ghost<nat>) -> (r: (Node, Option<Node>))
        requires
            self.wf(height),
            other.wf(height),
            self.bytes().len() > 0,
            other.bytes().len() > 0,
            !seam(self.bytes(), other.bytes()),
            self.bytes().len() + other.bytes().len() <= usize::MAX,
        ensures
            r.1 is None <==> self.fits(*other),
            r.0.wf(height),
            r.0.bytes().len() > 0,
            match r.1 {
                None => {
                    &&& r.0.bytes() == self.bytes() + other.bytes()
                    &&& (self.full(height) || other.full(height) ==> r.0.full(height))
                },
                Some(node) => {
                    &&& node.wf(height)
                    &&& r.0.full(height)
                    &&& node.full(height)
                    &&& !seam(r.0.bytes(), node.bytes())
                    &&& r.0.bytes() + node.bytes() == self.bytes() + other.bytes()
                    &&& (self.full(height) && other.full(height) ==> r.0 == *self && node
                        == *other)
                },
            },
    {
        match self {
            Node::Leaf(a) => match other {
                Node::Leaf(b) => {
                    if a.info.byte_count <= MAX_LEAF_LEN - b.info.byte_count {
                        (Node::Leaf(a.concat(b)), None)
                    } else if a.info.byte_count >= MIN_LEAF_LEN && b.info.byte_count
                        >= MIN_LEAF_LEN {
                        (self.clone(), Some(other.clone()))
                    } else {
                        let (first, second) = a.distribute(b);
                        (Node::Leaf(first), Some(Node::Leaf(second)))
                    }
                },
                Node::Branch(_) => (self.clone(), Some(other.clone())),
            },
            Node::Branch(a) => match other {
                Node::Leaf(_) => (self.clone(), Some(other.clone())),
                Node::Branch(b) => {
                    proof {
                        other.lemma_branch_ends(height);
                    }
                    if a.nodes.len() + b.nodes.len() <= MAX_CHILDREN {
                        let mut nodes = Self::clone_range(&a.nodes, 0, a.nodes.len());
                        Self::extend_range(&mut nodes, &b.nodes, 0, b.nodes.len());
                        proof {
                            let h = (height - 1) as nat;
                            assert(a.nodes@.subrange(0, a.nodes@.len() as int) =~= a.nodes@);
                            assert(b.nodes@.subrange(0, b.nodes@.len() as int) =~= b.nodes@);
                            Self::lemma_siblings_concat(a.nodes@, b.nodes@, h);
                        }
                        (Self::from_nodes(nodes, Ghost((height - 1) as nat)), None)
                    } else {
                        (self.clone(), Some(other.clone()))
                    }
                },
            },
        }
    }

    /// Puts `nodes` under one branch if they fit, and under two if not.
    pub fn pack(nodes: Vec<Node>, Ghost(height): Ghost<nat>) -> (r: (Node, Option<Node>))
        requires
            MIN_CHILDREN <= nodes@.len() <= MAX_CHILDREN + 1,
            Self::siblings_wf(nodes@, height),
            Self::join(nodes@).len() <= usize::MAX,
        ensures
            r.0.wf(height + 1),
            r.0.bytes().len() > 0,
            match r.1 {
                None => r.0.bytes() == Self::join(nodes@),
                Some(node) => {
                    &&& node.wf(height + 1)
                    &&& node.bytes().len() > 0
                    &&& node.full(height + 1)
                    &&& r.0.full(height + 1)
                    &&& !seam(r.0.bytes(), node.bytes())
                    &&& r.0.bytes() + node.bytes() == Self::join(nodes@)
                },
            },
    {
        let n = nodes.len();
        if n <= MAX_CHILDREN {
            (Self::from_nodes(nodes, Ghost(height)), None)
        } else {
            let mid = n / 2;
            let left = Self::clone_range(&nodes, 0, mid);
            let right = Self::clone_range(&nodes, mid, n);
            proof {
                Self::lemma_join_split(nodes@, mid as int);
                Self::lemma_siblings_valid(right@, height, right@.len());
            }
            (Self::from_nodes(left, Ghost(height)), Some(Self::from_nodes(right, Ghost(height))))
        }
    }

    /// Appends the tree `other`, which is `depth` levels lower than `self`,
    /// at the right edge of `self`. Where the result does not fit into one
    /// node, the overflow comes back as a node that belongs behind `self`.
    pub fn append_at_depth(
        &mut self,
        other: Node,
        depth: usize,
        Ghost(height): Ghost<nat>,
    ) -> (r: Option<Node>)
        requires
            depth <= height,
            old(self).wf(height),
            other.wf((height - depth) as nat),
            old(self).bytes().len() > 0,
            other.bytes().len() > 0,
            !seam(old(self).bytes(), other.bytes()),
            old(self).bytes().len() + other.bytes().len() <= usize::MAX,
        ensures
            final(self).wf(height),
            final(self).bytes().len() > 0,
            old(self).full(height) ==> final(self).full(height),
            match r {
                None => final(self).bytes() == old(self).bytes() + other.bytes(),
                Some(node) => {
                    &&& node.wf(height)
                    &&& node.full(height)
                    &&& final(self).full(height)
                    &&& !seam(final(self).bytes(), node.bytes())
                    &&& final(self).bytes() + node.bytes() == old(self).bytes() + other.bytes()
                },
            },
        decreases depth,
    {
        if depth == 0 {
            let (first, second) = self.join_pair(&other, Ghost(height));
            *self = first;
            second
        } else {
            let ghost h = (height - 1) as nat;
            let ghost before = self.children();
            let children = self.child_nodes();
            let n = children.len();
            let mut nodes = Self::clone_range(children, 0, n - 1);
            let mut last = children[n - 1].clone();
            let overflow = last.append_at_depth(other, depth - 1, Ghost(h));
            let ghost tail = if overflow is Some {
                seq![last, overflow->Some_0]
            } else {
                seq![last]
            };
            proof {
                if overflow is Some {
                    Self::lemma_siblings_two(last, overflow->Some_0, h);
                } else {
                    Self::lemma_siblings_one(last, h);
                }
                Self::lemma_replace_last(before, tail, other.bytes(), h);
            }
            nodes.push(last);
            match overflow {
                None => {},
                Some(node) => {
                    nodes.push(node);
                },
            }
            assert(nodes@ =~= before.drop_last() + tail);
            let (first, second) = Self::pack(nodes, Ghost(h));
            *self = first;
            second
        }
    }

    /// Puts the tree `other`, which is `depth` levels lower than `self`, at
    /// the left edge of `self`. Where the result does not fit into one node,
    /// the overflow comes back as a node that belongs in front of `self`.
    pub fn prepend_at_depth(
        &mut self,
        other: Node,
        depth: usize,
        Ghost(height): Ghost<nat>,
    ) -> (r: Option<Node>)
        requires
            depth <= height,
            old(self).wf(height),
            other.wf((height - depth) as nat),
            old(self).bytes().len() > 0,
            other.bytes().len() > 0,
            !seam(other.bytes(), old(self).bytes()),
            old(self).bytes().len() + other.bytes().len() <= usize::MAX,
        ensures
            final(self).wf(height),
            final(self).bytes().len() > 0,
            old(self).full(height) ==> final(self).full(height),
            match r {
                None => final(self).bytes() == other.bytes() + old(self).bytes(),
                Some(node) => {
                    &&& node.wf(height)
                    &&& node.full(height)
                    &&& final(self).full(height)
                    &&& !seam(node.bytes(), final(self).bytes())
                    &&& node.bytes() + final(self).bytes() == other.bytes() + old(self).bytes()
                },
            },
        decreases depth,
    {
        if depth == 0 {
            let (front, back) = other.join_pair(&*self, Ghost(height));
            match back {
                None => {
                    *self = front;
                    None
                },
                Some(node) => {
                    *self = node;
                    Some(front)
                },
            }
        } else {
            let ghost h = (height - 1) as nat;
            let ghost before = self.children();
            let children = self.child_nodes();
            let n = children.len();
            let rest = Self::clone_range(children, 1, n);
            let mut first = children[0].clone();
            proof {
                self.lemma_branch_ends(height);
            }
            let overflow = first.prepend_at_depth(other, depth - 1, Ghost(h));
            let ghost head = if overflow is Some {
                seq![overflow->Some_0, first]
            } else {
                seq![first]
            };
            proof {
                if overflow is Some {
                    Self::lemma_siblings_two(overflow->Some_0, first, h);
                } else {
                    Self::lemma_siblings_one(first, h);
                }
                Self::lemma_replace_first(before, head, other.bytes(), h);
            }
            let mut nodes: Vec<Node> = Vec::new();
            match overflow {
                None => {},
                Some(node) => {
                    nodes.push(node);
                },
            }
            nodes.push(first);
            Self::extend_range(&mut nodes, &rest, 0, n - 1);
            assert(nodes@ =~= head + before.drop_first());
            let (front, back) = Self::pack(nodes, Ghost(h));
            match back {
                None => {
                    *self = front;
                    None
                },
                Some(node) => {
                    *self = node;
                    Some(front)
                },
            }
        }
    }
}

} // verus!
