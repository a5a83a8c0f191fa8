//! A position in a slice of a rope that remembers the way from the root
//! to the leaf it stands in, and moves from leaf to leaf along that way.

use crate::node::{Leaf, Node, MAX_LEAF_LEN};
use crate::path::{
    child_end, child_start, lemma_path_empty, lemma_path_pop, lemma_path_push, lemma_selected,
    lemma_step_child, lemma_step_ok, lemma_step_turn, path_wf, selected, selected_start, step_ok,
    Step,
};
use crate::rope::Rope;
use crate::text::{
    is_boundary, lemma_boundary_in_prefix, lemma_boundary_in_suffix, lemma_window_boundary,
    lemma_window_part, lemma_window_whole, window,
};
use vstd::prelude::*;
use vstd::string::*;
use vstd::utf8::*;

verus! {

/// A position in a slice of a rope.
pub struct Cursor<'a> {
    pub(crate) rope: &'a Rope,
    pub(crate) start: usize,
    pub(crate) end: usize,
    pub(crate) position: usize,
    pub(crate) path: Vec<Step<'a>>,
    pub(crate) leaf: &'a Leaf,
    pub(crate) leaf_start: usize,
}

impl<'a> Cursor<'a> {
    /// The text of the slice that the cursor moves in.
    pub open(crate) spec fn text(&self) -> Seq<u8> {
        self.rope@.subrange(self.start as int, self.end as int)
    }

    /// The position of the cursor, in bytes from the start of the slice.
    pub open(crate) spec fn index(&self) -> int {
        self.position - self.start
    }

    /// True when the cursor stands at a character boundary of a slice of a
    /// well-formed rope, and the recorded way leads from the root to a leaf
    /// that holds or touches that position.
    pub open(crate) spec fn wf(&self) -> bool {
        let w = self.rope@;
        &&& self.rope.wf()
        &&& self.start <= self.position <= self.end <= w.len()
        &&& is_char_boundary(w, self.start as int)
        &&& is_char_boundary(w, self.end as int)
        &&& is_char_boundary(w, self.position as int)
        &&& path_wf(w, self.rope.root, self.rope.height as nat, self.path@)
        &&& self.path@.len() == self.rope.height
        &&& selected(self.rope.root, self.path@) == Node::Leaf(*self.leaf)
        &&& self.leaf_start == selected_start(self.path@)
        &&& self.leaf.wf()
        &&& window(w, self.leaf_start as int, self.leaf.bytes())
        &&& self.leaf_start <= self.position <= self.leaf_start + self.leaf.bytes().len()
    }

    /// A well-formed cursor stands at a character boundary of its text.
    pub proof fn lemma_index(&self)
        requires
            self.wf(),
        ensures
            valid_utf8(self.text()),
            is_boundary(self.text(), self.index()),
    {
        let w = self.rope@;
        self.rope.lemma_valid();
        lemma_boundary_in_suffix(w, self.end as int, self.start as int);
        let tail = w.subrange(self.start as int, w.len() as int);
        assert(tail.subrange(0, self.end - self.start) =~= self.text());
        lemma_boundary_in_suffix(w, self.position as int, self.start as int);
        lemma_boundary_in_prefix(tail, self.index(), self.end - self.start);
    }

    /// The cursor at byte `position` of `rope`, for the slice from `start`
    /// to `end`. Descends from the root once and records the way.
    pub(crate) fn new(rope: &'a Rope, start: usize, end: usize, position: usize) -> (r: Self)
        requires
            rope.wf(),
            start <= position <= end <= rope@.len(),
            is_char_boundary(rope@, start as int),
            is_char_boundary(rope@, end as int),
            is_char_boundary(rope@, position as int),
        ensures
            r.wf(),
            r.rope == rope,
            r.start == start,
            r.end == end,
            r.position == position,
    {
        let ghost w = rope@;
        let ghost root = rope.root;
        let height = rope.height();
        let mut path: Vec<Step<'a>> = Vec::new();
        let mut node: &'a Node = rope.root();
        let mut node_start: usize = 0;
        proof {
            rope.lemma_valid();
            lemma_window_whole(w);
            lemma_path_empty(w, root, height as nat);
        }
        while path.len() < height
            invariant
                valid_utf8(w),
                path@.len() <= height,
                path_wf(w, root, height as nat, path@),
                *node == selected(root, path@),
                node_start == selected_start(path@),
                node.wf((height - path@.len()) as nat),
                window(w, node_start as int, node.bytes()),
                node_start <= position <= node_start + node.bytes().len(),
                w.len() <= usize::MAX,
            decreases height - path@.len(),
        {
            let ghost h = (height - path@.len()) as nat;
            let children = node.child_nodes();
            let (index, info) = Node::search_by_byte(
                children,
                position - node_start,
                Ghost((h - 1) as nat),
            );
            let step = Step { parent: node, index, offset: node_start };
            proof {
                lemma_step_ok(w, step, h);
                lemma_path_push(w, root, height as nat, path@, step);
                lemma_step_child(w, step, h);
            }
            path.push(step);
            node_start = node_start + info.byte_count;
            node = &children[index];
        }
        let leaf = node.as_leaf();
        Cursor { rope, start, end, position, path, leaf, leaf_start: node_start }
    }

    /// Pops steps until one is found that has a sibling to its right, and
    /// takes the step to that sibling instead. Returns the sibling.
    fn turn_right(
        path: &mut Vec<Step<'a>>,
        Ghost(w): Ghost<Seq<u8>>,
        Ghost(root): Ghost<Node>,
        Ghost(height): Ghost<nat>,
    ) -> (r: &'a Node)
        requires
            path_wf(w, root, height, old(path)@),
            selected_start(old(path)@) + selected(root, old(path)@).bytes().len() < w.len(),
        ensures
            path_wf(w, root, height, final(path)@),
            0 < final(path)@.len() <= height,
            *r == selected(root, final(path)@),
            selected_start(final(path)@) == selected_start(old(path)@) + selected(
                root,
                old(path)@,
            ).bytes().len(),
    {
        let ghost edge = selected_start(path@) + selected(root, path@).bytes().len();
        proof {
            lemma_selected(w, root, height, path@);
            if path@.len() > 0 {
                lemma_path_pop(w, root, height, path@);
                lemma_step_child(w, path@.last(), (height - (path@.len() - 1)) as nat);
            }
        }
        let mut step = path.pop().unwrap();
        while step.index == step.parent.child_nodes().len() - 1
            invariant
                path_wf(w, root, height, path@),
                path@.len() < height,
                step_ok(w, step, (height - path@.len()) as nat),
                *step.parent == selected(root, path@),
                step.offset == selected_start(path@),
                step.parent is Branch,
                step.index < step.parent.children().len(),
                edge == child_end(step),
                edge < w.len(),
                valid_utf8(w),
            decreases path@.len(),
        {
            proof {
                lemma_selected(w, root, height, path@);
                if path@.len() > 0 {
                    lemma_path_pop(w, root, height, path@);
                    lemma_step_child(w, path@.last(), (height - (path@.len() - 1)) as nat);
                }
            }
            step = path.pop().unwrap();
        }
        let children = step.parent.child_nodes();
        let turn = Step { parent: step.parent, index: step.index + 1, offset: step.offset };
        proof {
            lemma_step_turn(w, step, turn, (height - path@.len()) as nat);
            lemma_path_push(w, root, height, path@, turn);
        }
        path.push(turn);
        &children[turn.index]
    }

    /// Pops steps until one is found that has a sibling to its left, and
    /// takes the step to that sibling instead. Returns the sibling.
    fn turn_left(
        path: &mut Vec<Step<'a>>,
        Ghost(w): Ghost<Seq<u8>>,
        Ghost(root): Ghost<Node>,
        Ghost(height): Ghost<nat>,
    ) -> (r: &'a Node)
        requires
            path_wf(w, root, height, old(path)@),
            selected_start(old(path)@) > 0,
        ensures
            path_wf(w, root, height, final(path)@),
            0 < final(path)@.len() <= height,
            *r == selected(root, final(path)@),
            selected_start(final(path)@) + r.bytes().len() == selected_start(old(path)@),
    {
        let ghost edge = selected_start(path@);
        proof {
            lemma_selected(w, root, height, path@);
            lemma_path_pop(w, root, height, path@);
        }
        let mut step = path.pop().unwrap();
        while step.index == 0
            invariant
                path_wf(w, root, height, path@),
                path@.len() < height,
                step_ok(w, step, (height - path@.len()) as nat),
                *step.parent == selected(root, path@),
                step.offset == selected_start(path@),
                edge == child_start(step),
                edge > 0,
                valid_utf8(w),
            decreases path@.len(),
        {
            proof {
                if path@.len() > 0 {
                    lemma_path_pop(w, root, height, path@);
                }
            }
            step = path.pop().unwrap();
        }
        proof {
            lemma_step_child(w, step, (height - path@.len()) as nat);
        }
        let children = step.parent.child_nodes();
        let turn = Step { parent: step.parent, index: step.index - 1, offset: step.offset };
        proof {
            lemma_step_turn(w, step, turn, (height - path@.len()) as nat);
            lemma_path_push(w, root, height, path@, turn);
        }
        path.push(turn);
        &children[turn.index]
    }

    /// Moves from the end of the current leaf to the start of the next one.
    pub(crate) fn next_leaf(&mut self)
        requires
            old(self).wf(),
            old(self).position == old(self).leaf_start + old(self).leaf.bytes().len(),
            old(self).position < old(self).rope@.len(),
        ensures
            final(self).wf(),
            final(self).rope == old(self).rope,
            final(self).start == old(self).start,
            final(self).end == old(self).end,
            final(self).position == old(self).position,
            final(self).leaf_start == old(self).position,
            final(self).leaf.bytes().len() > 0,
    {
        let ghost w = self.rope@;
        let ghost root = self.rope.root;
        let ghost height = self.rope.height as nat;
        let edge = self.position;
        let mut node: &'a Node = Self::turn_right(
            &mut self.path,
            Ghost(w),
            Ghost(root),
            Ghost(height),
        );
        proof {
            lemma_selected(w, root, height, self.path@);
        }
        while !node.is_leaf()
            invariant
                path_wf(w, root, height, self.path@),
                0 < self.path@.len() <= height,
                *node == selected(root, self.path@),
                edge == selected_start(self.path@),
                node.wf((height - self.path@.len()) as nat),
                node.bytes().len() > 0,
                window(w, edge as int, node.bytes()),
                valid_utf8(w),
                self.rope == old(self).rope,
                self.start == old(self).start,
                self.end == old(self).end,
                self.position == old(self).position,
            decreases height - self.path@.len(),
        {
            let down = Step { parent: node, index: 0, offset: edge };
            proof {
                lemma_step_ok(w, down, (height - self.path@.len()) as nat);
                lemma_path_push(w, root, height, self.path@, down);
                lemma_step_child(w, down, (height - self.path@.len()) as nat);
            }
            self.path.push(down);
            node = &node.child_nodes()[0];
        }
        self.leaf = node.as_leaf();
        self.leaf_start = edge;
    }

    /// Moves from the start of the current leaf to the end of the one
    /// before it.
    pub(crate) fn prev_leaf(&mut self)
        requires
            old(self).wf(),
            old(self).position == old(self).leaf_start,
            old(self).position > 0,
        ensures
            final(self).wf(),
            final(self).rope == old(self).rope,
            final(self).start == old(self).start,
            final(self).end == old(self).end,
            final(self).position == old(self).position,
            final(self).leaf_start + final(self).leaf.bytes().len() == old(self).position,
            final(self).leaf.bytes().len() > 0,
    {
        let ghost w = self.rope@;
        let ghost root = self.rope.root;
        let ghost height = self.rope.height as nat;
        let edge = self.position;
        let mut node: &'a Node = Self::turn_left(
            &mut self.path,
            Ghost(w),
            Ghost(root),
            Ghost(height),
        );
        proof {
            lemma_selected(w, root, height, self.path@);
        }
        let mut node_start: usize = edge - node.info().byte_count;
        while !node.is_leaf()
            invariant
                path_wf(w, root, height, self.path@),
                0 < self.path@.len() <= height,
                *node == selected(root, self.path@),
                node_start == selected_start(self.path@),
                node_start + node.bytes().len() == edge,
                node.wf((height - self.path@.len()) as nat),
                node.bytes().len() > 0,
                window(w, node_start as int, node.bytes()),
                valid_utf8(w),
                self.rope == old(self).rope,
                self.start == old(self).start,
                self.end == old(self).end,
                self.position == old(self).position,
            decreases height - self.path@.len(),
        {
            let below = node.child_nodes();
            let down = Step { parent: node, index: below.len() - 1, offset: node_start };
            proof {
                lemma_step_ok(w, down, (height - self.path@.len()) as nat);
                lemma_path_push(w, root, height, self.path@, down);
                lemma_step_child(w, down, (height - self.path@.len()) as nat);
            }
            self.path.push(down);
            node = &below[down.index];
            node_start = edge - node.info().byte_count;
        }
        self.leaf = node.as_leaf();
        self.leaf_start = node_start;
    }

    /// The part of the current leaf between two positions of the rope.
    fn leaf_part(&self, from: usize, to: usize) -> (r: &'a str)
        requires
            self.wf(),
            self.leaf_start <= from <= to <= self.leaf_start + self.leaf.bytes().len(),
            is_char_boundary(self.rope@, from as int),
            is_char_boundary(self.rope@, to as int),
        ensures
            r.spec_bytes() == self.rope@.subrange(from as int, to as int),
    {
        let ghost w = self.rope@;
        let leaf: &'a Leaf = self.leaf;
        let skip = from - self.leaf_start;
        let len = to - from;
        proof {
            self.rope.lemma_valid();
            encode_utf8_valid_utf8(leaf.text@);
            lemma_window_boundary(w, self.leaf_start as int, leaf.bytes(), skip as int);
            lemma_window_boundary(w, self.leaf_start as int, leaf.bytes(), skip + len);
            lemma_boundary_in_suffix(leaf.bytes(), skip + len, skip as int);
            lemma_window_part(w, self.leaf_start as int, leaf.bytes(), skip as int, skip + len);
        }
        let (_, tail) = leaf.as_str().split_at(skip);
        let (part, _) = tail.split_at(len);
        part
    }

    /// The position of the cursor, in bytes from the start of the slice.
    pub fn byte_position(&self) -> (r: usize)
        requires
            self.wf(),
        ensures
            r == self.index(),
    {
        self.position - self.start
    }

    /// Returns `true` if the cursor stands at the start of the slice.
    pub fn is_at_front(&self) -> (r: bool)
        requires
            self.wf(),
        ensures
            r == (self.index() == 0),
    {
        self.position == self.start
    }

    /// Returns `true` if the cursor stands at the end of the slice.
    pub fn is_at_back(&self) -> (r: bool)
        requires
            self.wf(),
        ensures
            r == (self.index() == self.text().len()),
    {
        self.position == self.end
    }

    /// Moves the cursor to byte `byte_position` of the slice, by a new
    /// descent from the root.
    pub fn move_to(&mut self, byte_position: usize)
        requires
            old(self).wf(),
            is_boundary(old(self).text(), byte_position as int),
        ensures
            final(self).wf(),
            final(self).text() == old(self).text(),
            final(self).index() == byte_position,
    {
        proof {
            let w = self.rope@;
            self.rope.lemma_valid();
            lemma_boundary_in_suffix(w, self.end as int, self.start as int);
            let tail = w.subrange(self.start as int, w.len() as int);
            assert(tail.subrange(0, self.end - self.start) =~= self.text());
            lemma_boundary_in_prefix(
                tail,
                byte_position as int,
                self.end - self.start,
            );
            lemma_boundary_in_suffix(w, self.start + byte_position, self.start as int);
        }
        *self = Self::new(self.rope, self.start, self.end, self.start + byte_position);
    }

    /// The run of text that follows the cursor within one leaf, up to the
    /// end of the slice: at most `MAX_LEAF_LEN` bytes. The cursor moves
    /// behind it. `None` at the end of the slice.
    pub fn next_chunk(&mut self) -> (r: Option<&'a str>)
        requires
            old(self).wf(),
        ensures
            final(self).wf(),
            final(self).text() == old(self).text(),
            match r {
                None => old(self).index() == old(self).text().len() && final(self).index() == old(
                    self,
                ).index(),
                Some(chunk) => {
                    &&& 0 < chunk.spec_bytes().len() <= MAX_LEAF_LEN
                    &&& final(self).index() == old(self).index() + chunk.spec_bytes().len()
                    &&& chunk.spec_bytes() == old(self).text().subrange(
                        old(self).index(),
                        final(self).index(),
                    )
                },
            },
    {
        if self.position == self.end {
            return None;
        }
        proof {
            lemma_window_part(self.rope@, self.leaf_start as int, self.leaf.bytes(), 0, 0);
        }
        if self.position == self.leaf_start + self.leaf.info.byte_count {
            self.next_leaf();
        }
        proof {
            lemma_window_part(self.rope@, self.leaf_start as int, self.leaf.bytes(), 0, 0);
        }
        let leaf_end = self.leaf_start + self.leaf.info.byte_count;
        let stop = if leaf_end < self.end {
            leaf_end
        } else {
            self.end
        };
        let chunk = self.leaf_part(self.position, stop);
        self.position = stop;
        Some(chunk)
    }

    /// The run of text that precedes the cursor within one leaf, back to
    /// the start of the slice: at most `MAX_LEAF_LEN` bytes. The cursor
    /// moves in front of it. `None` at the start of the slice.
    pub fn prev_chunk(&mut self) -> (r: Option<&'a str>)
        requires
            old(self).wf(),
        ensures
            final(self).wf(),
            final(self).text() == old(self).text(),
            match r {
                None => old(self).index() == 0 && final(self).index() == 0,
                Some(chunk) => {
                    &&& 0 < chunk.spec_bytes().len() <= MAX_LEAF_LEN
                    &&& final(self).index() + chunk.spec_bytes().len() == old(self).index()
                    &&& chunk.spec_bytes() == old(self).text().subrange(
                        final(self).index(),
                        old(self).index(),
                    )
                },
            },
    {
        if self.position == self.start {
            return None;
        }
        if self.position == self.leaf_start {
            self.prev_leaf();
        }
        let stop = if self.leaf_start > self.start {
            self.leaf_start
        } else {
            self.start
        };
        proof {
            lemma_window_part(self.rope@, self.leaf_start as int, self.leaf.bytes(), 0, 0);
        }
        let chunk = self.leaf_part(stop, self.position);
        self.position = stop;
        Some(chunk)
    }
}

} // verus!
