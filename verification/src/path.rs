//! The way from the root of a tree down to one of its nodes, as a list of
//! steps, and what holds of the node that it leads to.

use crate::node::Node;
use crate::text::{lemma_window_whole, window};
use vstd::prelude::*;
use vstd::utf8::*;

verus! {

/// One level of the way down: a branch, the child taken, and the byte
/// offset in the rope at which the text of the branch starts.
#[derive(Clone, Copy)]
pub struct Step<'a> {
    pub parent: &'a Node,
    pub index: usize,
    pub offset: usize,
}

/// True when `step` is a step through a well-formed branch of the given
/// height whose text stands in `w` at the recorded offset.
#[verifier::opaque]
pub open spec fn step_ok(w: Seq<u8>, step: Step, height: nat) -> bool {
    &&& height > 0
    &&& step.parent.wf(height)
    &&& step.index < step.parent.children().len()
    &&& window(w, step.offset as int, step.parent.bytes())
}

/// The child that `step` takes.
pub open spec fn child_of(step: Step) -> Node {
    step.parent.children()[step.index as int]
}

/// The byte offset at which the text of that child starts.
pub open spec fn child_start(step: Step) -> int {
    step.offset + Node::prefix_bytes(step.parent.children(), step.index as nat).len()
}

/// The byte offset at which the text of that child ends.
pub open spec fn child_end(step: Step) -> int {
    step.offset + Node::prefix_bytes(step.parent.children(), (step.index + 1) as nat).len()
}

/// The node that the way `path` leads to from `root`.
pub open spec fn selected(root: Node, path: Seq<Step>) -> Node {
    if path.len() == 0 {
        root
    } else {
        child_of(path.last())
    }
}

/// The byte offset at which the text of that node starts.
pub open spec fn selected_start(path: Seq<Step>) -> int {
    if path.len() == 0 {
        0
    } else {
        child_start(path.last())
    }
}

/// True when `path` is a way down from `root`, a tree of the given height
/// whose text is `w`: each step goes through the node that the steps before
/// it lead to.
#[verifier::opaque]
pub open spec fn path_wf(w: Seq<u8>, root: Node, height: nat, path: Seq<Step>) -> bool {
    &&& valid_utf8(w)
    &&& root.wf(height)
    &&& w == root.bytes()
    &&& path.len() <= height
    &&& forall|j: int| 0 <= j < path.len() ==> step_ok(w, #[trigger] path[j], (height - j) as nat)
    &&& forall|j: int|
        0 <= j < path.len() ==> *(#[trigger] path[j]).parent == selected(
            root,
            path.subrange(0, j),
        ) && path[j].offset == selected_start(path.subrange(0, j))
}

/// A way down may take one more step through the node it leads to.
pub proof fn lemma_path_push(w: Seq<u8>, root: Node, height: nat, path: Seq<Step>, step: Step)
    requires
        path_wf(w, root, height, path),
        path.len() < height,
        step_ok(w, step, (height - path.len()) as nat),
        *step.parent == selected(root, path),
        step.offset == selected_start(path),
    ensures
        path_wf(w, root, height, path.push(step)),
{
    reveal(path_wf);
}

/// A way down without its last step is a way down, and the last step went
/// through the node that it leads to.
pub proof fn lemma_path_pop(w: Seq<u8>, root: Node, height: nat, path: Seq<Step>)
    requires
        path_wf(w, root, height, path),
        path.len() > 0,
    ensures
        path_wf(w, root, height, path.drop_last()),
        step_ok(w, path.last(), (height - (path.len() - 1)) as nat),
        *path.last().parent == selected(root, path.drop_last()),
        path.last().offset == selected_start(path.drop_last()),
{
    reveal(path_wf);
}

/// The child that a step takes is a well-formed tree with some text, one
/// level lower, and its text stands in the whole where the step says.
pub proof fn lemma_step_child(w: Seq<u8>, step: Step, height: nat)
    requires
        valid_utf8(w),
        step_ok(w, step, height),
    ensures
        child_of(step).wf((height - 1) as nat),
        child_of(step).bytes().len() > 0,
        window(w, child_start(step), child_of(step).bytes()),
        child_end(step) == child_start(step) + child_of(step).bytes().len(),
        0 <= child_start(step),
        child_end(step) <= step.offset + step.parent.bytes().len(),
        step.index + 1 == step.parent.children().len() ==> child_end(step) == step.offset
            + step.parent.bytes().len(),
        step.index == 0 ==> child_start(step) == step.offset,
        step.parent is Branch,
        step.index < step.parent.children().len(),
        height > 0,
{
    reveal(step_ok);
    let nodes = step.parent.children();
    let h = (height - 1) as nat;
    Node::lemma_window_child(w, step.offset as int, nodes, h, step.index as int);
    Node::lemma_child_window(nodes, h, step.index as int);
}

/// The node that a way down leads to is a well-formed tree, as many levels
/// lower as the way is long, and its text stands in the whole at the offset
/// that the way gives.
pub proof fn lemma_selected(w: Seq<u8>, root: Node, height: nat, path: Seq<Step>)
    requires
        path_wf(w, root, height, path),
    ensures
        selected(root, path).wf((height - path.len()) as nat),
        window(w, selected_start(path), selected(root, path).bytes()),
        path.len() > 0 ==> selected(root, path).bytes().len() > 0,
        valid_utf8(w),
        w == root.bytes(),
        path.len() <= height,
{
    reveal(path_wf);
    if path.len() == 0 {
        lemma_window_whole(w);
    } else {
        let n = path.len() as int;
        lemma_step_child(w, path.last(), (height - (n - 1)) as nat);
    }
}

/// The empty way is a way down from the root of any well-formed tree.
pub proof fn lemma_path_empty(w: Seq<u8>, root: Node, height: nat)
    requires
        valid_utf8(w),
        root.wf(height),
        w == root.bytes(),
    ensures
        path_wf(w, root, height, Seq::<Step>::empty()),
{
    reveal(path_wf);
}

/// A step through a well-formed branch whose text stands in `w`.
pub proof fn lemma_step_ok(w: Seq<u8>, step: Step, height: nat)
    requires
        height > 0,
        step.parent.wf(height),
        step.index < step.parent.children().len(),
        window(w, step.offset as int, step.parent.bytes()),
    ensures
        step_ok(w, step, height),
{
    reveal(step_ok);
}

/// A step to a sibling of the child that a step takes.
pub proof fn lemma_step_turn(w: Seq<u8>, step: Step, turn: Step, height: nat)
    requires
        step_ok(w, step, height),
        turn.parent == step.parent,
        turn.offset == step.offset,
        turn.index < step.parent.children().len(),
    ensures
        step_ok(w, turn, height),
{
    reveal(step_ok);
}

} // verus!
