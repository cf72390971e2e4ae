//! Putting a node in the place of another inside a tree, and what edits and
//! passes do to a tree in terms of that.

use crate::applier::{edited, run, step, ApplyError, Edit};
use crate::differ::TreePatchView;
use crate::vnode::{at, NodeView};
use crate::vtag::TagView;
use vstd::prelude::*;

verus! {

/// `root` with `sub` in the place of the node that `path` leads to. Where the
/// path leads nowhere, `root` as it is.
pub open spec fn grafted(root: NodeView, path: Seq<usize>, sub: NodeView) -> NodeView
    decreases path.len(),
{
    if path.len() == 0 {
        sub
    } else {
        match root {
            NodeView::Text(_) => root,
            NodeView::Tag(tag) => if path[0] < tag.children.len() {
                NodeView::Tag(
                    TagView {
                        children: tag.children.update(
                            path[0] as int,
                            grafted(tag.children[path[0] as int], path.drop_first(), sub),
                        ),
                        ..tag
                    },
                )
            } else {
                root
            },
        }
    }
}

/// The node put in a place is the node found there afterwards.
pub proof fn lemma_at_grafted(root: NodeView, path: Seq<usize>, sub: NodeView)
    requires
        at(root, path) is Some,
    ensures
        at(grafted(root, path, sub), path) == Some(sub),
    decreases path.len(),
{
    if path.len() > 0 {
        let tag = root->Tag_0;
        lemma_at_grafted(tag.children[path[0] as int], path.drop_first(), sub);
    }
}

/// Of two nodes put in the same place one after the other, the second stays.
pub proof fn lemma_grafted_twice(root: NodeView, path: Seq<usize>, first: NodeView, second: NodeView)
    requires
        at(root, path) is Some,
    ensures
        grafted(grafted(root, path, first), path, second) == grafted(root, path, second),
    decreases path.len(),
{
    if path.len() > 0 {
        let tag = root->Tag_0;
        let place = path[0] as int;
        lemma_grafted_twice(tag.children[place], path.drop_first(), first, second);
        let once = grafted(root, path, first)->Tag_0;
        assert(once.children.update(
            place,
            grafted(once.children[place], path.drop_first(), second),
        ) =~= tag.children.update(place, grafted(tag.children[place], path.drop_first(), second)));
    }
}

/// A node put in its own place leaves the tree as it is.
pub proof fn lemma_grafted_same(root: NodeView, path: Seq<usize>)
    requires
        at(root, path) is Some,
    ensures
        grafted(root, path, at(root, path)->Some_0) == root,
    decreases path.len(),
{
    if path.len() > 0 {
        let tag = root->Tag_0;
        let place = path[0] as int;
        lemma_grafted_same(tag.children[place], path.drop_first());
        assert(tag.children.update(place, tag.children[place]) =~= tag.children);
    }
}

/// The child at `place` of the element that `path` leads to is found one step
/// further, and what is put in its place is put among the children of that
/// element.
pub proof fn lemma_child(root: NodeView, path: Seq<usize>, tag: TagView, place: usize, sub: NodeView)
    requires
        at(root, path) == Some(NodeView::Tag(tag)),
        place < tag.children.len(),
    ensures
        at(root, path.push(place)) == Some(tag.children[place as int]),
        grafted(root, path.push(place), sub) == grafted(
            root,
            path,
            NodeView::Tag(TagView { children: tag.children.update(place as int, sub), ..tag }),
        ),
    decreases path.len(),
{
    let longer = path.push(place);
    reveal_with_fuel(at, 2);
    reveal_with_fuel(grafted, 2);
    if path.len() == 0 {
        assert(longer[0] == place);
        assert(longer.drop_first() =~= Seq::<usize>::empty());
    } else {
        let top = root->Tag_0;
        assert(longer[0] == path[0]);
        assert(longer.drop_first() =~= path.drop_first().push(place));
        lemma_child(top.children[path[0] as int], path.drop_first(), tag, place, sub);
    }
}

/// An edit that goes through at a node goes through in the tree around it,
/// and leaves the tree with the edited node in the place of the node.
pub proof fn lemma_edit_below(
    root: NodeView,
    path: Seq<usize>,
    rel: Seq<usize>,
    edit: Edit,
    node: NodeView,
)
    requires
        at(root, path) is Some,
        edited(at(root, path)->Some_0, rel, edit) == Ok::<NodeView, ApplyError>(node),
    ensures
        edited(root, path + rel, edit) == Ok::<NodeView, ApplyError>(grafted(root, path, node)),
    decreases path.len(),
{
    let full = path + rel;
    if path.len() == 0 {
        assert(full =~= rel);
    } else {
        let tag = root->Tag_0;
        let place = path[0] as int;
        let child = tag.children[place];
        assert(full[0] == path[0]);
        assert(full.drop_first() =~= path.drop_first() + rel);
        lemma_edit_below(child, path.drop_first(), rel, edit, node);
        if full.len() == 1 {
            assert(path.drop_first().len() == 0);
            assert(rel.len() == 0);
            assert(full.drop_first() =~= Seq::<usize>::empty());
        }
    }
}

/// A pass over the patches of one list from place `from` on goes as it goes
/// over the same patches behind another list.
pub proof fn lemma_run_behind(
    tree: Option<NodeView>,
    first: Seq<TreePatchView>,
    second: Seq<TreePatchView>,
    from: int,
)
    requires
        0 <= from <= second.len(),
        run(tree, second, from).failure is None,
    ensures
        run(tree, first + second, first.len() + from) == run(tree, second, from),
    decreases second.len() - from,
{
    let all = first + second;
    if from < second.len() {
        assert(all[first.len() + from] == second[from]);
        match step(tree, second[from]) {
            Ok(next) => {
                lemma_run_behind(next, first, second, from + 1);
            },
            Err(_) => {},
        }
    }
}

/// A pass over two lists one after the other, where both go through: it ends
/// where the pass over the second ends, begun where the first ended.
pub proof fn lemma_run_both(
    tree: Option<NodeView>,
    first: Seq<TreePatchView>,
    second: Seq<TreePatchView>,
    from: int,
)
    requires
        0 <= from <= first.len(),
        run(tree, first, from).failure is None,
        run(run(tree, first, from).tree, second, 0).failure is None,
    ensures
        run(tree, first + second, from) == run(run(tree, first, from).tree, second, 0),
    decreases first.len() - from,
{
    let all = first + second;
    if from < first.len() {
        assert(all[from] == first[from]);
        match step(tree, first[from]) {
            Ok(next) => {
                lemma_run_both(next, first, second, from + 1);
            },
            Err(_) => {},
        }
    } else {
        lemma_run_behind(tree, first, second, 0);
    }
}

} // verus!
