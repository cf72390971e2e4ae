//! Why carrying out the patches between two trees turns the one into the
//! other: the steps of the proof, node by node.

use crate::applier::{edited, run, step, subscribed, ApplyError, Edit, Pass};
use crate::differ::{
    attribute_patches, child_patches, class_patches, listener_patches, node_patches, replacement,
    TreePatchView,
};
use crate::grafting::{
    grafted, lemma_at_grafted, lemma_child, lemma_edit_below, lemma_grafted_same,
    lemma_grafted_twice, lemma_run_behind, lemma_run_both,
};
use crate::keyed::{changes, tells_apart};
use crate::keyed_laws::{lemma_changes_exist, lemma_mixed_ends, lemma_mixed_step, mixed};
use crate::patch::Patch;
use crate::vnode::{at, well_formed, NodeView};
use crate::vtag::TagView;
use vstd::prelude::*;

verus! {

/// The pass over the patches of the attributes, from place `i` on, leaves the
/// element with the new attributes.
proof fn lemma_run_attributes(
    root: NodeView,
    path: Seq<usize>,
    tag: TagView,
    old: Map<Seq<char>, Seq<char>>,
    new: Map<Seq<char>, Seq<char>>,
    s: Seq<Patch<Seq<char>, Seq<char>>>,
    i: int,
)
    requires
        at(root, path) == Some(NodeView::Tag(tag)),
        tells_apart(s, old, new),
        0 <= i <= s.len(),
        tag.attributes == mixed(old, new, s, i),
    ensures
        run(Some(root), attribute_patches(path, s), i) == (Pass {
            tree: Some(grafted(root, path, NodeView::Tag(TagView { attributes: new, ..tag }))),
            failure: None,
        }),
    decreases s.len() - i,
{
    let list = attribute_patches(path, s);
    let last = NodeView::Tag(TagView { attributes: new, ..tag });
    lemma_mixed_ends(old, new, s);
    if i == s.len() {
        lemma_grafted_same(root, path);
    } else {
        lemma_mixed_step(old, new, s, i);
        let tag2 = TagView { attributes: mixed(old, new, s, i + 1), ..tag };
        assert(list[i] == TreePatchView::Attribute(path, s[i]));
        assert(path + Seq::<usize>::empty() =~= path);
        lemma_edit_below(root, path, Seq::empty(), Edit::Attribute(s[i]), NodeView::Tag(tag2));
        let root2 = grafted(root, path, NodeView::Tag(tag2));
        assert(step(Some(root), list[i]) == Ok::<Option<NodeView>, ApplyError>(Some(root2)));
        lemma_at_grafted(root, path, NodeView::Tag(tag2));
        lemma_run_attributes(root2, path, tag2, old, new, s, i + 1);
        lemma_grafted_twice(root, path, NodeView::Tag(tag2), last);
    }
}

/// The pass over the patches of the classes, from place `i` on, leaves the
/// element with the new classes.
proof fn lemma_run_classes(
    root: NodeView,
    path: Seq<usize>,
    tag: TagView,
    old: Map<Seq<char>, ()>,
    new: Map<Seq<char>, ()>,
    s: Seq<Patch<Seq<char>, ()>>,
    i: int,
)
    requires
        at(root, path) == Some(NodeView::Tag(tag)),
        tells_apart(s, old, new),
        0 <= i <= s.len(),
        tag.classes == mixed(old, new, s, i),
    ensures
        run(Some(root), class_patches(path, s), i) == (Pass {
            tree: Some(grafted(root, path, NodeView::Tag(TagView { classes: new, ..tag }))),
            failure: None,
        }),
    decreases s.len() - i,
{
    let list = class_patches(path, s);
    let last = NodeView::Tag(TagView { classes: new, ..tag });
    lemma_mixed_ends(old, new, s);
    if i == s.len() {
        lemma_grafted_same(root, path);
    } else {
        lemma_mixed_step(old, new, s, i);
        let tag2 = TagView { classes: mixed(old, new, s, i + 1), ..tag };
        assert(list[i] == TreePatchView::Class(path, s[i]));
        assert(path + Seq::<usize>::empty() =~= path);
        lemma_edit_below(root, path, Seq::empty(), Edit::Class(s[i]), NodeView::Tag(tag2));
        let root2 = grafted(root, path, NodeView::Tag(tag2));
        assert(step(Some(root), list[i]) == Ok::<Option<NodeView>, ApplyError>(Some(root2)));
        lemma_at_grafted(root, path, NodeView::Tag(tag2));
        lemma_run_classes(root2, path, tag2, old, new, s, i + 1);
        lemma_grafted_twice(root, path, NodeView::Tag(tag2), last);
    }
}

/// The pass over the patches of the listeners, from place `i` on, goes
/// through and leaves the element with the new listeners.
proof fn lemma_run_listeners(
    root: NodeView,
    path: Seq<usize>,
    tag: TagView,
    old: Map<Seq<char>, u64>,
    new: Map<Seq<char>, u64>,
    s: Seq<Patch<Seq<char>, u64>>,
    i: int,
)
    requires
        at(root, path) == Some(NodeView::Tag(tag)),
        tells_apart(s, old, new),
        0 <= i <= s.len(),
        tag.listeners == mixed(old, new, s, i),
    ensures
        run(Some(root), listener_patches(path, s), i) == (Pass {
            tree: Some(grafted(root, path, NodeView::Tag(TagView { listeners: new, ..tag }))),
            failure: None,
        }),
    decreases s.len() - i,
{
    let list = listener_patches(path, s);
    let last = NodeView::Tag(TagView { listeners: new, ..tag });
    lemma_mixed_ends(old, new, s);
    if i == s.len() {
        lemma_grafted_same(root, path);
    } else {
        lemma_mixed_step(old, new, s, i);
        let tag2 = TagView { listeners: mixed(old, new, s, i + 1), ..tag };
        assert(list[i] == TreePatchView::Listener(path, s[i]));
        assert(subscribed(tag.listeners, s[i]) == Ok::<Map<Seq<char>, u64>, ApplyError>(
            tag2.listeners,
        ));
        assert(path + Seq::<usize>::empty() =~= path);
        lemma_edit_below(root, path, Seq::empty(), Edit::Listener(s[i]), NodeView::Tag(tag2));
        let root2 = grafted(root, path, NodeView::Tag(tag2));
        assert(step(Some(root), list[i]) == Ok::<Option<NodeView>, ApplyError>(Some(root2)));
        lemma_at_grafted(root, path, NodeView::Tag(tag2));
        lemma_run_listeners(root2, path, tag2, old, new, s, i + 1);
        lemma_grafted_twice(root, path, NodeView::Tag(tag2), last);
    }
}

/// The patches that remove the children behind the first `keep`, last child
/// first, where there are `total` children at first.
spec fn removals(path: Seq<usize>, total: int, keep: int) -> Seq<TreePatchView> {
    Seq::new(
        (total - keep) as nat,
        |i: int| TreePatchView::Node(Patch::Remove(path.push((total - 1 - i) as usize))),
    )
}

/// The pass over the removals, from place `j` on, leaves the element with
/// its first `keep` children.
proof fn lemma_run_removals(
    root: NodeView,
    path: Seq<usize>,
    tag: TagView,
    total: int,
    keep: int,
    j: int,
)
    requires
        at(root, path) == Some(NodeView::Tag(tag)),
        0 <= keep <= total <= usize::MAX,
        0 <= j <= total - keep,
        tag.children.len() == total - j,
    ensures
        run(Some(root), removals(path, total, keep), j) == (Pass {
            tree: Some(
                grafted(
                    root,
                    path,
                    NodeView::Tag(TagView { children: tag.children.take(keep), ..tag }),
                ),
            ),
            failure: None,
        }),
    decreases total - keep - j,
{
    let list = removals(path, total, keep);
    let last = NodeView::Tag(TagView { children: tag.children.take(keep), ..tag });
    if j == total - keep {
        assert(tag.children.take(keep) =~= tag.children);
        lemma_grafted_same(root, path);
    } else {
        let place = (total - 1 - j) as usize;
        let tag2 = TagView { children: tag.children.remove(place as int), ..tag };
        let rel = seq![place];
        assert(list[j] == TreePatchView::Node(Patch::Remove(path.push(place))));
        assert(path + rel =~= path.push(place));
        assert(edited(NodeView::Tag(tag), rel, Edit::Delete) == Ok::<NodeView, ApplyError>(
            NodeView::Tag(tag2),
        ));
        lemma_edit_below(root, path, rel, Edit::Delete, NodeView::Tag(tag2));
        let root2 = grafted(root, path, NodeView::Tag(tag2));
        assert(step(Some(root), list[j]) == Ok::<Option<NodeView>, ApplyError>(Some(root2)));
        lemma_at_grafted(root, path, NodeView::Tag(tag2));
        lemma_run_removals(root2, path, tag2, total, keep, j + 1);
        assert(tag2.children.take(keep) =~= tag.children.take(keep));
        lemma_grafted_twice(root, path, NodeView::Tag(tag2), last);
    }
}

/// The children of an element when the first `from` of them have been dealt
/// with: those are the new ones, the others still the old ones.
pub open spec fn half_done(prev: Seq<NodeView>, next: Seq<NodeView>, from: int) -> Seq<NodeView> {
    if from <= prev.len() {
        next.take(from) + prev.skip(from)
    } else {
        next.take(from)
    }
}

/// The pass over the patches of a node leaves the tree with the new node in
/// the place of the old one.
pub proof fn lemma_run_node(root: NodeView, path: Seq<usize>, prev: NodeView, next: NodeView)
    requires
        at(root, path) == Some(prev),
        well_formed(prev),
        well_formed(next),
    ensures
        run(Some(root), node_patches(path, prev, next), 0) == (Pass {
            tree: Some(grafted(root, path, next)),
            failure: None,
        }),
    decreases prev, 0int,
{
    let patches = node_patches(path, prev, next);
    if patches == replacement(path, next) {
        reveal_with_fuel(run, 2);
        assert(path + Seq::<usize>::empty() =~= path);
        lemma_edit_below(root, path, Seq::empty(), Edit::Replace(next), next);
    } else {
        match (prev, next) {
            (NodeView::Tag(a), NodeView::Tag(b)) => {
                let sa = changes(a.attributes, b.attributes);
                let sc = changes(a.classes, b.classes);
                let sl = changes(a.listeners, b.listeners);
                lemma_changes_exist(a.attributes, b.attributes);
                lemma_changes_exist(a.classes, b.classes);
                lemma_changes_exist(a.listeners, b.listeners);
                lemma_mixed_ends(a.attributes, b.attributes, sa);
                lemma_mixed_ends(a.classes, b.classes, sc);
                lemma_mixed_ends(a.listeners, b.listeners, sl);
                let la = attribute_patches(path, sa);
                let lc = class_patches(path, sc);
                let ll = listener_patches(path, sl);
                let lk = child_patches(path, a.children, b.children, 0);
                let a1 = TagView { attributes: b.attributes, ..a };
                let a2 = TagView { classes: b.classes, ..a1 };
                let a3 = TagView { listeners: b.listeners, ..a2 };
                let root1 = grafted(root, path, NodeView::Tag(a1));
                let root2 = grafted(root, path, NodeView::Tag(a2));
                let root3 = grafted(root, path, NodeView::Tag(a3));
                lemma_run_attributes(root, path, a, a.attributes, b.attributes, sa, 0);
                lemma_at_grafted(root, path, NodeView::Tag(a1));
                lemma_run_classes(root1, path, a1, a.classes, b.classes, sc, 0);
                lemma_grafted_twice(root, path, NodeView::Tag(a1), NodeView::Tag(a2));
                lemma_at_grafted(root, path, NodeView::Tag(a2));
                lemma_run_listeners(root2, path, a2, a.listeners, b.listeners, sl, 0);
                lemma_grafted_twice(root, path, NodeView::Tag(a2), NodeView::Tag(a3));
                lemma_at_grafted(root, path, NodeView::Tag(a3));
                assert(a3.children =~= half_done(a.children, b.children, 0));
                lemma_run_children(root3, path, a3, a.children, b.children, 0);
                lemma_grafted_twice(root, path, NodeView::Tag(a3), next);
                assert(NodeView::Tag(TagView { children: b.children, ..a3 }) == next);
                lemma_run_both(Some(root), la, lc, 0);
                lemma_run_both(Some(root), la + lc, ll, 0);
                lemma_run_both(Some(root), la + lc + ll, lk, 0);
            },
            _ => {
                lemma_grafted_same(root, path);
            },
        }
    }
}

/// The pass over the patches of the children from place `from` on leaves the
/// element with the new children.
pub proof fn lemma_run_children(
    root: NodeView,
    path: Seq<usize>,
    tag: TagView,
    prev: Seq<NodeView>,
    next: Seq<NodeView>,
    from: int,
)
    requires
        at(root, path) == Some(NodeView::Tag(tag)),
        0 <= from <= next.len(),
        prev.len() <= usize::MAX,
        next.len() <= usize::MAX,
        tag.children == half_done(prev, next, from),
        forall|i: int| 0 <= i < prev.len() ==> well_formed(#[trigger] prev[i]),
        forall|i: int| 0 <= i < next.len() ==> well_formed(#[trigger] next[i]),
    ensures
        run(Some(root), child_patches(path, prev, next, from), 0) == (Pass {
            tree: Some(grafted(root, path, NodeView::Tag(TagView { children: next, ..tag }))),
            failure: None,
        }),
    decreases prev, prev.len() + next.len() - from,
{
    let patches = child_patches(path, prev, next, from);
    let last = NodeView::Tag(TagView { children: next, ..tag });
    let place = from as usize;
    if from < prev.len() && from < next.len() {
        let here = node_patches(path.push(place), prev[from], next[from]);
        let rest = child_patches(path, prev, next, from + 1);
        let tag2 = TagView { children: tag.children.update(from, next[from]), ..tag };
        let root2 = grafted(root, path, NodeView::Tag(tag2));
        lemma_child(root, path, tag, place, next[from]);
        lemma_run_node(root, path.push(place), prev[from], next[from]);
        lemma_at_grafted(root, path, NodeView::Tag(tag2));
        assert(tag2.children =~= half_done(prev, next, from + 1));
        lemma_run_children(root2, path, tag2, prev, next, from + 1);
        lemma_grafted_twice(root, path, NodeView::Tag(tag2), last);
        lemma_run_both(Some(root), here, rest, 0);
    } else if from < next.len() {
        let patch = TreePatchView::Node(Patch::Add(path.push(place), next[from]));
        let rest = child_patches(path, prev, next, from + 1);
        let tag2 = TagView { children: tag.children.push(next[from]), ..tag };
        let root2 = grafted(root, path, NodeView::Tag(tag2));
        let rel = seq![place];
        assert(tag.children =~= next.take(from));
        assert(path + rel =~= path.push(place));
        assert(edited(NodeView::Tag(tag), rel, Edit::Insert(next[from])) == Ok::<
            NodeView,
            ApplyError,
        >(NodeView::Tag(tag2)));
        lemma_edit_below(root, path, rel, Edit::Insert(next[from]), NodeView::Tag(tag2));
        assert(step(Some(root), patch) == Ok::<Option<NodeView>, ApplyError>(Some(root2)));
        lemma_at_grafted(root, path, NodeView::Tag(tag2));
        assert(tag2.children =~= half_done(prev, next, from + 1));
        lemma_run_children(root2, path, tag2, prev, next, from + 1);
        lemma_grafted_twice(root, path, NodeView::Tag(tag2), last);
        lemma_run_behind(Some(root2), seq![patch], rest, 0);
        assert((seq![patch] + rest)[0] == patch);
    } else if from < prev.len() {
        assert(patches =~= removals(path, prev.len() as int, from));
        lemma_run_removals(root, path, tag, prev.len() as int, from, 0);
        assert(tag.children.take(from) =~= next);
    } else {
        assert(tag.children =~= next);
        lemma_grafted_same(root, path);
    }
}

} // verus!
