//! What holds of comparing trees and carrying out the patches, whatever the
//! trees are.

use crate::applier::{run, Pass};
use crate::differ::{child_patches, node_patches, own_patches, tree_patches, TreePatchView};
use crate::keyed::{changes, in_key_order, lemma_no_changes};
use crate::keyed_laws::lemma_changes_exist;
use crate::patch::Patch;
use crate::soundness::lemma_run_node;
use crate::subscriptions::{below, ended, lemma_below_found, SubscriptionView};
use crate::surface::subscription;
use crate::vnode::{tree_well_formed, well_formed, NodeView};
use vstd::prelude::*;

verus! {

/// The changes between two finite maps, key by key: a key that only the new
/// map has is added with its new value, a key of both maps whose value
/// differs is replaced by its new value, a key that only the old map has is
/// removed, and a key that has one value in both maps gets no patch. The
/// patches come in ascending order of their keys, so no key gets two.
pub proof fn law_changes_by_key<V>(old: Map<Seq<char>, V>, new: Map<Seq<char>, V>, k: Seq<char>)
    requires
        old.dom().finite(),
        new.dom().finite(),
    ensures
        in_key_order(changes(old, new)),
        changes(old, new).contains(Patch::Add(k, new[k])) <==> !old.contains_key(k)
            && new.contains_key(k),
        changes(old, new).contains(Patch::Replace(k, new[k])) <==> old.contains_key(k)
            && new.contains_key(k) && old[k] != new[k],
        changes(old, new).contains(Patch::Remove(k)) <==> old.contains_key(k) && !new.contains_key(k),
        forall|p: Patch<Seq<char>, V>|
            changes(old, new).contains(p) && p.target() == k ==> p == Patch::Add(k, new[k]) || p
                == Patch::Replace(k, new[k]) || p == Patch::<Seq<char>, V>::Remove(k),
        old.contains_key(k) && new.contains_key(k) && old[k] == new[k] ==> forall|
            p: Patch<Seq<char>, V>,
        | changes(old, new).contains(p) ==> p.target() != k,
{
    lemma_changes_exist(old, new);
}

/// A node needs no patch to become itself, wherever it stands.
pub proof fn lemma_same_node(path: Seq<usize>, node: NodeView)
    ensures
        node_patches(path, node, node) == Seq::<TreePatchView>::empty(),
    decreases node, 0int,
{
    match node {
        NodeView::Text(_) => {},
        NodeView::Tag(tag) => {
            lemma_no_changes(tag.attributes);
            lemma_no_changes(tag.classes);
            lemma_no_changes(tag.listeners);
            assert(own_patches(path, tag, tag) =~= Seq::empty());
            lemma_same_children(path, tag.children, 0);
            assert(node_patches(path, node, node) =~= Seq::empty());
        },
    }
}

/// The children of an element need no patch to become themselves.
pub proof fn lemma_same_children(path: Seq<usize>, children: Seq<NodeView>, from: int)
    ensures
        child_patches(path, children, children, from) == Seq::<TreePatchView>::empty(),
    decreases children, 2 * children.len() - from,
{
    if 0 <= from < children.len() {
        lemma_same_node(path.push(from as usize), children[from]);
        lemma_same_children(path, children, from + 1);
        assert(child_patches(path, children, children, from) =~= Seq::empty());
    }
}

/// Comparing a tree with itself gives no patch.
pub proof fn law_same_tree_no_patch(tree: Option<NodeView>)
    ensures
        tree_patches(tree, tree) == Seq::<TreePatchView>::empty(),
{
    match tree {
        Some(node) => {
            lemma_same_node(Seq::empty(), node);
        },
        None => {},
    }
}

/// Where nothing was shown, a tree is told apart from nothing by one patch,
/// which adds it whole at the root; carried out on a surface that shows
/// nothing, that patch leaves the surface showing the tree.
pub proof fn law_first_tree(tree: NodeView)
    ensures
        tree_patches(None, Some(tree)) == seq![
            TreePatchView::Node(Patch::Add(Seq::empty(), tree)),
        ],
        run(None, tree_patches(None, Some(tree)), 0) == (Pass { tree: Some(tree), failure: None }),
{
    reveal_with_fuel(run, 2);
}

/// A tree that is no longer to be shown is told apart from nothing by one
/// patch, which removes it at the root; that patch ends every subscription
/// in the tree, and carried out on a surface that shows the tree, it leaves
/// nothing shown and no subscription anywhere.
pub proof fn law_tree_removed(tree: NodeView)
    ensures
        tree_patches(Some(tree), None) == seq![TreePatchView::Node(Patch::Remove(Seq::empty()))],
        ended(Some(tree), tree_patches(Some(tree), None)[0]) == below(Seq::empty(), tree),
        run(Some(tree), tree_patches(Some(tree), None), 0) == (Pass { tree: None, failure: None }),
        forall|path: Seq<usize>, kind: Seq<char>|
            subscription(
                run(Some(tree), tree_patches(Some(tree), None), 0).tree,
                path,
                kind,
            ) is None,
{
    reveal_with_fuel(run, 2);
}

/// The subscriptions listed for a tree are those that are found in it: one
/// is listed for a place and a kind of event if and only if the element at
/// that place has a listener for that kind, with that callback.
pub proof fn law_listed_found(node: NodeView, path: Seq<usize>, kind: Seq<char>, callback: u64)
    requires
        well_formed(node),
    ensures
        below(Seq::empty(), node).contains(SubscriptionView { path, kind, callback })
            <==> subscription(Some(node), path, kind) == Some(callback),
{
    assert(Seq::<usize>::empty() + path =~= path);
    lemma_below_found(Seq::empty(), node, path, kind, callback);
}

/// Showing a tree on an empty surface and then showing nothing again leaves
/// the surface as it was at first: both passes go through, and nothing is
/// shown at the end.
pub proof fn law_round_trip(tree: NodeView)
    ensures
        ({
            let shown = run(None, tree_patches(None, Some(tree)), 0);
            let cleared = run(shown.tree, tree_patches(shown.tree, None), 0);
            &&& shown.failure is None
            &&& shown.tree == Some(tree)
            &&& cleared == (Pass { tree: None, failure: None })
        }),
{
    law_first_tree(tree);
    law_tree_removed(tree);
}

/// The patches between a tree and itself, carried out on a surface that
/// shows the tree, leave the surface as it is.
pub proof fn law_same_tree_unchanged(tree: Option<NodeView>)
    ensures
        run(tree, tree_patches(tree, tree), 0) == (Pass { tree, failure: None }),
{
    law_same_tree_no_patch(tree);
}

/// The patches between two trees, carried out in their order on a surface
/// that shows the first tree, all go through and leave the surface showing
/// the second tree.
pub proof fn law_patches_reach(prev: Option<NodeView>, next: Option<NodeView>)
    requires
        tree_well_formed(prev),
        tree_well_formed(next),
    ensures
        run(prev, tree_patches(prev, next), 0) == (Pass { tree: next, failure: None }),
{
    reveal_with_fuel(run, 2);
    match (prev, next) {
        (Some(p), Some(n)) => {
            lemma_run_node(p, Seq::empty(), p, n);
        },
        _ => {},
    }
}

} // verus!
