//! The patches that turn one tree into another.
//!
//! A node is compared with the node at the same place of the other tree.
//! Elements of one tag name are told apart field by field: attributes, then
//! classes, then listeners, each in key order, then the children place by
//! place. Anything else that differs is replaced whole.

use crate::keyed::{changes, Content, Keyed};
use crate::patch::{views, Patch};
use crate::surface::Surface;
use crate::vnode::{option_view, NodeView, VNode};
use crate::vtag::{TagView, VTag};
use vstd::prelude::*;

verus! {

broadcast use vstd::std_specs::vec::axiom_vec_index_decreases;

/// One patch of a tree. The path in it leads from the root to a node: each
/// number is the place of a child among the children of the node before.
#[derive(Debug, PartialEq, Eq)]
pub enum TreePatch {
    /// A patch of an attribute of the element at the path.
    Attribute(Vec<usize>, Patch<String, String>),
    /// A patch of a class of the element at the path.
    Class(Vec<usize>, Patch<String, ()>),
    /// A patch of the listener for a kind of event at the element at the
    /// path; the value is the callback reference.
    Listener(Vec<usize>, Patch<String, u64>),
    /// A patch of the node at the path.
    Node(Patch<Vec<usize>, VNode>),
}

/// What a patch of a tree says, whatever way it is held in memory.
pub enum TreePatchView {
    /// A patch of an attribute of the element at the path.
    Attribute(Seq<usize>, Patch<Seq<char>, Seq<char>>),
    /// A patch of a class of the element at the path.
    Class(Seq<usize>, Patch<Seq<char>, ()>),
    /// A patch of a listener of the element at the path.
    Listener(Seq<usize>, Patch<Seq<char>, u64>),
    /// A patch of the node at the path.
    Node(Patch<Seq<usize>, NodeView>),
}

impl View for TreePatch {
    type V = TreePatchView;

    open spec fn view(&self) -> TreePatchView {
        match *self {
            TreePatch::Attribute(path, patch) => TreePatchView::Attribute(path@, patch@),
            TreePatch::Class(path, patch) => TreePatchView::Class(path@, patch@),
            TreePatch::Listener(path, patch) => TreePatchView::Listener(path@, patch@),
            TreePatch::Node(patch) => TreePatchView::Node(patch@),
        }
    }
}

/// The patches of a list, each by its view.
pub open spec fn tree_views(patches: Seq<TreePatch>) -> Seq<TreePatchView> {
    Seq::new(patches.len(), |i: int| patches[i]@)
}

/// The patches of an element's own fields on the way from `prev` to `next`:
/// those of the attributes, then of the classes, then of the listeners.
pub open spec fn own_patches(path: Seq<usize>, prev: TagView, next: TagView) -> Seq<TreePatchView> {
    attribute_patches(path, changes(prev.attributes, next.attributes)) + class_patches(
        path,
        changes(prev.classes, next.classes),
    ) + listener_patches(path, changes(prev.listeners, next.listeners))
}

/// Patches of attributes as patches of the tree, for the element at `path`.
pub open spec fn attribute_patches(
    path: Seq<usize>,
    patches: Seq<Patch<Seq<char>, Seq<char>>>,
) -> Seq<TreePatchView> {
    Seq::new(patches.len(), |i: int| TreePatchView::Attribute(path, patches[i]))
}

/// Patches of classes as patches of the tree, for the element at `path`.
pub open spec fn class_patches(path: Seq<usize>, patches: Seq<Patch<Seq<char>, ()>>) -> Seq<
    TreePatchView,
> {
    Seq::new(patches.len(), |i: int| TreePatchView::Class(path, patches[i]))
}

/// Patches of listeners as patches of the tree, for the element at `path`.
pub open spec fn listener_patches(path: Seq<usize>, patches: Seq<Patch<Seq<char>, u64>>) -> Seq<
    TreePatchView,
> {
    Seq::new(patches.len(), |i: int| TreePatchView::Listener(path, patches[i]))
}

/// The patch that puts `next` in the place of the node at `path`.
pub open spec fn replacement(path: Seq<usize>, next: NodeView) -> Seq<TreePatchView> {
    seq![TreePatchView::Node(Patch::Replace(path, next))]
}

/// The patches that turn the node `prev` at `path` into `next`.
///
/// Two texts need a patch only if they differ, and that patch replaces the
/// node. Two elements of one tag name need the patches of their own fields
/// and then those of their children. Any other pair needs the node replaced.
pub open spec fn node_patches(path: Seq<usize>, prev: NodeView, next: NodeView) -> Seq<
    TreePatchView,
>
    decreases prev, 0int,
{
    match (prev, next) {
        (NodeView::Text(a), NodeView::Text(b)) => if a == b {
            Seq::empty()
        } else {
            replacement(path, next)
        },
        (NodeView::Tag(a), NodeView::Tag(b)) => if a.tag == b.tag {
            own_patches(path, a, b) + child_patches(path, a.children, b.children, 0)
        } else {
            replacement(path, next)
        },
        _ => replacement(path, next),
    }
}

/// The patches for the children from place `from` on, under the element at
/// `path`.
///
/// Where both lists have a child at a place, the patches are those that turn
/// the one into the other. Children that only `next` has are added, first to
/// last. Children that only `prev` has are removed, last to first, so that
/// each place still holds the same child when its patch is carried out.
pub open spec fn child_patches(
    path: Seq<usize>,
    prev: Seq<NodeView>,
    next: Seq<NodeView>,
    from: int,
) -> Seq<TreePatchView>
    decreases prev, prev.len() + next.len() - from,
{
    if from < 0 {
        Seq::empty()
    } else if from < prev.len() && from < next.len() {
        node_patches(path.push(from as usize), prev[from], next[from]) + child_patches(
            path,
            prev,
            next,
            from + 1,
        )
    } else if from < next.len() {
        seq![TreePatchView::Node(Patch::Add(path.push(from as usize), next[from]))] + child_patches(
            path,
            prev,
            next,
            from + 1,
        )
    } else if from < prev.len() {
        Seq::new(
            (prev.len() - from) as nat,
            |i: int| TreePatchView::Node(Patch::Remove(path.push((prev.len() - 1 - i) as usize))),
        )
    } else {
        Seq::empty()
    }
}

/// The patches that turn the tree `prev` into `next`, where either may be
/// missing: a tree that appears is added at the root, one that disappears is
/// removed there.
pub open spec fn tree_patches(prev: Option<NodeView>, next: Option<NodeView>) -> Seq<TreePatchView> {
    match (prev, next) {
        (None, None) => Seq::empty(),
        (None, Some(n)) => seq![TreePatchView::Node(Patch::Add(Seq::empty(), n))],
        (Some(_), None) => seq![TreePatchView::Node(Patch::Remove(Seq::empty()))],
        (Some(p), Some(n)) => node_patches(Seq::empty(), p, n),
    }
}

/// A copy of a path.
pub fn copy_path(path: &Vec<usize>) -> (copy: Vec<usize>)
    ensures
        copy@ == path@,
{
    let mut copy: Vec<usize> = Vec::new();
    let mut i: usize = 0;
    while i < path.len()
        invariant
            i <= path@.len(),
            copy@ == path@.take(i as int),
        decreases path@.len() - i,
    {
        copy.push(path[i]);
        proof {
            assert(copy@ =~= path@.take(i + 1));
        }
        i += 1;
    }
    proof {
        assert(path@.take(path@.len() as int) =~= path@);
    }
    copy
}

/// The path to the child at `place` of the node at `path`.
pub fn child_path(path: &Vec<usize>, place: usize) -> (child: Vec<usize>)
    ensures
        child@ == path@.push(place),
{
    let mut child = copy_path(path);
    child.push(place);
    child
}

/// Appends to `out` the patches of attributes as patches of the tree, for
/// the element at `path`.
fn push_attribute_patches(
    out: &mut Vec<TreePatch>,
    path: &Vec<usize>,
    patches: &Vec<Patch<String, String>>,
)
    ensures
        tree_views(final(out)@) == tree_views(old(out)@) + attribute_patches(path@, views(patches@)),
{
    let ghost start = tree_views(out@);
    let mut i: usize = 0;
    while i < patches.len()
        invariant
            i <= patches@.len(),
            tree_views(out@) == start + attribute_patches(path@, views(patches@)).take(i as int),
        decreases patches@.len() - i,
    {
        let ghost before = tree_views(out@);
        out.push(TreePatch::Attribute(copy_path(path), patches[i].duplicate()));
        proof {
            assert(tree_views(out@) =~= before.push(TreePatchView::Attribute(path@, patches@[i as int]@)));
            assert(tree_views(out@) =~= start + attribute_patches(path@, views(patches@)).take(i + 1));
        }
        i += 1;
    }
    proof {
        let all = attribute_patches(path@, views(patches@));
        assert(all.take(all.len() as int) =~= all);
    }
}

/// Appends to `out` the patches of classes as patches of the tree, for the
/// element at `path`.
fn push_class_patches(out: &mut Vec<TreePatch>, path: &Vec<usize>, patches: &Vec<Patch<String, ()>>)
    ensures
        tree_views(final(out)@) == tree_views(old(out)@) + class_patches(path@, views(patches@)),
{
    let ghost start = tree_views(out@);
    let mut i: usize = 0;
    while i < patches.len()
        invariant
            i <= patches@.len(),
            tree_views(out@) == start + class_patches(path@, views(patches@)).take(i as int),
        decreases patches@.len() - i,
    {
        let ghost before = tree_views(out@);
        out.push(TreePatch::Class(copy_path(path), patches[i].duplicate()));
        proof {
            assert(tree_views(out@) =~= before.push(TreePatchView::Class(path@, patches@[i as int]@)));
            assert(tree_views(out@) =~= start + class_patches(path@, views(patches@)).take(i + 1));
        }
        i += 1;
    }
    proof {
        let all = class_patches(path@, views(patches@));
        assert(all.take(all.len() as int) =~= all);
    }
}

/// Appends to `out` the patches of listeners as patches of the tree, for the
/// element at `path`.
fn push_listener_patches(
    out: &mut Vec<TreePatch>,
    path: &Vec<usize>,
    patches: &Vec<Patch<String, u64>>,
)
    ensures
        tree_views(final(out)@) == tree_views(old(out)@) + listener_patches(path@, views(patches@)),
{
    let ghost start = tree_views(out@);
    let mut i: usize = 0;
    while i < patches.len()
        invariant
            i <= patches@.len(),
            tree_views(out@) == start + listener_patches(path@, views(patches@)).take(i as int),
        decreases patches@.len() - i,
    {
        let ghost before = tree_views(out@);
        out.push(TreePatch::Listener(copy_path(path), patches[i].duplicate()));
        proof {
            assert(tree_views(out@) =~= before.push(TreePatchView::Listener(path@, patches@[i as int]@)));
            assert(tree_views(out@) =~= start + listener_patches(path@, views(patches@)).take(i + 1));
        }
        i += 1;
    }
    proof {
        let all = listener_patches(path@, views(patches@));
        assert(all.take(all.len() as int) =~= all);
    }
}

/// Appends to `out` the patch that replaces the node at `path` by `next`.
fn push_replacement(out: &mut Vec<TreePatch>, path: &Vec<usize>, next: &VNode)
    ensures
        tree_views(final(out)@) == tree_views(old(out)@) + replacement(path@, next@),
{
    let ghost before = tree_views(out@);
    out.push(TreePatch::Node(Patch::Replace(copy_path(path), next.duplicate())));
    proof {
        assert(tree_views(out@) =~= before + replacement(path@, next@));
    }
}

/// Appends to `out` the patches that turn the element `prev` at `path` into
/// `next`, its own and those of its children.
fn diff_tag(path: &Vec<usize>, prev: &VTag, next: &VTag, out: &mut Vec<TreePatch>)
    ensures
        tree_views(final(out)@) == tree_views(old(out)@) + (own_patches(path@, prev@, next@)
            + child_patches(path@, prev@.children, next@.children, 0)),
    decreases prev,
{
    let ghost start = tree_views(out@);
    let ghost pc = prev@.children;
    let ghost nc = next@.children;
    let attributes = Keyed::diff(&prev.attributes, &next.attributes);
    push_attribute_patches(out, path, &attributes);
    let classes = Keyed::diff(&prev.classes, &next.classes);
    push_class_patches(out, path, &classes);
    let listeners = Keyed::diff(&prev.listeners, &next.listeners);
    push_listener_patches(out, path, &listeners);
    let ghost own = own_patches(path@, prev@, next@);
    let ghost total = start + (own + child_patches(path@, pc, nc, 0));
    proof {
        assert(tree_views(out@) =~= start + own);
        assert(tree_views(out@) + child_patches(path@, pc, nc, 0) =~= total);
    }
    let n_prev = prev.children.len();
    let n_next = next.children.len();
    let mut i: usize = 0;
    while i < n_prev && i < n_next
        invariant
            n_prev == prev.children@.len(),
            n_next == next.children@.len(),
            pc == prev@.children,
            nc == next@.children,
            i <= n_prev,
            i <= n_next,
            tree_views(out@) + child_patches(path@, pc, nc, i as int) == total,
        decreases n_prev - i,
    {
        let ghost before = tree_views(out@);
        let place = child_path(path, i);
        diff_node(&place, &prev.children[i], &next.children[i], out);
        proof {
            let here = node_patches(path@.push(i), pc[i as int], nc[i as int]);
            assert(tree_views(out@) == before + here);
            assert(child_patches(path@, pc, nc, i as int) == here + child_patches(path@, pc, nc, i + 1));
            assert(tree_views(out@) + child_patches(path@, pc, nc, i + 1) =~= before + child_patches(
                path@,
                pc,
                nc,
                i as int,
            ));
        }
        i += 1;
    }
    while i < n_next
        invariant
            n_prev == prev.children@.len(),
            n_next == next.children@.len(),
            pc == prev@.children,
            nc == next@.children,
            i <= n_next,
            i < n_next ==> n_prev <= i,
            tree_views(out@) + child_patches(path@, pc, nc, i as int) == total,
        decreases n_next - i,
    {
        let ghost before = tree_views(out@);
        out.push(TreePatch::Node(Patch::Add(child_path(path, i), next.children[i].duplicate())));
        proof {
            let here = seq![TreePatchView::Node(Patch::Add(path@.push(i), nc[i as int]))];
            assert(tree_views(out@) =~= before + here);
            assert(child_patches(path@, pc, nc, i as int) == here + child_patches(path@, pc, nc, i + 1));
            assert(tree_views(out@) + child_patches(path@, pc, nc, i + 1) =~= before + child_patches(
                path@,
                pc,
                nc,
                i as int,
            ));
        }
        i += 1;
    }
    let ghost base = tree_views(out@);
    let mut k: usize = n_prev;
    while k > i
        invariant
            n_prev == prev.children@.len(),
            pc.len() == n_prev,
            i <= k <= n_prev || (n_prev < i && k == n_prev),
            tree_views(out@) == base + Seq::new(
                (n_prev - k) as nat,
                |x: int| TreePatchView::Node(Patch::Remove(path@.push((pc.len() - 1 - x) as usize))),
            ),
        decreases k,
    {
        let ghost before = tree_views(out@);
        k -= 1;
        out.push(TreePatch::Node(Patch::Remove(child_path(path, k))));
        proof {
            assert(tree_views(out@) =~= before.push(TreePatchView::Node(Patch::Remove(path@.push(k)))));
            assert(tree_views(out@) =~= base + Seq::new(
                (n_prev - k) as nat,
                |x: int| TreePatchView::Node(Patch::Remove(path@.push((pc.len() - 1 - x) as usize))),
            ));
        }
    }
    proof {
        let rest = child_patches(path@, pc, nc, i as int);
        if i < n_prev {
            assert(rest =~= Seq::new(
                (n_prev - i) as nat,
                |x: int| TreePatchView::Node(Patch::Remove(path@.push((pc.len() - 1 - x) as usize))),
            ));
        } else {
            assert(rest =~= Seq::empty());
        }
        assert(tree_views(out@) =~= base + rest);
    }
}

/// Appends to `out` the patches that turn the node `prev` at `path` into
/// `next`.
fn diff_node(path: &Vec<usize>, prev: &VNode, next: &VNode, out: &mut Vec<TreePatch>)
    ensures
        tree_views(final(out)@) == tree_views(old(out)@) + node_patches(path@, prev@, next@),
    decreases prev,
{
    let ghost start = tree_views(out@);
    match (prev, next) {
        (VNode::Text(a), VNode::Text(b)) => {
            if !a.same(b) {
                push_replacement(out, path, next);
            } else {
                proof {
                    assert(tree_views(out@) =~= start + node_patches(path@, prev@, next@));
                }
            }
        },
        (VNode::Tag(a), VNode::Tag(b)) => {
            if a.tag == b.tag {
                diff_tag(path, a, b, out);
            } else {
                push_replacement(out, path, next);
            }
        },
        _ => {
            push_replacement(out, path, next);
        },
    }
}

/// The patches that turn the tree `prev` into `next`. Either may be missing:
/// a tree where there was none is added whole at the root, and a tree that
/// is no longer there is removed at the root.
pub fn diff_nodes(prev: Option<&VNode>, next: Option<&VNode>) -> (patches: Vec<TreePatch>)
    ensures
        tree_views(patches@) == tree_patches(option_view(prev), option_view(next)),
        patches@.len() == tree_patches(option_view(prev), option_view(next)).len(),
{
    let mut patches: Vec<TreePatch> = Vec::new();
    let root: Vec<usize> = Vec::new();
    proof {
        assert(tree_views(patches@) =~= Seq::empty());
    }
    match (prev, next) {
        (None, None) => {},
        (None, Some(n)) => {
            patches.push(TreePatch::Node(Patch::Add(root, n.duplicate())));
            proof {
                assert(tree_views(patches@) =~= tree_patches(option_view(prev), option_view(next)));
            }
        },
        (Some(_), None) => {
            patches.push(TreePatch::Node(Patch::Remove(root)));
            proof {
                assert(tree_views(patches@) =~= tree_patches(option_view(prev), option_view(next)));
            }
        },
        (Some(p), Some(n)) => {
            diff_node(&root, p, n, &mut patches);
            proof {
                assert(tree_views(patches@) =~= tree_patches(option_view(prev), option_view(next)));
            }
        },
    }
    proof {
        assert(tree_views(patches@).len() == patches@.len());
    }
    patches
}

/// Why two surfaces could not be compared.
#[derive(Debug, Clone, Copy, PartialEq, Eq)]
pub enum DiffError {
    /// The two trees hang from different backend elements.
    RootMismatch {
        /// The backend element of the tree shown so far.
        prev: u64,
        /// The backend element of the tree to be shown.
        next: u64,
    },
}

/// The patches that turn what `prev` shows into what `next` shows. The two
/// must hang from the same backend element; if they do not, nothing is
/// compared.
pub fn diff(prev: &Surface, next: &Surface) -> (result: Result<Vec<TreePatch>, DiffError>)
    ensures
        match result {
            Ok(patches) => {
                &&& prev@.root == next@.root
                &&& tree_views(patches@) == tree_patches(prev@.tree, next@.tree)
                &&& patches@.len() == tree_patches(prev@.tree, next@.tree).len()
            },
            Err(e) => prev@.root != next@.root && e == (DiffError::RootMismatch {
                prev: prev@.root,
                next: next@.root,
            }),
        },
{
    if prev.root != next.root {
        return Err(DiffError::RootMismatch { prev: prev.root, next: next.root });
    }
    Ok(diff_nodes(prev.tree.as_ref(), next.tree.as_ref()))
}

} // verus!
