//! Carrying out patches on a surface.
//!
//! Patches are carried out in their order, and a pass over a list of patches
//! carries out all of them or none: the first one that cannot be carried out
//! ends the pass, the failure says which patch it was and why, and the
//! surface is left as it was before the pass.

use crate::differ::{tree_views, TreePatch, TreePatchView};
use crate::keyed::{patched, Content};
use crate::patch::Patch;
use crate::surface::Surface;
use crate::vnode::{lemma_tag_view, node_views, NodeView, VNode};
use crate::vtag::{Listeners, TagView};
use vstd::prelude::*;

verus! {

/// Why a patch could not be carried out.
#[derive(Debug, Clone, Copy, PartialEq, Eq)]
pub enum ApplyError {
    /// The backend has no element where the patch needs one: the path leads
    /// nowhere, or to a text where an element is needed.
    NoSuchElement,
    /// A node was to be added where the backend already has one.
    Occupied,
    /// A listener was to be attached for a kind of event that the element
    /// already has a subscription for.
    AlreadyAttached,
    /// A listener was to be detached or replaced for a kind of event that the
    /// element has no subscription for.
    NotAttached,
}

impl ApplyError {
    /// Whether the error is a misuse of the listeners of an element, and not
    /// a position that the backend lacks.
    pub open spec fn structural(self) -> bool {
        self is AlreadyAttached || self is NotAttached
    }

    /// Whether the error is a misuse of the listeners of an element, and not
    /// a position that the backend lacks.
    pub fn is_structural(&self) -> (b: bool)
        ensures
            b == self.structural(),
    {
        match self {
            ApplyError::AlreadyAttached => true,
            ApplyError::NotAttached => true,
            _ => false,
        }
    }
}

/// A pass that ended early.
#[derive(Debug, Clone, Copy, PartialEq, Eq)]
pub struct Failure {
    /// The place in the list of the patch that could not be carried out. The
    /// patches before it were carried out, it and those after it were not.
    pub at: usize,
    /// Why it could not be carried out.
    pub error: ApplyError,
}

/// What a patch does at the node that its path leads to.
pub enum Edit {
    /// Patches an attribute of the element.
    Attribute(Patch<Seq<char>, Seq<char>>),
    /// Patches a class of the element.
    Class(Patch<Seq<char>, ()>),
    /// Attaches, replaces or detaches a listener of the element.
    Listener(Patch<Seq<char>, u64>),
    /// Adds the node, where there is none yet.
    Insert(NodeView),
    /// Puts the node in the place of the one that is there.
    Replace(NodeView),
    /// Removes the node that is there.
    Delete,
}

/// The path of a patch.
pub open spec fn path_of(patch: TreePatchView) -> Seq<usize> {
    match patch {
        TreePatchView::Attribute(path, _) => path,
        TreePatchView::Class(path, _) => path,
        TreePatchView::Listener(path, _) => path,
        TreePatchView::Node(p) => p.target(),
    }
}

/// What a patch does where its path leads.
pub open spec fn edit_of(patch: TreePatchView) -> Edit {
    match patch {
        TreePatchView::Attribute(_, p) => Edit::Attribute(p),
        TreePatchView::Class(_, p) => Edit::Class(p),
        TreePatchView::Listener(_, p) => Edit::Listener(p),
        TreePatchView::Node(Patch::Add(_, node)) => Edit::Insert(node),
        TreePatchView::Node(Patch::Replace(_, node)) => Edit::Replace(node),
        TreePatchView::Node(Patch::Remove(_)) => Edit::Delete,
    }
}

/// What a patch of a listener makes of the subscriptions of an element.
/// Attaching needs the kind to be free; replacing and detaching need it to
/// be taken.
pub open spec fn subscribed(
    listeners: Map<Seq<char>, u64>,
    patch: Patch<Seq<char>, u64>,
) -> Result<Map<Seq<char>, u64>, ApplyError> {
    match patch {
        Patch::Add(kind, callback) => if listeners.contains_key(kind) {
            Err(ApplyError::AlreadyAttached)
        } else {
            Ok(listeners.insert(kind, callback))
        },
        Patch::Replace(kind, callback) => if listeners.contains_key(kind) {
            Ok(listeners.insert(kind, callback))
        } else {
            Err(ApplyError::NotAttached)
        },
        Patch::Remove(kind) => if listeners.contains_key(kind) {
            Ok(listeners.remove(kind))
        } else {
            Err(ApplyError::NotAttached)
        },
    }
}

/// What an edit makes of the node it is meant for.
pub open spec fn edited_here(node: NodeView, edit: Edit) -> Result<NodeView, ApplyError> {
    match edit {
        Edit::Replace(next) => Ok(next),
        Edit::Insert(_) => Err(ApplyError::Occupied),
        Edit::Delete => Err(ApplyError::NoSuchElement),
        Edit::Attribute(p) => match node {
            NodeView::Tag(tag) => Ok(
                NodeView::Tag(TagView { attributes: patched(tag.attributes, p), ..tag }),
            ),
            NodeView::Text(_) => Err(ApplyError::NoSuchElement),
        },
        Edit::Class(p) => match node {
            NodeView::Tag(tag) => Ok(NodeView::Tag(TagView { classes: patched(tag.classes, p), ..tag })),
            NodeView::Text(_) => Err(ApplyError::NoSuchElement),
        },
        Edit::Listener(p) => match node {
            NodeView::Tag(tag) => match subscribed(tag.listeners, p) {
                Ok(listeners) => Ok(NodeView::Tag(TagView { listeners, ..tag })),
                Err(e) => Err(e),
            },
            NodeView::Text(_) => Err(ApplyError::NoSuchElement),
        },
    }
}

/// What an edit makes of the children of an element when it is meant for
/// the child at `place`: a node is added only right after the last child, and
/// removing a child moves the later ones up.
pub open spec fn edited_child(children: Seq<NodeView>, place: int, edit: Edit) -> Result<
    Seq<NodeView>,
    ApplyError,
> {
    match edit {
        Edit::Insert(next) => if place == children.len() {
            Ok(children.push(next))
        } else if 0 <= place < children.len() {
            Err(ApplyError::Occupied)
        } else {
            Err(ApplyError::NoSuchElement)
        },
        Edit::Delete => if 0 <= place < children.len() {
            Ok(children.remove(place))
        } else {
            Err(ApplyError::NoSuchElement)
        },
        _ => if 0 <= place < children.len() {
            match edited_here(children[place], edit) {
                Ok(child) => Ok(children.update(place, child)),
                Err(e) => Err(e),
            }
        } else {
            Err(ApplyError::NoSuchElement)
        },
    }
}

/// What an edit makes of `node` when it is meant for the node that `path`
/// leads to from there. A path that is not empty needs elements all the way.
pub open spec fn edited(node: NodeView, path: Seq<usize>, edit: Edit) -> Result<NodeView, ApplyError>
    decreases path.len(),
{
    if path.len() == 0 {
        edited_here(node, edit)
    } else {
        match node {
            NodeView::Text(_) => Err(ApplyError::NoSuchElement),
            NodeView::Tag(tag) => {
                let place = path[0] as int;
                let below = if path.len() == 1 {
                    edited_child(tag.children, place, edit)
                } else if place < tag.children.len() {
                    match edited(tag.children[place], path.drop_first(), edit) {
                        Ok(child) => Ok(tag.children.update(place, child)),
                        Err(e) => Err(e),
                    }
                } else {
                    Err(ApplyError::NoSuchElement)
                };
                match below {
                    Ok(children) => Ok(NodeView::Tag(TagView { children, ..tag })),
                    Err(e) => Err(e),
                }
            },
        }
    }
}

/// What one patch makes of the tree that a surface shows. At the root a node
/// is added only where none is shown, and removing the root leaves nothing.
pub open spec fn step(tree: Option<NodeView>, patch: TreePatchView) -> Result<
    Option<NodeView>,
    ApplyError,
> {
    let path = path_of(patch);
    let edit = edit_of(patch);
    match tree {
        None => if path.len() == 0 && edit is Insert {
            Ok(Some(edit->Insert_0))
        } else {
            Err(ApplyError::NoSuchElement)
        },
        Some(node) => if path.len() == 0 && edit is Delete {
            Ok(None)
        } else {
            match edited(node, path, edit) {
                Ok(next) => Ok(Some(next)),
                Err(e) => Err(e),
            }
        },
    }
}

/// How a pass ends.
pub struct Pass {
    /// The tree shown after the pass.
    pub tree: Option<NodeView>,
    /// The first patch that could not be carried out, by its place in the
    /// list, and why; `None` if all were carried out.
    pub failure: Option<(int, ApplyError)>,
}

/// The pass over the patches from place `from` on: each is carried out on
/// what the one before it left, up to the first that cannot be.
pub open spec fn run(tree: Option<NodeView>, patches: Seq<TreePatchView>, from: int) -> Pass
    decreases patches.len() - from,
{
    if from < 0 || from >= patches.len() {
        Pass { tree, failure: None }
    } else {
        match step(tree, patches[from]) {
            Ok(next) => run(next, patches, from + 1),
            Err(e) => Pass { tree, failure: Some((from, e)) },
        }
    }
}

impl TreePatch {
    /// The path of the patch.
    pub fn path(&self) -> (path: &Vec<usize>)
        ensures
            path@ == path_of(self@),
    {
        match self {
            TreePatch::Attribute(path, _) => path,
            TreePatch::Class(path, _) => path,
            TreePatch::Listener(path, _) => path,
            TreePatch::Node(Patch::Add(path, _)) => path,
            TreePatch::Node(Patch::Replace(path, _)) => path,
            TreePatch::Node(Patch::Remove(path)) => path,
        }
    }
}

/// Attaches, replaces or detaches a listener, if the subscriptions allow it.
pub fn subscribe(listeners: &mut Listeners, patch: &Patch<String, u64>) -> (result: Result<
    (),
    ApplyError,
>)
    ensures
        match result {
            Ok(()) => subscribed(old(listeners)@, patch@) == Ok::<_, ApplyError>(final(listeners)@),
            Err(e) => subscribed(old(listeners)@, patch@) == Err::<Map<Seq<char>, u64>, _>(e)
                && final(listeners)@ == old(listeners)@,
        },
{
    match patch {
        Patch::Add(kind, callback) => {
            if listeners.contains_key(kind.as_str()) {
                Err(ApplyError::AlreadyAttached)
            } else {
                listeners.set(kind.clone(), *callback);
                Ok(())
            }
        },
        Patch::Replace(kind, callback) => {
            if listeners.contains_key(kind.as_str()) {
                listeners.set(kind.clone(), *callback);
                Ok(())
            } else {
                Err(ApplyError::NotAttached)
            }
        },
        Patch::Remove(kind) => {
            if listeners.contains_key(kind.as_str()) {
                listeners.remove(kind.as_str());
                Ok(())
            } else {
                Err(ApplyError::NotAttached)
            }
        },
    }
}

/// Carries out a patch on the node it is meant for.
fn edit_here(node: &mut VNode, patch: &TreePatch) -> (result: Result<(), ApplyError>)
    ensures
        match result {
            Ok(()) => edited_here(old(node)@, edit_of(patch@)) == Ok::<_, ApplyError>(final(node)@),
            Err(e) => final(node)@ == old(node)@ && edited_here(old(node)@, edit_of(patch@))
                == Err::<NodeView, _>(e),
        },
{
    match patch {
        TreePatch::Node(Patch::Replace(_, next)) => {
            *node = next.duplicate();
            Ok(())
        },
        TreePatch::Node(Patch::Add(_, _)) => Err(ApplyError::Occupied),
        TreePatch::Node(Patch::Remove(_)) => Err(ApplyError::NoSuchElement),
        TreePatch::Attribute(_, p) => match node {
            VNode::Tag(tag) => {
                tag.attributes.patch(p);
                Ok(())
            },
            VNode::Text(_) => Err(ApplyError::NoSuchElement),
        },
        TreePatch::Class(_, p) => match node {
            VNode::Tag(tag) => {
                tag.classes.patch(p);
                Ok(())
            },
            VNode::Text(_) => Err(ApplyError::NoSuchElement),
        },
        TreePatch::Listener(_, p) => match node {
            VNode::Tag(tag) => subscribe(&mut tag.listeners, p),
            VNode::Text(_) => Err(ApplyError::NoSuchElement),
        },
    }
}

/// Carries out a patch that is meant for the child at `place`.
fn edit_child(children: &mut Vec<VNode>, place: usize, patch: &TreePatch) -> (result: Result<
    (),
    ApplyError,
>)
    ensures
        match result {
            Ok(()) => edited_child(node_views(old(children)@), place as int, edit_of(patch@)) == Ok::<
                _,
                ApplyError,
            >(node_views(final(children)@)),
            Err(e) => node_views(final(children)@) == node_views(old(children)@) && edited_child(
                node_views(old(children)@),
                place as int,
                edit_of(patch@),
            ) == Err::<Seq<NodeView>, _>(e),
        },
{
    let ghost before = node_views(children@);
    match patch {
        TreePatch::Node(Patch::Add(_, next)) => {
            if place == children.len() {
                children.push(next.duplicate());
                proof {
                    assert(node_views(children@) =~= before.push(next@));
                }
                Ok(())
            } else if place < children.len() {
                Err(ApplyError::Occupied)
            } else {
                Err(ApplyError::NoSuchElement)
            }
        },
        TreePatch::Node(Patch::Remove(_)) => {
            if place < children.len() {
                children.remove(place);
                proof {
                    assert(node_views(children@) =~= before.remove(place as int));
                }
                Ok(())
            } else {
                Err(ApplyError::NoSuchElement)
            }
        },
        _ => {
            if place < children.len() {
                let result = edit_here(&mut children[place], patch);
                proof {
                    if result is Ok {
                        assert(node_views(children@) =~= before.update(
                            place as int,
                            children@[place as int]@,
                        ));
                    } else {
                        assert(node_views(children@) =~= before);
                    }
                }
                result
            } else {
                Err(ApplyError::NoSuchElement)
            }
        },
    }
}

/// Carries out a patch on `node`, for the node that the rest of the path from
/// place `depth` on leads to from there.
fn edit_node(node: &mut VNode, patch: &TreePatch, path: &Vec<usize>, depth: usize) -> (result:
    Result<(), ApplyError>)
    requires
        depth <= path@.len(),
    ensures
        match result {
            Ok(()) => edited(old(node)@, path@.skip(depth as int), edit_of(patch@)) == Ok::<
                _,
                ApplyError,
            >(final(node)@),
            Err(e) => final(node)@ == old(node)@ && edited(
                old(node)@,
                path@.skip(depth as int),
                edit_of(patch@),
            ) == Err::<NodeView, _>(e),
        },
    decreases path@.len() - depth,
{
    if depth == path.len() {
        return edit_here(node, patch);
    }
    let ghost rest = path@.skip(depth as int);
    let place = path[depth];
    proof {
        assert(rest[0] == place);
        assert(rest.drop_first() =~= path@.skip(depth + 1));
    }
    match node {
        VNode::Text(_) => Err(ApplyError::NoSuchElement),
        VNode::Tag(tag) => {
            let ghost was = *tag;
            proof {
                lemma_tag_view(was);
            }
            let result = if depth + 1 == path.len() {
                edit_child(&mut tag.children, place, patch)
            } else if place < tag.children.len() {
                let ghost before = node_views(tag.children@);
                let below = edit_node(&mut tag.children[place], patch, path, depth + 1);
                proof {
                    if below is Ok {
                        assert(node_views(tag.children@) =~= before.update(
                            place as int,
                            tag.children@[place as int]@,
                        ));
                    } else {
                        assert(node_views(tag.children@) =~= before);
                    }
                }
                below
            } else {
                Err(ApplyError::NoSuchElement)
            };
            proof {
                lemma_tag_view(*tag);
            }
            result
        },
    }
}

/// Carries out one patch on the tree that the surface shows. If the patch
/// cannot be carried out, the surface stays as it was.
pub fn apply_one(surface: &mut Surface, patch: &TreePatch) -> (result: Result<(), ApplyError>)
    ensures
        final(surface)@.root == old(surface)@.root,
        match result {
            Ok(()) => step(old(surface)@.tree, patch@) == Ok::<_, ApplyError>(final(surface)@.tree),
            Err(e) => final(surface)@ == old(surface)@ && step(old(surface)@.tree, patch@) == Err::<
                Option<NodeView>,
                _,
            >(e),
        },
{
    let path = patch.path();
    let mut tree: Option<VNode> = None;
    std::mem::swap(&mut tree, &mut surface.tree);
    match tree {
        None => {
            if path.len() == 0 {
                if let TreePatch::Node(Patch::Add(_, next)) = patch {
                    surface.tree = Some(next.duplicate());
                    return Ok(());
                }
            }
            Err(ApplyError::NoSuchElement)
        },
        Some(mut node) => {
            if path.len() == 0 {
                if let TreePatch::Node(Patch::Remove(_)) = patch {
                    return Ok(());
                }
            }
            proof {
                assert(path@.skip(0) =~= path@);
            }
            let result = edit_node(&mut node, patch, path, 0);
            surface.tree = Some(node);
            result
        },
    }
}

/// Carries out the patches in their order on the surface itself, up to the
/// first one that cannot be carried out.
pub(crate) fn carry_out(patches: &Vec<TreePatch>, surface: &mut Surface) -> (result: Result<
    (),
    Failure,
>)
    ensures
        final(surface)@.root == old(surface)@.root,
        final(surface)@.tree == run(old(surface)@.tree, tree_views(patches@), 0).tree,
        match result {
            Ok(()) => run(old(surface)@.tree, tree_views(patches@), 0).failure is None,
            Err(failure) => run(old(surface)@.tree, tree_views(patches@), 0).failure == Some(
                (failure.at as int, failure.error),
            ),
        },
{
    let ghost start = surface@.tree;
    let mut i: usize = 0;
    while i < patches.len()
        invariant
            i <= patches@.len(),
            surface@.root == old(surface)@.root,
            start == old(surface)@.tree,
            run(surface@.tree, tree_views(patches@), i as int) == run(start, tree_views(patches@), 0),
        decreases patches@.len() - i,
    {
        proof {
            assert(tree_views(patches@)[i as int] == patches@[i as int]@);
        }
        match apply_one(surface, &patches[i]) {
            Ok(()) => {},
            Err(error) => {
                return Err(Failure { at: i, error });
            },
        }
        i += 1;
    }
    Ok(())
}

/// Carries out the patches in their order, all of them or none. The first
/// one that cannot be carried out ends the pass: the failure names it, and
/// the surface is left as it was before the pass.
pub fn apply(patches: &Vec<TreePatch>, surface: &mut Surface) -> (result: Result<(), Failure>)
    ensures
        final(surface)@.root == old(surface)@.root,
        match result {
            Ok(()) => {
                &&& run(old(surface)@.tree, tree_views(patches@), 0).failure is None
                &&& final(surface)@.tree == run(old(surface)@.tree, tree_views(patches@), 0).tree
            },
            Err(failure) => {
                &&& run(old(surface)@.tree, tree_views(patches@), 0).failure == Some(
                    (failure.at as int, failure.error),
                )
                &&& final(surface)@ == old(surface)@
            },
        },
{
    let mut trial = Surface {
        root: surface.root,
        tree: match &surface.tree {
            Some(node) => Some(node.duplicate()),
            None => None,
        },
    };
    match carry_out(patches, &mut trial) {
        Ok(()) => {
            surface.tree = trial.tree;
            Ok(())
        },
        Err(failure) => Err(failure),
    }
}

} // verus!
