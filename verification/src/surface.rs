//! The rendering surface as this library knows it.

use crate::vnode::{
    at, lemma_tag_view, lemma_view_well_formed, tree_well_formed, NodeView, VNode,
};
use vstd::prelude::*;

verus! {

/// A place where a tree is shown: the backend element that the tree hangs
/// from, named by a number, and the tree that is shown there, if any.
///
/// The tree held here is the one that the backend shows. A listener in it
/// stands for a live subscription: it is known by the element it is attached
/// to and the kind of event, and an element has one subscription per kind at
/// most.
#[derive(Debug, PartialEq, Eq)]
pub struct Surface {
    /// The backend element under which the tree is shown.
    pub root: u64,
    /// The tree shown.
    pub tree: Option<VNode>,
}

/// What a surface holds, whatever way it is held in memory.
pub struct SurfaceView {
    /// The backend element under which the tree is shown.
    pub root: u64,
    /// The tree shown.
    pub tree: Option<NodeView>,
}

impl View for Surface {
    type V = SurfaceView;

    open spec fn view(&self) -> SurfaceView {
        SurfaceView {
            root: self.root,
            tree: match self.tree {
                Some(node) => Some(node@),
                None => None,
            },
        }
    }
}

/// The callback that is subscribed to events of `kind` at the element that
/// `path` leads to in `tree`, if there is such a subscription.
pub open spec fn subscription(tree: Option<NodeView>, path: Seq<usize>, kind: Seq<char>) -> Option<
    u64,
> {
    match tree {
        None => None,
        Some(root) => match at(root, path) {
            Some(NodeView::Tag(tag)) => if tag.listeners.contains_key(kind) {
                Some(tag.listeners[kind])
            } else {
                None
            },
            _ => None,
        },
    }
}

impl Surface {
    /// A surface under the backend element `root` that shows nothing yet.
    pub fn new(root: u64) -> (surface: Surface)
        ensures
            surface@ == (SurfaceView { root, tree: None }),
    {
        Surface { root, tree: None }
    }

    /// A surface under the backend element `root` that shows `tree`.
    pub fn showing(root: u64, tree: VNode) -> (surface: Surface)
        ensures
            surface@ == (SurfaceView { root, tree: Some(tree@) }),
    {
        Surface { root, tree: Some(tree) }
    }
}

impl Surface {
    /// The callback that answers an event of `kind` at the element that
    /// `path` leads to. There is none where the surface has no such element
    /// or the element no subscription for the kind: an event that comes for a
    /// listener that was detached finds none.
    pub fn subscription(&self, path: &Vec<usize>, kind: &str) -> (callback: Option<u64>)
        ensures
            callback == subscription(self@.tree, path@, kind@),
    {
        match &self.tree {
            None => None,
            Some(root) => match root.at(path) {
                Some(VNode::Tag(tag)) => {
                    proof {
                        lemma_tag_view(*tag);
                    }
                    match tag.listeners.get(kind) {
                        Some(callback) => Some(*callback),
                        None => None,
                    }
                },
                _ => None,
            },
        }
    }
}

/// What a surface shows is well formed.
pub proof fn lemma_shown_well_formed(surface: Surface)
    ensures
        tree_well_formed(surface@.tree),
{
    match surface.tree {
        Some(node) => lemma_view_well_formed(node),
        None => {},
    }
}

} // verus!
