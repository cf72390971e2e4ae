//! Nodes of the tree: elements and texts.

use crate::keyed::Content;
use crate::vtag::{TagView, VTag};
use crate::vtext::VText;
use vstd::prelude::*;

verus! {

broadcast use vstd::std_specs::vec::axiom_vec_index_decreases;

/// One position in the tree.
#[derive(Debug, PartialEq, Eq)]
pub enum VNode {
    /// An element.
    Tag(VTag),
    /// A text.
    Text(VText),
}

/// What a node is, whatever way it is held in memory.
pub enum NodeView {
    /// An element.
    Tag(TagView),
    /// A text.
    Text(Seq<char>),
}

/// The view of a node: that of its fields, and for an element those of its
/// children in their order.
pub open spec fn node_view(node: VNode) -> NodeView
    decreases node,
{
    match node {
        VNode::Text(text) => NodeView::Text(text@),
        VNode::Tag(tag) => NodeView::Tag(
            TagView {
                tag: tag.tag@,
                attributes: tag.attributes@,
                classes: tag.classes@,
                listeners: tag.listeners@,
                children: Seq::new(
                    tag.children@.len(),
                    |i: int|
                        if 0 <= i < tag.children@.len() {
                            node_view(tag.children@[i])
                        } else {
                            NodeView::Text(Seq::empty())
                        },
                ),
            },
        ),
    }
}

/// The views of the nodes of a list, in their order.
pub open spec fn node_views(nodes: Seq<VNode>) -> Seq<NodeView> {
    Seq::new(nodes.len(), |i: int| nodes[i]@)
}

/// The view of an element field by field: the views of its fields, and the
/// views of its children in their order.
pub proof fn lemma_tag_view(tag: VTag)
    ensures
        tag@.children == node_views(tag.children@),
        tag@.tag == tag.tag@,
        tag@.attributes == tag.attributes@,
        tag@.classes == tag.classes@,
        tag@.listeners == tag.listeners@,
{
    assert(tag@.children =~= node_views(tag.children@));
}

/// The node that `path` leads to from `node`, if it leads to one: each number
/// of the path is the place of a child of the element before.
pub open spec fn at(node: NodeView, path: Seq<usize>) -> Option<NodeView>
    decreases path.len(),
{
    if path.len() == 0 {
        Some(node)
    } else {
        match node {
            NodeView::Text(_) => None,
            NodeView::Tag(tag) => if path[0] < tag.children.len() {
                at(tag.children[path[0] as int], path.drop_first())
            } else {
                None
            },
        }
    }
}

impl View for VNode {
    type V = NodeView;

    open spec fn view(&self) -> NodeView {
        node_view(*self)
    }
}

/// Whether two elements are the same in every field and child.
pub(crate) fn same_tag(a: &VTag, b: &VTag) -> (same: bool)
    ensures
        same == (a@ == b@),
    decreases a,
{
    if !(a.tag == b.tag) || !a.attributes.same(&b.attributes) || !a.classes.same(&b.classes)
        || !a.listeners.same(&b.listeners) || a.children.len() != b.children.len() {
        proof {
            assert(a@.tag == a.tag@ && b@.tag == b.tag@);
            assert(a@.children.len() == a.children@.len() && b@.children.len() == b.children@.len());
        }
        return false;
    }
    let mut i: usize = 0;
    while i < a.children.len()
        invariant
            i <= a.children@.len(),
            a.children@.len() == b.children@.len(),
            forall|m: int| 0 <= m < i ==> node_view(a.children@[m]) == node_view(b.children@[m]),
        decreases a.children@.len() - i,
    {
        if !same_node(&a.children[i], &b.children[i]) {
            proof {
                assert(a@.children[i as int] != b@.children[i as int]);
            }
            return false;
        }
        i += 1;
    }
    proof {
        assert(a@.children =~= b@.children);
    }
    true
}

/// Whether two nodes are the same in every field and child.
pub(crate) fn same_node(a: &VNode, b: &VNode) -> (same: bool)
    ensures
        same == (a@ == b@),
    decreases a,
{
    match (a, b) {
        (VNode::Text(x), VNode::Text(y)) => x.same(y),
        (VNode::Tag(x), VNode::Tag(y)) => same_tag(x, y),
        _ => false,
    }
}

/// A copy of an element with copies of all its children.
pub(crate) fn duplicate_tag(tag: &VTag) -> (copy: VTag)
    ensures
        copy@ == tag@,
    decreases tag,
{
    let mut children: Vec<VNode> = Vec::new();
    let mut i: usize = 0;
    while i < tag.children.len()
        invariant
            i <= tag.children@.len(),
            children@.len() == i,
            forall|m: int| 0 <= m < i ==> node_view(children@[m]) == node_view(tag.children@[m]),
        decreases tag.children@.len() - i,
    {
        children.push(duplicate_node(&tag.children[i]));
        i += 1;
    }
    let copy = VTag {
        tag: tag.tag.clone(),
        attributes: tag.attributes.duplicate(),
        classes: tag.classes.duplicate(),
        listeners: tag.listeners.duplicate(),
        children,
    };
    proof {
        assert(copy@.children =~= tag@.children);
    }
    copy
}

/// A copy of a node with copies of all that is below it.
pub(crate) fn duplicate_node(node: &VNode) -> (copy: VNode)
    ensures
        copy@ == node@,
    decreases node,
{
    match node {
        VNode::Text(text) => VNode::Text(text.duplicate()),
        VNode::Tag(tag) => VNode::Tag(duplicate_tag(tag)),
    }
}

impl Content for VNode {
    fn same(&self, other: &Self) -> (b: bool) {
        same_node(self, other)
    }

    fn duplicate(&self) -> (copy: Self) {
        duplicate_node(self)
    }
}

/// The view of a node that may be missing.
pub open spec fn option_view(node: Option<&VNode>) -> Option<NodeView> {
    match node {
        Some(n) => Some(n@),
        None => None,
    }
}

impl VNode {
    /// The node that the path leads to from this one, from place `depth` of
    /// the path on.
    fn descend<'a>(&'a self, path: &Vec<usize>, depth: usize) -> (found: Option<&'a VNode>)
        requires
            depth <= path@.len(),
        ensures
            option_view(found) == at(self@, path@.skip(depth as int)),
        decreases path@.len() - depth,
    {
        if depth == path.len() {
            return Some(self);
        }
        proof {
            assert(path@.skip(depth as int)[0] == path@[depth as int]);
            assert(path@.skip(depth as int).drop_first() =~= path@.skip(depth + 1));
        }
        match self {
            VNode::Text(_) => None,
            VNode::Tag(tag) => {
                proof {
                    lemma_tag_view(*tag);
                }
                let place = path[depth];
                if place < tag.children.len() {
                    tag.children[place].descend(path, depth + 1)
                } else {
                    None
                }
            },
        }
    }

    /// The node that `path` leads to from this one, if it leads to one.
    pub fn at<'a>(&'a self, path: &Vec<usize>) -> (found: Option<&'a VNode>)
        ensures
            option_view(found) == at(self@, path@),
    {
        proof {
            assert(path@.skip(0) =~= path@);
        }
        self.descend(path, 0)
    }
}

/// A tree that can be held in memory: every element in it has finitely many
/// attributes, classes and listeners, and no more children than can be
/// counted.
pub open spec fn well_formed(node: NodeView) -> bool
    decreases node,
{
    match node {
        NodeView::Text(_) => true,
        NodeView::Tag(tag) => {
            &&& tag.attributes.dom().finite()
            &&& tag.classes.dom().finite()
            &&& tag.listeners.dom().finite()
            &&& tag.children.len() <= usize::MAX
            &&& forall|i: int| 0 <= i < tag.children.len() ==> well_formed(#[trigger] tag.children[i])
        },
    }
}

/// Whether the tree, if there is one, can be held in memory.
pub open spec fn tree_well_formed(tree: Option<NodeView>) -> bool {
    match tree {
        Some(node) => well_formed(node),
        None => true,
    }
}

/// The view of every node is well formed.
pub proof fn lemma_view_well_formed(node: VNode)
    ensures
        well_formed(node@),
    decreases node,
{
    match node {
        VNode::Text(_) => {},
        VNode::Tag(tag) => {
            lemma_tag_view(tag);
            tag.attributes.lemma_finite();
            tag.classes.lemma_finite();
            tag.listeners.lemma_finite();
            vstd::std_specs::vec::axiom_spec_len(&tag.children);
            assert forall|i: int| 0 <= i < tag@.children.len() implies well_formed(
                #[trigger] tag@.children[i],
            ) by {
                lemma_view_well_formed(tag.children@[i]);
            }
        },
    }
}

} // verus!
