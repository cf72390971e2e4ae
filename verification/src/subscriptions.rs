//! The subscriptions in a tree, and those that a patch starts and ends.
//!
//! Whoever binds the surface to a backend attaches a listener for each
//! subscription that a patch starts, and detaches one for each that it ends,
//! before the node that holds it goes.

use crate::applier::{apply_one, step, ApplyError};
use crate::differ::{child_path, copy_path, TreePatch, TreePatchView};
use crate::keyed::{changes, Keyed};
use crate::keyed_laws::lemma_changes_exist;
use crate::patch::Patch;
use crate::surface::{subscription, Surface};
use crate::vnode::{at, lemma_tag_view, well_formed, NodeView, VNode};
use crate::vtag::VTag;
use vstd::prelude::*;

verus! {

broadcast use vstd::std_specs::vec::axiom_vec_index_decreases;

/// A subscription: the callback that `callback` refers to answers events of
/// `kind` at the element that `path` leads to.
#[derive(Debug, PartialEq, Eq)]
pub struct Subscription {
    /// The path to the element.
    pub path: Vec<usize>,
    /// The kind of event.
    pub kind: String,
    /// The callback reference.
    pub callback: u64,
}

/// What a subscription says, whatever way it is held in memory.
pub struct SubscriptionView {
    /// The path to the element.
    pub path: Seq<usize>,
    /// The kind of event.
    pub kind: Seq<char>,
    /// The callback reference.
    pub callback: u64,
}

impl View for Subscription {
    type V = SubscriptionView;

    open spec fn view(&self) -> SubscriptionView {
        SubscriptionView { path: self.path@, kind: self.kind@, callback: self.callback }
    }
}

/// The subscriptions of a list, each by its view.
pub open spec fn subscription_views(list: Seq<Subscription>) -> Seq<SubscriptionView> {
    Seq::new(list.len(), |i: int| list[i]@)
}

/// The subscriptions of the element at `path` itself, in dictionary order of
/// the kinds.
pub open spec fn own(path: Seq<usize>, listeners: Map<Seq<char>, u64>) -> Seq<SubscriptionView> {
    let adds = changes(Map::<Seq<char>, u64>::empty(), listeners);
    Seq::new(
        adds.len(),
        |i: int|
            SubscriptionView {
                path,
                kind: adds[i].target(),
                callback: listeners[adds[i].target()],
            },
    )
}

/// The subscriptions at and below `node`, which stands at `path`: those of
/// the node itself, then those of its children, first child first.
pub open spec fn below(path: Seq<usize>, node: NodeView) -> Seq<SubscriptionView>
    decreases node, 0int,
{
    match node {
        NodeView::Text(_) => Seq::empty(),
        NodeView::Tag(tag) => own(path, tag.listeners) + below_children(path, tag.children, 0),
    }
}

/// The subscriptions at and below the children from place `from` on of the
/// element at `path`.
pub open spec fn below_children(path: Seq<usize>, children: Seq<NodeView>, from: int) -> Seq<
    SubscriptionView,
>
    decreases children, children.len() - from,
{
    if 0 <= from < children.len() {
        below(path.push(from as usize), children[from]) + below_children(path, children, from + 1)
    } else {
        Seq::empty()
    }
}

/// The subscriptions that a patch starts: the one of a listener that is
/// attached or put in the place of another, and all those in a node that is
/// added or put in the place of another.
pub open spec fn started(patch: TreePatchView) -> Seq<SubscriptionView> {
    match patch {
        TreePatchView::Listener(path, Patch::Add(kind, callback)) => seq![
            SubscriptionView { path, kind, callback },
        ],
        TreePatchView::Listener(path, Patch::Replace(kind, callback)) => seq![
            SubscriptionView { path, kind, callback },
        ],
        TreePatchView::Node(Patch::Add(path, node)) => below(path, node),
        TreePatchView::Node(Patch::Replace(path, node)) => below(path, node),
        _ => Seq::empty(),
    }
}

/// The subscriptions at and below the node that `path` leads to in `tree`.
pub open spec fn below_at(tree: Option<NodeView>, path: Seq<usize>) -> Seq<SubscriptionView> {
    match tree {
        Some(root) => match at(root, path) {
            Some(node) => below(path, node),
            None => Seq::empty(),
        },
        None => Seq::empty(),
    }
}

/// The subscription for `kind` at the element that `path` leads to in
/// `tree`, if there is one.
pub open spec fn one_at(tree: Option<NodeView>, path: Seq<usize>, kind: Seq<char>) -> Seq<
    SubscriptionView,
> {
    match subscription(tree, path, kind) {
        Some(callback) => seq![SubscriptionView { path, kind, callback }],
        None => Seq::empty(),
    }
}

/// The subscriptions that a patch ends on a surface that shows `tree`: the
/// one of a listener that is detached or gives way to another, and all those
/// at and below a node that is removed or gives way to another.
pub open spec fn ended(tree: Option<NodeView>, patch: TreePatchView) -> Seq<SubscriptionView> {
    match patch {
        TreePatchView::Listener(path, Patch::Remove(kind)) => one_at(tree, path, kind),
        TreePatchView::Listener(path, Patch::Replace(kind, _)) => one_at(tree, path, kind),
        TreePatchView::Node(Patch::Remove(path)) => below_at(tree, path),
        TreePatchView::Node(Patch::Replace(path, _)) => below_at(tree, path),
        _ => Seq::empty(),
    }
}

/// Appends to `out` the subscriptions of the element at `path` itself.
fn collect_own(path: &Vec<usize>, listeners: &Keyed<u64>, out: &mut Vec<Subscription>)
    ensures
        subscription_views(final(out)@) == subscription_views(old(out)@) + own(path@, listeners@),
{
    let ghost start = subscription_views(out@);
    let n = listeners.len();
    proof {
        Keyed::<u64>::lemma_all_added(listeners.keys(), listeners.values());
        Keyed::<u64>::lemma_as_map(listeners.keys(), listeners.values());
    }
    let mut i: usize = 0;
    while i < n
        invariant
            i <= n,
            n == listeners.keys().len(),
            own(path@, listeners@).len() == n,
            subscription_views(out@) == start + own(path@, listeners@).take(i as int),
            forall|j: int|
                0 <= j < n ==> own(path@, listeners@)[j] == (SubscriptionView {
                    path: path@,
                    kind: listeners.keys()[j],
                    callback: listeners.values()[j],
                }),
        decreases n - i,
    {
        let ghost before = subscription_views(out@);
        let callback = *listeners.value_at(i);
        out.push(Subscription { path: copy_path(path), kind: listeners.key_at(i).clone(), callback });
        proof {
            assert(subscription_views(out@) =~= before.push(own(path@, listeners@)[i as int]));
            assert(subscription_views(out@) =~= start + own(path@, listeners@).take(i + 1));
        }
        i += 1;
    }
    proof {
        assert(own(path@, listeners@).take(n as int) =~= own(path@, listeners@));
    }
}

/// Appends to `out` the subscriptions at and below the element `tag` at
/// `path`.
fn collect_tag(path: &Vec<usize>, tag: &VTag, out: &mut Vec<Subscription>)
    ensures
        subscription_views(final(out)@) == subscription_views(old(out)@) + (own(
            path@,
            tag@.listeners,
        ) + below_children(path@, tag@.children, 0)),
    decreases tag,
{
    let ghost start = subscription_views(out@);
    proof {
        lemma_tag_view(*tag);
    }
    collect_own(path, &tag.listeners, out);
    let ghost total = start + (own(path@, tag@.listeners) + below_children(path@, tag@.children, 0));
    proof {
        assert(subscription_views(out@) + below_children(path@, tag@.children, 0) =~= total);
    }
    let mut i: usize = 0;
    while i < tag.children.len()
        invariant
            i <= tag.children@.len(),
            tag@.children.len() == tag.children@.len(),
            forall|j: int| 0 <= j < tag.children@.len() ==> tag@.children[j] == tag.children@[j]@,
            subscription_views(out@) + below_children(path@, tag@.children, i as int) == total,
        decreases tag.children@.len() - i,
    {
        let ghost before = subscription_views(out@);
        let place = child_path(path, i);
        collect(&place, &tag.children[i], out);
        proof {
            let here = below(path@.push(i), tag@.children[i as int]);
            assert(below_children(path@, tag@.children, i as int) == here + below_children(
                path@,
                tag@.children,
                i + 1,
            ));
            assert(subscription_views(out@) + below_children(path@, tag@.children, i + 1) =~= before
                + below_children(path@, tag@.children, i as int));
        }
        i += 1;
    }
    proof {
        assert(subscription_views(out@) =~= total);
    }
}

/// Appends to `out` the subscriptions at and below `node`, which stands at
/// `path`.
fn collect(path: &Vec<usize>, node: &VNode, out: &mut Vec<Subscription>)
    ensures
        subscription_views(final(out)@) == subscription_views(old(out)@) + below(path@, node@),
    decreases node,
{
    match node {
        VNode::Text(_) => {
            proof {
                assert(subscription_views(out@) + below(path@, node@) =~= subscription_views(out@));
            }
        },
        VNode::Tag(tag) => {
            collect_tag(path, tag, out);
        },
    }
}

/// The subscriptions at and below `node`, which stands at `path`: those of
/// the node itself in dictionary order of the kinds, then those of its
/// children, first child first.
pub fn subscriptions(path: &Vec<usize>, node: &VNode) -> (list: Vec<Subscription>)
    ensures
        subscription_views(list@) == below(path@, node@),
{
    let mut list: Vec<Subscription> = Vec::new();
    proof {
        assert(subscription_views(list@) =~= Seq::empty());
    }
    collect(path, node, &mut list);
    proof {
        assert(Seq::<SubscriptionView>::empty() + below(path@, node@) =~= below(path@, node@));
    }
    list
}

/// The subscriptions that `patch` starts: the listeners to attach when it is
/// carried out.
pub fn started_by(patch: &TreePatch) -> (list: Vec<Subscription>)
    ensures
        subscription_views(list@) == started(patch@),
{
    match patch {
        TreePatch::Listener(path, Patch::Add(kind, callback)) => {
            let list = vec![
                Subscription { path: copy_path(path), kind: kind.clone(), callback: *callback },
            ];
            proof {
                assert(subscription_views(list@) =~= started(patch@));
            }
            list
        },
        TreePatch::Listener(path, Patch::Replace(kind, callback)) => {
            let list = vec![
                Subscription { path: copy_path(path), kind: kind.clone(), callback: *callback },
            ];
            proof {
                assert(subscription_views(list@) =~= started(patch@));
            }
            list
        },
        TreePatch::Node(Patch::Add(path, node)) => subscriptions(path, node),
        TreePatch::Node(Patch::Replace(path, node)) => subscriptions(path, node),
        _ => {
            let list: Vec<Subscription> = Vec::new();
            proof {
                assert(subscription_views(list@) =~= started(patch@));
            }
            list
        },
    }
}

/// The subscription for `kind` at the element that `path` leads to, if the
/// surface has one.
fn one_on(surface: &Surface, path: &Vec<usize>, kind: &String) -> (list: Vec<Subscription>)
    ensures
        subscription_views(list@) == one_at(surface@.tree, path@, kind@),
{
    let mut list: Vec<Subscription> = Vec::new();
    match surface.subscription(path, kind.as_str()) {
        Some(callback) => {
            list.push(Subscription { path: copy_path(path), kind: kind.clone(), callback });
        },
        None => {},
    }
    proof {
        assert(subscription_views(list@) =~= one_at(surface@.tree, path@, kind@));
    }
    list
}

/// The subscriptions at and below the node that `path` leads to on the
/// surface.
fn all_on(surface: &Surface, path: &Vec<usize>) -> (list: Vec<Subscription>)
    ensures
        subscription_views(list@) == below_at(surface@.tree, path@),
{
    match &surface.tree {
        Some(root) => match root.at(path) {
            Some(node) => subscriptions(path, node),
            None => {
                let list: Vec<Subscription> = Vec::new();
                proof {
                    assert(subscription_views(list@) =~= Seq::empty());
                }
                list
            },
        },
        None => {
            let list: Vec<Subscription> = Vec::new();
            proof {
                assert(subscription_views(list@) =~= Seq::empty());
            }
            list
        },
    }
}

/// The subscriptions that `patch` ends when it is carried out on `surface`:
/// the listeners to detach before that.
pub fn ended_by(surface: &Surface, patch: &TreePatch) -> (list: Vec<Subscription>)
    ensures
        subscription_views(list@) == ended(surface@.tree, patch@),
{
    match patch {
        TreePatch::Listener(path, Patch::Remove(kind)) => one_on(surface, path, kind),
        TreePatch::Listener(path, Patch::Replace(kind, _)) => one_on(surface, path, kind),
        TreePatch::Node(Patch::Remove(path)) => all_on(surface, path),
        TreePatch::Node(Patch::Replace(path, _)) => all_on(surface, path),
        _ => {
            let list: Vec<Subscription> = Vec::new();
            proof {
                assert(subscription_views(list@) =~= Seq::empty());
            }
            list
        },
    }
}

/// What carrying out a patch means for the listeners.
#[derive(Debug, PartialEq, Eq)]
pub struct Effect {
    /// The subscriptions that ended: listeners to detach.
    pub ended: Vec<Subscription>,
    /// The subscriptions that started: listeners to attach.
    pub started: Vec<Subscription>,
}

/// Carries out one patch on the surface and tells what that means for the
/// listeners: which subscriptions the patch ended and which it started. If
/// the patch cannot be carried out, the surface stays as it was.
pub fn enact(surface: &mut Surface, patch: &TreePatch) -> (result: Result<Effect, ApplyError>)
    ensures
        final(surface)@.root == old(surface)@.root,
        match result {
            Ok(effect) => {
                &&& step(old(surface)@.tree, patch@) == Ok::<_, ApplyError>(final(surface)@.tree)
                &&& subscription_views(effect.ended@) == ended(old(surface)@.tree, patch@)
                &&& subscription_views(effect.started@) == started(patch@)
            },
            Err(e) => final(surface)@ == old(surface)@ && step(old(surface)@.tree, patch@) == Err::<
                Option<NodeView>,
                _,
            >(e),
        },
{
    let ended = ended_by(surface, patch);
    match apply_one(surface, patch) {
        Ok(()) => Ok(Effect { ended, started: started_by(patch) }),
        Err(e) => Err(e),
    }
}

/// `path` begins with `front`.
pub open spec fn begins_with(path: Seq<usize>, front: Seq<usize>) -> bool {
    &&& front.len() <= path.len()
    &&& forall|j: int| 0 <= j < front.len() ==> path[j] == front[j]
}

/// The subscriptions at and below a node are at places at and below it.
pub proof fn lemma_below_places(path: Seq<usize>, node: NodeView, i: int)
    requires
        well_formed(node),
        0 <= i < below(path, node).len(),
    ensures
        begins_with(below(path, node)[i].path, path),
    decreases node, 0int,
{
    match node {
        NodeView::Text(_) => {},
        NodeView::Tag(tag) => {
            let first = own(path, tag.listeners);
            if i >= first.len() {
                lemma_below_children_places(path, tag.children, 0, i - first.len());
            }
        },
    }
}

/// The subscriptions at and below the children from place `from` on are at
/// places at and below one of those children.
pub proof fn lemma_below_children_places(
    path: Seq<usize>,
    children: Seq<NodeView>,
    from: int,
    i: int,
)
    requires
        0 <= from,
        children.len() <= usize::MAX,
        forall|j: int| 0 <= j < children.len() ==> well_formed(#[trigger] children[j]),
        0 <= i < below_children(path, children, from).len(),
    ensures
        begins_with(below_children(path, children, from)[i].path, path),
        below_children(path, children, from)[i].path.len() > path.len(),
        from <= below_children(path, children, from)[i].path[path.len() as int] < children.len(),
    decreases children, children.len() - from,
{
    if from < children.len() {
        let first = below(path.push(from as usize), children[from]);
        if i < first.len() {
            lemma_below_places(path.push(from as usize), children[from], i);
            let found = first[i].path;
            assert(found[path.len() as int] == path.push(from as usize)[path.len() as int]);
            assert forall|j: int| 0 <= j < path.len() implies found[j] == path[j] by {
                assert(found[j] == path.push(from as usize)[j]);
            }
        } else {
            lemma_below_children_places(path, children, from + 1, i - first.len());
        }
    }
}

/// The subscriptions at and below a node are those that are found from the
/// node: one is listed for a place and a kind if and only if the element at
/// that place has it.
pub proof fn lemma_below_found(
    path: Seq<usize>,
    node: NodeView,
    rel: Seq<usize>,
    kind: Seq<char>,
    callback: u64,
)
    requires
        well_formed(node),
    ensures
        below(path, node).contains(SubscriptionView { path: path + rel, kind, callback })
            <==> subscription(Some(node), rel, kind) == Some(callback),
    decreases node, 0int,
{
    let sought = SubscriptionView { path: path + rel, kind, callback };
    match node {
        NodeView::Text(_) => {},
        NodeView::Tag(tag) => {
            let none = Map::<Seq<char>, u64>::empty();
            let adds = changes(none, tag.listeners);
            let first = own(path, tag.listeners);
            let rest = below_children(path, tag.children, 0);
            lemma_changes_exist(none, tag.listeners);
            lemma_below_children_found(path, tag.children, 0, rel, kind, callback);
            if first.contains(sought) {
                let i = choose|i: int| 0 <= i < first.len() && first[i] == sought;
                assert(adds.contains(adds[i]));
                assert((path + rel).len() == path.len());
            }
            if rel.len() == 0 && tag.listeners.contains_key(kind) && tag.listeners[kind] == callback {
                assert(path + rel =~= path);
                let add = Patch::Add(kind, callback);
                assert(adds.contains(add));
                let i = choose|i: int| 0 <= i < adds.len() && adds[i] == add;
                assert(first[i] == sought);
            }
            if rest.contains(sought) {
                let i = choose|i: int| 0 <= i < rest.len() && rest[i] == sought;
                assert((first + rest)[first.len() + i] == sought);
            }
            if (first + rest).contains(sought) {
                let i = choose|i: int| 0 <= i < (first + rest).len() && (first + rest)[i] == sought;
                if i < first.len() {
                    assert(first[i] == sought);
                } else {
                    assert(rest[i - first.len()] == sought);
                }
            }
            if first.contains(sought) {
                let i = choose|i: int| 0 <= i < first.len() && first[i] == sought;
                assert((first + rest)[i] == sought);
            }
        },
    }
}

/// The subscriptions at and below the children from place `from` on are
/// those that are found from one of those children.
pub proof fn lemma_below_children_found(
    path: Seq<usize>,
    children: Seq<NodeView>,
    from: int,
    rel: Seq<usize>,
    kind: Seq<char>,
    callback: u64,
)
    requires
        0 <= from,
        children.len() <= usize::MAX,
        forall|i: int| 0 <= i < children.len() ==> well_formed(#[trigger] children[i]),
    ensures
        below_children(path, children, from).contains(
            SubscriptionView { path: path + rel, kind, callback },
        ) <==> rel.len() > 0 && from <= rel[0] < children.len() && subscription(
            Some(children[rel[0] as int]),
            rel.drop_first(),
            kind,
        ) == Some(callback),
    decreases children, children.len() - from,
{
    let sought = SubscriptionView { path: path + rel, kind, callback };
    if from < children.len() {
        let place = path.push(from as usize);
        let first = below(place, children[from]);
        let rest = below_children(path, children, from + 1);
        lemma_below_children_found(path, children, from + 1, rel, kind, callback);
        if rel.len() > 0 && rel[0] == from {
            assert(place + rel.drop_first() =~= path + rel);
            lemma_below_found(place, children[from], rel.drop_first(), kind, callback);
        }
        if first.contains(sought) {
            let i = choose|i: int| 0 <= i < first.len() && first[i] == sought;
            lemma_below_places(place, children[from], i);
            assert((path + rel)[path.len() as int] == place[path.len() as int]);
            assert((first + rest)[i] == sought);
        }
        if rest.contains(sought) {
            let i = choose|i: int| 0 <= i < rest.len() && rest[i] == sought;
            assert((first + rest)[first.len() + i] == sought);
        }
        if (first + rest).contains(sought) {
            let i = choose|i: int| 0 <= i < (first + rest).len() && (first + rest)[i] == sought;
            if i < first.len() {
                assert(first[i] == sought);
            } else {
                assert(rest[i - first.len()] == sought);
            }
        }
    }
}

} // verus!
