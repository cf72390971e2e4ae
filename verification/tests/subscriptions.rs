use virtual_dom::differ::TreePatch;
use virtual_dom::patch::Patch;
use virtual_dom::applier::{apply_one, ApplyError};
use virtual_dom::differ::{diff_nodes, DiffError};
use virtual_dom::render::{render_with_effects, Rendered};
use virtual_dom::subscriptions::{
    enact, ended_by, started_by, subscriptions, Effect, Subscription,
};
use virtual_dom::surface::Surface;
use virtual_dom::vnode::VNode;
use virtual_dom::vtag::VTag;
use virtual_dom::vtext::VText;

fn text(s: &str) -> VNode {
    VNode::Text(VText::new(s))
}

fn at(path: Vec<usize>, kind: &str, callback: u64) -> Subscription {
    Subscription { path, kind: kind.to_string(), callback }
}

fn sample() -> VNode {
    let mut first = VTag::new("li");
    first.add_listener("keyup", 2);
    first.add_listener("click", 1);
    first.add_child(text("one"));
    let mut inner = VTag::new("b");
    inner.add_listener("click", 4);
    let mut second = VTag::new("li");
    second.add_child(VNode::Tag(inner));
    let mut list = VTag::new("ul");
    list.add_listener("scroll", 0);
    list.add_child(VNode::Tag(first));
    list.add_child(text("between"));
    list.add_child(VNode::Tag(second));
    VNode::Tag(list)
}

#[test]
fn subscriptions_come_in_document_order() {
    assert_eq!(
        subscriptions(&vec![], &sample()),
        vec![
            at(vec![], "scroll", 0),
            at(vec![0], "click", 1),
            at(vec![0], "keyup", 2),
            at(vec![2, 0], "click", 4),
        ]
    );
    assert_eq!(subscriptions(&vec![7], &text("a")), vec![]);
}

#[test]
fn subscriptions_carry_the_path_of_their_node() {
    let mut button = VTag::new("button");
    button.add_listener("click", 9);
    assert_eq!(subscriptions(&vec![3, 1], &VNode::Tag(button)), vec![at(vec![3, 1], "click", 9)]);
}

#[test]
fn every_listed_subscription_is_found_on_the_surface() {
    let surface = Surface::showing(1, sample());
    for s in subscriptions(&vec![], &sample()) {
        assert_eq!(surface.subscription(&s.path, &s.kind), Some(s.callback));
    }
}

#[test]
fn a_patch_starts_the_subscriptions_it_brings() {
    let attach = TreePatch::Listener(vec![1], Patch::Add("click".to_string(), 5));
    assert_eq!(started_by(&attach), vec![at(vec![1], "click", 5)]);
    let replace = TreePatch::Listener(vec![1], Patch::Replace("click".to_string(), 6));
    assert_eq!(started_by(&replace), vec![at(vec![1], "click", 6)]);
    let detach = TreePatch::Listener(vec![1], Patch::Remove("click".to_string()));
    assert_eq!(started_by(&detach), vec![]);
    let mut button = VTag::new("button");
    button.add_listener("click", 9);
    let add = TreePatch::Node(Patch::Add(vec![0, 2], VNode::Tag(button)));
    assert_eq!(started_by(&add), vec![at(vec![0, 2], "click", 9)]);
    let whole = TreePatch::Node(Patch::Replace(vec![], sample()));
    assert_eq!(started_by(&whole), subscriptions(&vec![], &sample()));
    assert_eq!(started_by(&TreePatch::Node(Patch::Remove(vec![0]))), vec![]);
    assert_eq!(started_by(&TreePatch::Class(vec![], Patch::Add("a".to_string(), ()))), vec![]);
}

#[test]
fn a_patch_ends_the_subscriptions_it_takes() {
    let surface = Surface::showing(1, sample());
    let detach = TreePatch::Listener(vec![0], Patch::Remove("click".to_string()));
    assert_eq!(ended_by(&surface, &detach), vec![at(vec![0], "click", 1)]);
    let replace = TreePatch::Listener(vec![0], Patch::Replace("keyup".to_string(), 8));
    assert_eq!(ended_by(&surface, &replace), vec![at(vec![0], "keyup", 2)]);
    let missing = TreePatch::Listener(vec![0], Patch::Remove("input".to_string()));
    assert_eq!(ended_by(&surface, &missing), vec![]);
    let attach = TreePatch::Listener(vec![0], Patch::Add("input".to_string(), 8));
    assert_eq!(ended_by(&surface, &attach), vec![]);
    let remove = TreePatch::Node(Patch::Remove(vec![0]));
    assert_eq!(ended_by(&surface, &remove), vec![at(vec![0], "click", 1), at(vec![0], "keyup", 2)]);
    let replace_node = TreePatch::Node(Patch::Replace(vec![2], text("x")));
    assert_eq!(ended_by(&surface, &replace_node), vec![at(vec![2, 0], "click", 4)]);
    let root = TreePatch::Node(Patch::Remove(vec![]));
    assert_eq!(ended_by(&surface, &root), subscriptions(&vec![], &sample()));
    let nowhere = TreePatch::Node(Patch::Remove(vec![5]));
    assert_eq!(ended_by(&surface, &nowhere), vec![]);
    assert_eq!(ended_by(&Surface::new(1), &root), vec![]);
}

#[test]
fn enacting_a_patch_tells_what_ended_and_what_started() {
    let mut surface = Surface::showing(1, sample());
    let mut button = VTag::new("button");
    button.add_listener("click", 9);
    let replace = TreePatch::Node(Patch::Replace(vec![0], VNode::Tag(button)));
    assert_eq!(
        enact(&mut surface, &replace),
        Ok(Effect {
            ended: vec![at(vec![0], "click", 1), at(vec![0], "keyup", 2)],
            started: vec![at(vec![0], "click", 9)],
        })
    );
    assert_eq!(surface.subscription(&vec![0], "click"), Some(9));
    assert_eq!(surface.subscription(&vec![0], "keyup"), None);
    let swap = TreePatch::Listener(vec![0], Patch::Replace("click".to_string(), 10));
    assert_eq!(
        enact(&mut surface, &swap),
        Ok(Effect { ended: vec![at(vec![0], "click", 9)], started: vec![at(vec![0], "click", 10)] })
    );
}

#[test]
fn a_patch_that_fails_has_no_effect() {
    let mut surface = Surface::showing(1, sample());
    let again = TreePatch::Listener(vec![0], Patch::Add("click".to_string(), 5));
    assert_eq!(enact(&mut surface, &again), Err(ApplyError::AlreadyAttached));
    let nowhere = TreePatch::Node(Patch::Remove(vec![5]));
    assert_eq!(enact(&mut surface, &nowhere), Err(ApplyError::NoSuchElement));
    assert_eq!(surface, Surface::showing(1, sample()));
}

#[test]
fn a_render_pass_tells_what_each_patch_meant_for_the_listeners() {
    let mut prev = VTag::new("div");
    prev.add_listener("click", 1);
    prev.add_listener("input", 2);
    let mut gone = VTag::new("a");
    gone.add_listener("click", 3);
    prev.add_child(VNode::Tag(gone));
    let mut next = VTag::new("div");
    next.add_listener("click", 7);
    next.add_listener("keyup", 4);
    let mut surface = Surface::showing(1, VNode::Tag(prev));
    let done = render_with_effects(&mut surface, &Surface::showing(1, VNode::Tag(next)));
    assert_eq!(
        done,
        Ok(Rendered {
            patches: vec![
                TreePatch::Listener(vec![], Patch::Replace("click".to_string(), 7)),
                TreePatch::Listener(vec![], Patch::Remove("input".to_string())),
                TreePatch::Listener(vec![], Patch::Add("keyup".to_string(), 4)),
                TreePatch::Node(Patch::Remove(vec![0])),
            ],
            effects: vec![
                Effect { ended: vec![at(vec![], "click", 1)], started: vec![at(vec![], "click", 7)] },
                Effect { ended: vec![at(vec![], "input", 2)], started: vec![] },
                Effect { ended: vec![], started: vec![at(vec![], "keyup", 4)] },
                Effect { ended: vec![at(vec![0], "click", 3)], started: vec![] },
            ],
        })
    );
    assert_eq!(surface.subscription(&vec![], "click"), Some(7));
    assert_eq!(surface.subscription(&vec![0], "click"), None);
}

fn wide() -> VNode {
    let mut tag = VTag::new("ul");
    tag.add_listener("scroll", 5);
    tag.add_child(text("first"));
    tag.add_child(text("second"));
    tag.add_child(sample());
    VNode::Tag(tag)
}

fn other() -> VNode {
    let mut button = VTag::new("button");
    button.add_listener("click", 6);
    let mut tag = VTag::new("ol");
    tag.add_listener("scroll", 5);
    tag.add_child(text("first"));
    tag.add_child(VNode::Tag(button));
    VNode::Tag(tag)
}

#[test]
fn the_effects_of_a_render_pass_are_those_of_its_patches_one_by_one() {
    let pairs: [(fn() -> VNode, fn() -> VNode); 4] =
        [(wide, sample), (sample, wide), (wide, other), (other, sample)];
    for (from, to) in pairs {
        let patches = diff_nodes(Some(&from()), Some(&to()));
        let mut replay = Surface::showing(3, from());
        let mut surface = Surface::showing(3, from());
        let done = render_with_effects(&mut surface, &Surface::showing(3, to())).unwrap();
        assert_eq!(done.patches, patches);
        assert_eq!(done.effects.len(), patches.len());
        for (patch, effect) in patches.iter().zip(done.effects.iter()) {
            assert_eq!(&ended_by(&replay, patch), &effect.ended);
            assert_eq!(&started_by(patch), &effect.started);
            assert_eq!(apply_one(&mut replay, patch), Ok(()));
        }
        assert_eq!(replay, surface);
        assert_eq!(surface, Surface::showing(3, to()));
    }
}

#[test]
fn a_render_pass_under_another_element_has_no_effect() {
    let mut surface = Surface::showing(1, sample());
    let done = render_with_effects(&mut surface, &Surface::showing(2, text("x")));
    assert_eq!(done, Err(DiffError::RootMismatch { prev: 1, next: 2 }));
    assert_eq!(surface, Surface::showing(1, sample()));
}
