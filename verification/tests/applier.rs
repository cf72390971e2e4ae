use virtual_dom::applier::{apply, apply_one, subscribe, ApplyError, Failure};
use virtual_dom::differ::{diff_nodes, TreePatch};
use virtual_dom::keyed::Keyed;
use virtual_dom::patch::Patch;
use virtual_dom::render::render;
use virtual_dom::surface::Surface;
use virtual_dom::vnode::VNode;
use virtual_dom::vtag::VTag;
use virtual_dom::vtext::VText;

fn text(s: &str) -> VNode {
    VNode::Text(VText::new(s))
}

fn sample() -> VNode {
    let mut item = VTag::new("li");
    item.toggle_class("first");
    item.add_listener("click", 3);
    item.add_child(text("one"));
    let mut list = VTag::new("ul");
    list.set_attribute("id", "list");
    list.add_listener("scroll", 8);
    list.add_child(VNode::Tag(item));
    list.add_child(text("tail"));
    VNode::Tag(list)
}

fn other() -> VNode {
    let mut item = VTag::new("li");
    item.toggle_class("second");
    item.add_listener("click", 5);
    item.add_listener("keyup", 6);
    let mut deep = VTag::new("b");
    deep.add_child(text("bold"));
    let mut list = VTag::new("ul");
    list.set_attribute("id", "other");
    list.set_attribute("lang", "en");
    list.add_child(VNode::Tag(item));
    list.add_child(VNode::Tag(deep));
    list.add_child(text("third"));
    VNode::Tag(list)
}

#[test]
fn a_first_tree_is_shown_by_its_patch() {
    let mut surface = Surface::new(1);
    let patches = diff_nodes(None, Some(&sample()));
    assert_eq!(apply(&patches, &mut surface), Ok(()));
    assert_eq!(surface, Surface::showing(1, sample()));
    assert_eq!(surface.subscription(&vec![0], "click"), Some(3));
}

#[test]
fn removing_the_tree_leaves_no_subscription() {
    let mut surface = Surface::showing(1, sample());
    assert_eq!(surface.subscription(&vec![], "scroll"), Some(8));
    let patches = diff_nodes(Some(&sample()), None);
    assert_eq!(apply(&patches, &mut surface), Ok(()));
    assert_eq!(surface, Surface::new(1));
    assert_eq!(surface.subscription(&vec![], "scroll"), None);
    assert_eq!(surface.subscription(&vec![0], "click"), None);
}

#[test]
fn showing_and_clearing_gives_back_the_empty_surface() {
    let mut surface = Surface::new(9);
    assert_eq!(apply(&diff_nodes(None, Some(&other())), &mut surface), Ok(()));
    assert_eq!(apply(&diff_nodes(Some(&other()), None), &mut surface), Ok(()));
    assert_eq!(surface, Surface::new(9));
}

#[test]
fn the_patches_of_the_same_tree_change_nothing() {
    let mut surface = Surface::showing(1, sample());
    let patches = diff_nodes(Some(&sample()), Some(&sample()));
    assert_eq!(apply(&patches, &mut surface), Ok(()));
    assert_eq!(surface, Surface::showing(1, sample()));
}

#[test]
fn the_patches_between_two_trees_turn_one_into_the_other() {
    let mut surface = Surface::showing(1, sample());
    assert_eq!(apply(&diff_nodes(Some(&sample()), Some(&other())), &mut surface), Ok(()));
    assert_eq!(surface, Surface::showing(1, other()));
    assert_eq!(apply(&diff_nodes(Some(&other()), Some(&sample())), &mut surface), Ok(()));
    assert_eq!(surface, Surface::showing(1, sample()));
}

#[test]
fn a_render_pass_shows_the_next_tree() {
    let mut surface = Surface::new(2);
    let first = render(&mut surface, &Surface::showing(2, sample()));
    assert_eq!(first, Ok(vec![TreePatch::Node(Patch::Add(vec![], sample()))]));
    assert_eq!(surface, Surface::showing(2, sample()));
    let second = render(&mut surface, &Surface::showing(2, other()));
    assert_eq!(second, Ok(diff_nodes(Some(&sample()), Some(&other()))));
    assert_eq!(surface, Surface::showing(2, other()));
    let third = render(&mut surface, &Surface::new(2));
    assert_eq!(third, Ok(vec![TreePatch::Node(Patch::Remove(vec![]))]));
    assert_eq!(surface, Surface::new(2));
}

#[test]
fn a_render_pass_under_another_element_does_nothing() {
    let mut surface = Surface::showing(2, sample());
    let result = render(&mut surface, &Surface::showing(3, other()));
    assert_eq!(result, Err(virtual_dom::differ::DiffError::RootMismatch { prev: 2, next: 3 }));
    assert_eq!(surface, Surface::showing(2, sample()));
}

#[test]
fn attributes_and_classes_are_set_and_taken() {
    let mut surface = Surface::showing(1, sample());
    let patches = vec![
        TreePatch::Attribute(vec![], Patch::Add("id".to_string(), "again".to_string())),
        TreePatch::Attribute(vec![0], Patch::Replace("title".to_string(), "t".to_string())),
        TreePatch::Attribute(vec![], Patch::Remove("nothing".to_string())),
        TreePatch::Class(vec![0], Patch::Remove("first".to_string())),
        TreePatch::Class(vec![0], Patch::Add("last".to_string(), ())),
        TreePatch::Class(vec![0], Patch::Replace("late".to_string(), ())),
    ];
    assert_eq!(apply(&patches, &mut surface), Ok(()));
    let mut item = VTag::new("li");
    item.set_attribute("title", "t");
    item.toggle_class("last");
    item.toggle_class("late");
    item.add_listener("click", 3);
    item.add_child(text("one"));
    let mut list = VTag::new("ul");
    list.set_attribute("id", "again");
    list.add_listener("scroll", 8);
    list.add_child(VNode::Tag(item));
    list.add_child(text("tail"));
    assert_eq!(surface, Surface::showing(1, VNode::Tag(list)));
}

#[test]
fn a_patch_for_a_missing_element_fails() {
    let cases = vec![
        TreePatch::Attribute(vec![5], Patch::Add("id".to_string(), "x".to_string())),
        TreePatch::Attribute(vec![1], Patch::Add("id".to_string(), "x".to_string())),
        TreePatch::Class(vec![0, 0], Patch::Add("big".to_string(), ())),
        TreePatch::Listener(vec![1], Patch::Add("click".to_string(), 1)),
        TreePatch::Node(Patch::Replace(vec![2], text("x"))),
        TreePatch::Node(Patch::Replace(vec![1, 0], text("x"))),
        TreePatch::Node(Patch::Remove(vec![2])),
        TreePatch::Node(Patch::Remove(vec![0, 1])),
        TreePatch::Node(Patch::Add(vec![3], text("x"))),
        TreePatch::Node(Patch::Add(vec![1, 0], text("x"))),
    ];
    for patch in cases.iter() {
        let mut surface = Surface::showing(1, sample());
        assert_eq!(apply_one(&mut surface, patch), Err(ApplyError::NoSuchElement));
        assert_eq!(surface, Surface::showing(1, sample()));
    }
}

#[test]
fn an_empty_surface_takes_only_a_tree_at_the_root() {
    let cases = vec![
        TreePatch::Node(Patch::Remove(vec![])),
        TreePatch::Node(Patch::Replace(vec![], text("x"))),
        TreePatch::Node(Patch::Add(vec![0], text("x"))),
        TreePatch::Attribute(vec![], Patch::Add("id".to_string(), "x".to_string())),
    ];
    for patch in cases.iter() {
        let mut surface = Surface::new(1);
        assert_eq!(apply_one(&mut surface, patch), Err(ApplyError::NoSuchElement));
        assert_eq!(surface, Surface::new(1));
    }
}

#[test]
fn a_node_is_not_added_where_one_is() {
    let mut surface = Surface::showing(1, sample());
    let at_root = TreePatch::Node(Patch::Add(vec![], text("x")));
    assert_eq!(apply_one(&mut surface, &at_root), Err(ApplyError::Occupied));
    let at_child = TreePatch::Node(Patch::Add(vec![1], text("x")));
    assert_eq!(apply_one(&mut surface, &at_child), Err(ApplyError::Occupied));
    assert_eq!(surface, Surface::showing(1, sample()));
}

#[test]
fn a_listener_is_attached_once_per_kind() {
    let mut surface = Surface::showing(1, sample());
    let again = TreePatch::Listener(vec![0], Patch::Add("click".to_string(), 4));
    assert_eq!(apply_one(&mut surface, &again), Err(ApplyError::AlreadyAttached));
    assert_eq!(surface.subscription(&vec![0], "click"), Some(3));
    let fresh = TreePatch::Listener(vec![0], Patch::Add("input".to_string(), 4));
    assert_eq!(apply_one(&mut surface, &fresh), Ok(()));
    assert_eq!(surface.subscription(&vec![0], "input"), Some(4));
}

#[test]
fn a_listener_is_detached_once() {
    let mut surface = Surface::showing(1, sample());
    let detach = TreePatch::Listener(vec![0], Patch::Remove("click".to_string()));
    assert_eq!(apply_one(&mut surface, &detach), Ok(()));
    assert_eq!(surface.subscription(&vec![0], "click"), None);
    assert_eq!(apply_one(&mut surface, &detach), Err(ApplyError::NotAttached));
}

#[test]
fn a_listener_is_replaced_only_where_one_is_attached() {
    let mut surface = Surface::showing(1, sample());
    let replace = TreePatch::Listener(vec![0], Patch::Replace("click".to_string(), 11));
    assert_eq!(apply_one(&mut surface, &replace), Ok(()));
    assert_eq!(surface.subscription(&vec![0], "click"), Some(11));
    let missing = TreePatch::Listener(vec![0], Patch::Replace("input".to_string(), 11));
    assert_eq!(apply_one(&mut surface, &missing), Err(ApplyError::NotAttached));
}

#[test]
fn subscribe_follows_the_same_rules() {
    let mut listeners: Keyed<u64> = Keyed::new();
    assert_eq!(subscribe(&mut listeners, &Patch::Remove("click".to_string())), Err(ApplyError::NotAttached));
    assert_eq!(subscribe(&mut listeners, &Patch::Add("click".to_string(), 1)), Ok(()));
    assert_eq!(
        subscribe(&mut listeners, &Patch::Add("click".to_string(), 2)),
        Err(ApplyError::AlreadyAttached)
    );
    assert_eq!(subscribe(&mut listeners, &Patch::Replace("click".to_string(), 2)), Ok(()));
    assert_eq!(listeners.get("click"), Some(&2));
    assert_eq!(subscribe(&mut listeners, &Patch::Remove("click".to_string())), Ok(()));
    assert_eq!(listeners.len(), 0);
}

#[test]
fn a_failure_leaves_the_surface_as_it_was() {
    let mut surface = Surface::showing(1, sample());
    let patches = vec![
        TreePatch::Attribute(vec![], Patch::Add("lang".to_string(), "en".to_string())),
        TreePatch::Listener(vec![0], Patch::Add("click".to_string(), 4)),
        TreePatch::Attribute(vec![], Patch::Add("dir".to_string(), "ltr".to_string())),
    ];
    assert_eq!(
        apply(&patches, &mut surface),
        Err(Failure { at: 1, error: ApplyError::AlreadyAttached })
    );
    assert_eq!(surface, Surface::showing(1, sample()));
}

#[test]
fn a_pass_without_failure_carries_out_every_patch() {
    let mut surface = Surface::showing(1, sample());
    let patches = vec![
        TreePatch::Attribute(vec![], Patch::Add("lang".to_string(), "en".to_string())),
        TreePatch::Listener(vec![0], Patch::Replace("click".to_string(), 4)),
        TreePatch::Node(Patch::Remove(vec![1])),
    ];
    assert_eq!(apply(&patches, &mut surface), Ok(()));
    let mut expected = Surface::showing(1, sample());
    for patch in patches.iter() {
        assert_eq!(apply_one(&mut expected, patch), Ok(()));
    }
    assert_eq!(surface, expected);
    assert_eq!(surface.subscription(&vec![0], "click"), Some(4));
    assert_eq!(surface.tree.as_ref().unwrap().at(&vec![1]), None);
}

#[test]
fn removing_a_child_moves_the_later_ones_up() {
    let mut surface = Surface::showing(1, sample());
    let remove = TreePatch::Node(Patch::Remove(vec![0]));
    assert_eq!(apply_one(&mut surface, &remove), Ok(()));
    assert_eq!(surface.tree.as_ref().unwrap().at(&vec![0]), Some(&text("tail")));
    assert_eq!(surface.subscription(&vec![0], "click"), None);
}

#[test]
fn errors_are_of_two_kinds() {
    assert!(ApplyError::AlreadyAttached.is_structural());
    assert!(ApplyError::NotAttached.is_structural());
    assert!(!ApplyError::NoSuchElement.is_structural());
    assert!(!ApplyError::Occupied.is_structural());
}

#[test]
fn a_patch_knows_its_path() {
    assert_eq!(TreePatch::Class(vec![1, 2], Patch::Add("a".to_string(), ())).path(), &vec![1, 2]);
    assert_eq!(TreePatch::Node(Patch::Remove(vec![3])).path(), &vec![3]);
    assert_eq!(TreePatch::Node(Patch::Add(vec![], text("a"))).path(), &Vec::<usize>::new());
}
