use virtual_dom::differ::{child_path, copy_path, diff, diff_nodes, DiffError, TreePatch};
use virtual_dom::patch::Patch;
use virtual_dom::surface::Surface;
use virtual_dom::vnode::VNode;
use virtual_dom::vtag::VTag;
use virtual_dom::vtext::VText;

fn text(s: &str) -> VNode {
    VNode::Text(VText::new(s))
}

fn sample() -> VNode {
    let mut item = VTag::new("li");
    item.toggle_class("first");
    item.add_listener("click", 3);
    item.add_child(text("one"));
    let mut list = VTag::new("ul");
    list.set_attribute("id", "list");
    list.add_child(VNode::Tag(item));
    list.add_child(text("tail"));
    VNode::Tag(list)
}

#[test]
fn the_same_tree_needs_no_patch() {
    assert_eq!(diff_nodes(Some(&sample()), Some(&sample())), vec![]);
    assert_eq!(diff_nodes(Some(&text("a")), Some(&text("a"))), vec![]);
    assert_eq!(diff_nodes(None, None), vec![]);
}

#[test]
fn a_first_tree_is_added_whole_at_the_root() {
    assert_eq!(
        diff_nodes(None, Some(&sample())),
        vec![TreePatch::Node(Patch::Add(vec![], sample()))]
    );
}

#[test]
fn a_tree_that_is_gone_is_removed_at_the_root() {
    assert_eq!(diff_nodes(Some(&sample()), None), vec![TreePatch::Node(Patch::Remove(vec![]))]);
}

#[test]
fn a_changed_text_is_replaced() {
    assert_eq!(
        diff_nodes(Some(&text("a")), Some(&text("b"))),
        vec![TreePatch::Node(Patch::Replace(vec![], text("b")))]
    );
}

#[test]
fn a_text_in_place_of_an_element_replaces_it() {
    assert_eq!(
        diff_nodes(Some(&sample()), Some(&text("b"))),
        vec![TreePatch::Node(Patch::Replace(vec![], text("b")))]
    );
    assert_eq!(
        diff_nodes(Some(&text("b")), Some(&sample())),
        vec![TreePatch::Node(Patch::Replace(vec![], sample()))]
    );
}

#[test]
fn own_patches_come_before_those_of_the_children() {
    let mut prev = VTag::new("div");
    prev.set_attribute("title", "old");
    prev.toggle_class("hidden");
    prev.add_listener("click", 1);
    prev.add_listener("input", 2);
    prev.add_child(text("a"));
    let mut next = VTag::new("div");
    next.set_attribute("title", "new");
    next.set_attribute("id", "x");
    next.toggle_class("shown");
    next.add_listener("click", 9);
    next.add_listener("keyup", 4);
    next.add_child(text("b"));
    assert_eq!(
        diff_nodes(Some(&VNode::Tag(prev)), Some(&VNode::Tag(next))),
        vec![
            TreePatch::Attribute(vec![], Patch::Add("id".to_string(), "x".to_string())),
            TreePatch::Attribute(vec![], Patch::Replace("title".to_string(), "new".to_string())),
            TreePatch::Class(vec![], Patch::Remove("hidden".to_string())),
            TreePatch::Class(vec![], Patch::Add("shown".to_string(), ())),
            TreePatch::Listener(vec![], Patch::Replace("click".to_string(), 9)),
            TreePatch::Listener(vec![], Patch::Remove("input".to_string())),
            TreePatch::Listener(vec![], Patch::Add("keyup".to_string(), 4)),
            TreePatch::Node(Patch::Replace(vec![0], text("b"))),
        ]
    );
}

#[test]
fn children_are_matched_by_place() {
    let mut prev = VTag::new("ul");
    prev.add_child(text("a"));
    prev.add_child(text("b"));
    prev.add_child(text("c"));
    let mut next = VTag::new("ul");
    next.add_child(text("b"));
    next.add_child(text("c"));
    next.add_child(text("a"));
    assert_eq!(
        diff_nodes(Some(&VNode::Tag(prev)), Some(&VNode::Tag(next))),
        vec![
            TreePatch::Node(Patch::Replace(vec![0], text("b"))),
            TreePatch::Node(Patch::Replace(vec![1], text("c"))),
            TreePatch::Node(Patch::Replace(vec![2], text("a"))),
        ]
    );
}

#[test]
fn new_children_are_added_first_to_last() {
    let mut prev = VTag::new("ul");
    prev.add_child(text("a"));
    let mut next = VTag::new("ul");
    next.add_child(text("a"));
    next.add_child(text("b"));
    next.add_child(text("c"));
    assert_eq!(
        diff_nodes(Some(&VNode::Tag(prev)), Some(&VNode::Tag(next))),
        vec![
            TreePatch::Node(Patch::Add(vec![1], text("b"))),
            TreePatch::Node(Patch::Add(vec![2], text("c"))),
        ]
    );
}

#[test]
fn surplus_children_are_removed_last_to_first() {
    let mut prev = VTag::new("ul");
    prev.add_child(text("a"));
    prev.add_child(text("b"));
    prev.add_child(text("c"));
    let mut next = VTag::new("ul");
    next.add_child(text("x"));
    assert_eq!(
        diff_nodes(Some(&VNode::Tag(prev)), Some(&VNode::Tag(next))),
        vec![
            TreePatch::Node(Patch::Replace(vec![0], text("x"))),
            TreePatch::Node(Patch::Remove(vec![2])),
            TreePatch::Node(Patch::Remove(vec![1])),
        ]
    );
}

#[test]
fn patches_below_carry_the_path_from_the_root() {
    let mut prev_item = VTag::new("li");
    prev_item.add_child(text("one"));
    let mut prev = VTag::new("ul");
    prev.add_child(text("head"));
    prev.add_child(VNode::Tag(prev_item));
    let mut next_item = VTag::new("li");
    next_item.toggle_class("done");
    next_item.add_child(text("one"));
    next_item.add_child(text("more"));
    let mut next = VTag::new("ul");
    next.add_child(text("head"));
    next.add_child(VNode::Tag(next_item));
    assert_eq!(
        diff_nodes(Some(&VNode::Tag(prev)), Some(&VNode::Tag(next))),
        vec![
            TreePatch::Class(vec![1], Patch::Add("done".to_string(), ())),
            TreePatch::Node(Patch::Add(vec![1, 1], text("more"))),
        ]
    );
}

#[test]
fn surfaces_under_one_element_are_compared() {
    let prev = Surface::showing(4, text("a"));
    let next = Surface::showing(4, text("b"));
    assert_eq!(diff(&prev, &next), Ok(vec![TreePatch::Node(Patch::Replace(vec![], text("b")))]));
    assert_eq!(
        diff(&Surface::new(4), &next),
        Ok(vec![TreePatch::Node(Patch::Add(vec![], text("b")))])
    );
}

#[test]
fn surfaces_under_different_elements_are_not_compared() {
    let prev = Surface::showing(4, text("a"));
    let next = Surface::showing(5, text("b"));
    assert_eq!(diff(&prev, &next), Err(DiffError::RootMismatch { prev: 4, next: 5 }));
}

#[test]
fn paths_are_copied_and_extended() {
    assert_eq!(copy_path(&vec![1, 2, 3]), vec![1, 2, 3]);
    assert_eq!(child_path(&vec![], 4), vec![4]);
    assert_eq!(child_path(&vec![1, 2], 0), vec![1, 2, 0]);
}
