use virtual_dom::differ::{diff_nodes, TreePatch};
use virtual_dom::patch::Patch;
use virtual_dom::vnode::VNode;
use virtual_dom::vtag::VTag;
use virtual_dom::vtext::VText;

fn text(s: &str) -> VNode {
    VNode::Text(VText::new(s))
}

#[test]
fn new_attribute_and_changed_text() {
    let mut prev = VTag::new("div");
    prev.add_child(text("a"));
    let mut next = VTag::new("div");
    next.set_attribute("id", "x");
    next.add_child(text("b"));
    let patches = diff_nodes(Some(&VNode::Tag(prev)), Some(&VNode::Tag(next)));
    assert_eq!(
        patches,
        vec![
            TreePatch::Attribute(vec![], Patch::Add("id".to_string(), "x".to_string())),
            TreePatch::Node(Patch::Replace(vec![0], text("b"))),
        ]
    );
}

#[test]
fn other_tag_name_replaces_the_whole_node() {
    let mut prev = VTag::new("div");
    prev.set_attribute("id", "x");
    prev.add_child(text("a"));
    let mut next = VTag::new("span");
    next.set_attribute("id", "y");
    next.add_child(text("a"));
    let patches = diff_nodes(Some(&VNode::Tag(prev)), Some(&VNode::Tag(next)));
    let mut whole = VTag::new("span");
    whole.set_attribute("id", "y");
    whole.add_child(text("a"));
    assert_eq!(patches, vec![TreePatch::Node(Patch::Replace(vec![], VNode::Tag(whole)))]);
}
