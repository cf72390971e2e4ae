use virtual_dom::keyed::Content;
use virtual_dom::vnode::VNode;
use virtual_dom::vtag::VTag;
use virtual_dom::vtext::VText;

fn text(s: &str) -> VNode {
    VNode::Text(VText::new(s))
}

#[test]
fn a_new_element_has_only_its_name() {
    let tag = VTag::new("div");
    assert_eq!(tag.tag(), "div");
    assert_eq!(tag.attributes.len(), 0);
    assert_eq!(tag.classes.len(), 0);
    assert_eq!(tag.listeners.len(), 0);
    assert!(tag.children.is_empty());
}

#[test]
fn builders_fill_the_element() {
    let mut tag = VTag::new("a");
    tag.set_attribute("href", "/");
    tag.set_attribute("href", "/home");
    tag.add_listener("click", 7);
    tag.add_child(text("home"));
    tag.add_child(VNode::Tag(VTag::new("br")));
    assert_eq!(tag.attributes.get("href"), Some(&"/home".to_string()));
    assert_eq!(tag.listeners.get("click"), Some(&7));
    assert_eq!(tag.children.len(), 2);
    assert_eq!(tag.children[0], text("home"));
}

#[test]
fn toggling_a_class_twice_leaves_it_off() {
    let mut tag = VTag::new("p");
    assert!(tag.toggle_class("big"));
    assert!(tag.classes.contains_key("big"));
    assert!(!tag.toggle_class("big"));
    assert!(!tag.classes.contains_key("big"));
}

#[test]
fn texts_are_the_same_if_their_strings_are() {
    assert!(text("a").same(&text("a")));
    assert!(!text("a").same(&text("b")));
    assert!(!text("a").same(&VNode::Tag(VTag::new("a"))));
}

#[test]
fn elements_are_compared_field_by_field() {
    let mut one = VTag::new("div");
    one.set_attribute("id", "x");
    one.add_child(text("a"));
    let copy = one.duplicate();
    assert!(one.same(&copy));
    assert_eq!(one, copy);

    let mut other_name = VTag::new("span");
    other_name.set_attribute("id", "x");
    other_name.add_child(text("a"));
    assert!(!one.same(&other_name));

    let mut other_child = VTag::new("div");
    other_child.set_attribute("id", "x");
    other_child.add_child(text("b"));
    assert!(!one.same(&other_child));

    let mut more_children = one.duplicate();
    more_children.add_child(text("c"));
    assert!(!one.same(&more_children));

    let mut other_class = one.duplicate();
    other_class.toggle_class("big");
    assert!(!one.same(&other_class));

    let mut other_listener = one.duplicate();
    other_listener.add_listener("click", 1);
    assert!(!one.same(&other_listener));
}

#[test]
fn a_path_leads_to_a_node() {
    let mut inner = VTag::new("li");
    inner.add_child(text("one"));
    let mut list = VTag::new("ul");
    list.add_child(VNode::Tag(inner));
    list.add_child(text("tail"));
    let root = VNode::Tag(list);
    assert_eq!(root.at(&vec![]), Some(&root));
    assert_eq!(root.at(&vec![1]), Some(&text("tail")));
    assert_eq!(root.at(&vec![0, 0]), Some(&text("one")));
    assert_eq!(root.at(&vec![2]), None);
    assert_eq!(root.at(&vec![1, 0]), None);
    assert_eq!(root.at(&vec![0, 0, 0]), None);
}
