use stdweb::web::{Element, EventListenerHandle};
use virtual_dom::listener::{describe, label, Listener, Messages};
use virtual_dom::pool::{deliver, Pool};
use virtual_dom::surface::Surface;
use virtual_dom::vnode::VNode;
use virtual_dom::vtag::VTag;

struct OnClick;

impl Listener<u32> for OnClick {
    fn kind(&self) -> &'static str {
        "click"
    }

    fn attach(&mut self, _element: &Element, _messages: Messages<u32>) -> EventListenerHandle {
        unreachable!()
    }
}

#[test]
fn a_listener_is_shown_by_its_kind() {
    assert_eq!(label("click"), "Listener { kind: click }");
    assert_eq!(label(""), "Listener { kind:  }");
    assert_eq!(describe(&OnClick), "Listener { kind: click }");
}

#[test]
fn an_element_listens_for_the_kind_of_its_listener() {
    let mut tag = VTag::new("button");
    tag.listen(&OnClick, 12);
    assert_eq!(tag.listeners.get("click"), Some(&12));
    assert_eq!(tag.listeners.len(), 1);
}

#[test]
fn a_pool_hands_out_messages_in_their_order() {
    let mut pool: Pool<u32> = Pool::new();
    assert_eq!(pool.len(), 0);
    pool.push(3);
    pool.push(1);
    pool.push(2);
    assert_eq!(pool.len(), 3);
    assert_eq!(pool.drain(), vec![3, 1, 2]);
    assert_eq!(pool.len(), 0);
    assert_eq!(pool.drain(), Vec::<u32>::new());
}

#[test]
fn a_message_comes_in_only_for_a_live_subscription() {
    let mut button = VTag::new("button");
    button.listen(&OnClick, 12);
    let mut surface = Surface::showing(1, VNode::Tag(button));
    let mut pool: Pool<&str> = Pool::new();
    assert_eq!(deliver(&surface, &vec![], "click", "first", &mut pool), Some(12));
    assert_eq!(deliver(&surface, &vec![], "input", "wrong kind", &mut pool), None);
    assert_eq!(deliver(&surface, &vec![0], "click", "wrong place", &mut pool), None);
    surface.tree = Some(VNode::Tag(VTag::new("button")));
    assert_eq!(deliver(&surface, &vec![], "click", "detached", &mut pool), None);
    assert_eq!(pool.drain(), vec!["first"]);
}
