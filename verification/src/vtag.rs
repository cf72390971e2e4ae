//! Element nodes.

use crate::keyed::{Content, Keyed};
use crate::listener::Listener;
use crate::vnode::{duplicate_tag, node_view, same_tag, NodeView, VNode};
use vstd::prelude::*;

verus! {

/// The attributes of an element, values by name.
pub type Attributes = Keyed<String>;

/// The classes of an element.
pub type Classes = Keyed<()>;

/// The listeners of an element by the kind of event they wait for. What is
/// kept under a kind is the reference of the callback: the number under which
/// the application holds the listener itself.
pub type Listeners = Keyed<u64>;

/// An element: a named tag with attributes, classes, listeners and an ordered
/// list of children that it alone owns.
#[derive(Debug, PartialEq, Eq)]
pub struct VTag {
    /// The tag name.
    pub tag: String,
    /// The attributes.
    pub attributes: Attributes,
    /// The classes.
    pub classes: Classes,
    /// The listeners.
    pub listeners: Listeners,
    /// The children, first to last.
    pub children: Vec<VNode>,
}

/// What an element is, whatever way it is held in memory.
pub struct TagView {
    /// The tag name.
    pub tag: Seq<char>,
    /// The attributes.
    pub attributes: Map<Seq<char>, Seq<char>>,
    /// The classes: the keys of the map.
    pub classes: Map<Seq<char>, ()>,
    /// The callback reference of each kind of event listened for.
    pub listeners: Map<Seq<char>, u64>,
    /// The children, first to last.
    pub children: Seq<NodeView>,
}

/// The element `tag` with the callback `callback` listening for events of
/// `kind`, in place of any other for that kind.
pub open spec fn with_listener(tag: TagView, kind: Seq<char>, callback: u64) -> TagView {
    TagView { listeners: tag.listeners.insert(kind, callback), ..tag }
}

impl View for VTag {
    type V = TagView;

    open spec fn view(&self) -> TagView {
        node_view(VNode::Tag(*self))->Tag_0
    }
}

impl Content for VTag {
    fn same(&self, other: &Self) -> (b: bool) {
        same_tag(self, other)
    }

    fn duplicate(&self) -> (copy: Self) {
        duplicate_tag(self)
    }
}

impl VTag {
    /// An element named `tag` with no attribute, class, listener or child.
    pub fn new(tag: &str) -> (node: VTag)
        ensures
            node@ == (TagView {
                tag: tag@,
                attributes: Map::empty(),
                classes: Map::empty(),
                listeners: Map::empty(),
                children: Seq::empty(),
            }),
    {
        let node = VTag {
            tag: tag.to_owned(),
            attributes: Keyed::new(),
            classes: Keyed::new(),
            listeners: Keyed::new(),
            children: Vec::new(),
        };
        proof {
            assert(node@.children =~= Seq::empty());
        }
        node
    }

    /// The tag name.
    pub fn tag(&self) -> (name: &str)
        ensures
            name@ == self@.tag,
    {
        self.tag.as_str()
    }

    /// Gives the attribute `name` the value `value`.
    pub fn set_attribute(&mut self, name: &str, value: &str)
        ensures
            final(self)@ == (TagView {
                attributes: old(self)@.attributes.insert(name@, value@),
                ..old(self)@
            }),
    {
        self.attributes.set(name.to_owned(), value.to_owned());
        proof {
            assert(self@.children =~= old(self)@.children);
        }
    }

    /// Adds the class if the element does not have it and takes it away if it
    /// does. Says whether the element has the class afterwards.
    pub fn toggle_class(&mut self, class: &str) -> (on: bool)
        ensures
            on == !old(self)@.classes.contains_key(class@),
            final(self)@ == (TagView {
                classes: if on {
                    old(self)@.classes.insert(class@, ())
                } else {
                    old(self)@.classes.remove(class@)
                },
                ..old(self)@
            }),
    {
        let on = !self.classes.contains_key(class);
        if on {
            self.classes.set(class.to_owned(), ());
        } else {
            self.classes.remove(class);
        }
        proof {
            assert(self@.children =~= old(self)@.children);
        }
        on
    }

    /// Has the element listen for events of `kind` with the callback that
    /// `callback` refers to, in place of any other for that kind.
    pub fn add_listener(&mut self, kind: &str, callback: u64)
        ensures
            final(self)@ == with_listener(old(self)@, kind@, callback),
    {
        self.listeners.set(kind.to_owned(), callback);
        proof {
            assert(self@.children =~= old(self)@.children);
        }
    }

    /// Has the element listen with `listener`, which the application holds
    /// under the reference `callback`: for the kind of event that the listener
    /// names, in place of any other for that kind.
    pub fn listen<MSG, L: Listener<MSG> + ?Sized>(&mut self, listener: &L, callback: u64)
        ensures
            exists|kind: Seq<char>| final(self)@ == #[trigger] with_listener(old(self)@, kind, callback),
    {
        let kind = listener.kind();
        self.add_listener(kind, callback);
        proof {
            assert(self@ == with_listener(old(self)@, kind@, callback));
        }
    }

    /// Appends `child` after the children that are there.
    pub fn add_child(&mut self, child: VNode)
        ensures
            final(self)@ == (TagView {
                children: old(self)@.children.push(child@),
                ..old(self)@
            }),
    {
        self.children.push(child);
        proof {
            assert(self@.children =~= old(self)@.children.push(child@));
        }
    }
}

} // verus!
