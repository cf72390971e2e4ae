//! Event listeners: what binds a callback of the application to a kind of
//! event on a live element.

use std::cell::RefCell;
use std::rc::Rc;
use stdweb::web::{Element, EventListenerHandle};
use vstd::prelude::*;

verus! {

/// `stdweb::web::Element`, a reference to an element of the document. Nothing
/// is said of what it holds.
#[verifier::external_type_specification]
#[verifier::external_body]
pub struct ExElement(Element);

/// `stdweb::web::EventListenerHandle`, what `add_event_listener` hands back
/// and `remove` takes. Nothing is said of what it holds.
#[verifier::external_type_specification]
#[verifier::external_body]
pub struct ExEventListenerHandle(EventListenerHandle);

/// `std::cell::RefCell`. Nothing is said of what it holds.
#[verifier::external_type_specification]
#[verifier::external_body]
#[verifier::reject_recursive_types(T)]
pub struct ExRefCell<T: ?Sized>(RefCell<T>);

/// A reference to a messages pool: the messages that listeners have made and
/// the application has not taken yet.
pub type Messages<MSG> = Rc<RefCell<Vec<MSG>>>;

/// An event listener: it knows the kind of event it waits for, and can bind
/// itself to an element of the document.
pub trait Listener<MSG> {
    /// The standard name of the event.
    fn kind(&self) -> &'static str;

    /// Attaches the listener to the element. When the event comes, the
    /// listener makes one message of it and puts it into the pool. The handle
    /// that comes back ends the subscription when it is removed.
    fn attach(&mut self, element: &Element, messages: Messages<MSG>) -> EventListenerHandle;
}

/// How a listener for `kind` is shown in debugging output.
pub open spec fn label_of(kind: Seq<char>) -> Seq<char> {
    "Listener { kind: "@ + kind + " }"@
}

/// How a listener for `kind` is shown in debugging output.
pub fn label(kind: &str) -> (text: String)
    ensures
        text@ == label_of(kind@),
{
    let mut text = String::from_str("Listener { kind: ");
    text.append(kind);
    text.append(" }");
    text
}

/// How `listener` is shown in debugging output: by the kind it answers with.
pub fn describe<MSG, L: Listener<MSG> + ?Sized>(listener: &L) -> (text: String)
    ensures
        exists|kind: Seq<char>| text@ == label_of(kind),
{
    let kind = listener.kind();
    let text = label(kind);
    proof {
        assert(text@ == label_of(kind@));
    }
    text
}

} // verus!
