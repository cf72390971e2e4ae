//! The handles of the subscriptions of one live element.
//!
//! A listener that is attached to an element leaves a handle, and the
//! subscription lasts until the handle is removed. The registry of an element
//! keeps one handle per kind of event. A handle goes in when the listener is
//! attached and comes out once, when the listener is detached or the element
//! goes.

use crate::applier::ApplyError;
use crate::keyed::Keyed;
use crate::listener::{Listener, Messages};
use crate::text::precedes;
use stdweb::web::{Element, EventListenerHandle};
use vstd::prelude::*;

verus! {

/// A handle as the registry keeps it.
struct Held<H> {
    handle: H,
}

impl<H> View for Held<H> {
    type V = H;

    closed spec fn view(&self) -> H {
        self.handle
    }
}

/// The handles of one element by the kind of event. `H` is what attaching
/// hands back: for a document in the browser an `EventListenerHandle`.
pub struct Registry<H> {
    held: Keyed<Held<H>>,
}

impl<H> View for Registry<H> {
    type V = Map<Seq<char>, H>;

    closed spec fn view(&self) -> Map<Seq<char>, H> {
        self.held@
    }
}

impl<H> Registry<H> {
    /// The registry of an element to which nothing is attached.
    pub fn new() -> (registry: Self)
        ensures
            registry@ == Map::<Seq<char>, H>::empty(),
    {
        Registry { held: Keyed::new() }
    }

    /// The number of handles kept.
    pub fn len(&self) -> (n: usize)
        ensures
            self@.dom().finite(),
            n == self@.dom().len(),
    {
        self.held.len()
    }

    /// Whether a handle is kept for `kind`.
    pub fn holds(&self, kind: &str) -> (held: bool)
        ensures
            held == self@.contains_key(kind@),
    {
        self.held.contains_key(kind)
    }

    /// Whether a listener for `kind` may be attached: it may where no handle
    /// is kept for that kind, and otherwise the kind is attached already.
    pub fn free_for(&self, kind: &str) -> (result: Result<(), ApplyError>)
        ensures
            result is Err <==> self@.contains_key(kind@),
            result is Err ==> result == Err::<(), ApplyError>(ApplyError::AlreadyAttached),
    {
        if self.held.contains_key(kind) {
            Err(ApplyError::AlreadyAttached)
        } else {
            Ok(())
        }
    }

    /// Keeps `handle` for `kind`. Where a handle is kept for that kind
    /// already, nothing changes and `handle` is handed back.
    pub fn hold(&mut self, kind: &str, handle: H) -> (result: Result<(), H>)
        ensures
            match result {
                Ok(()) => !old(self)@.contains_key(kind@) && final(self)@ == old(self)@.insert(
                    kind@,
                    handle,
                ),
                Err(back) => old(self)@.contains_key(kind@) && final(self)@ == old(self)@ && back
                    == handle,
            },
    {
        if self.held.contains_key(kind) {
            Err(handle)
        } else {
            self.keep(kind, handle);
            Ok(())
        }
    }

    /// Keeps `handle` for `kind`, for which none is kept.
    fn keep(&mut self, kind: &str, handle: H)
        requires
            !old(self)@.contains_key(kind@),
        ensures
            final(self)@ == old(self)@.insert(kind@, handle),
    {
        self.held.set(kind.to_owned(), Held { handle });
    }

    /// A kind for which a handle is kept, if there is any: the first in
    /// dictionary order.
    pub fn first_kind(&self) -> (kind: Option<&String>)
        ensures
            match kind {
                Some(k) => {
                    &&& self@.contains_key(k@)
                    &&& forall|other: Seq<char>|
                        self@.contains_key(other) ==> other == k@ || precedes(k@, other)
                },
                None => self@ == Map::<Seq<char>, H>::empty(),
            },
    {
        if self.held.len() == 0 {
            proof {
                assert(self@ =~= Map::<Seq<char>, H>::empty());
            }
            None
        } else {
            proof {
                let keys = self.held.keys();
                Keyed::<Held<H>>::lemma_as_map(keys, self.held.values());
                assert forall|other: Seq<char>| self@.contains_key(other) implies other == keys[0]
                    || precedes(keys[0], other) by {
                    let i = keys.index_of(other);
                    if i > 0 {
                        assert(precedes(keys[0], keys[i]));
                    }
                }
            }
            Some(self.held.key_at(0))
        }
    }

    /// Hands out the handle kept for `kind`, which is then kept no longer.
    pub fn release(&mut self, kind: &str) -> (handle: Option<H>)
        ensures
            final(self)@ == old(self)@.remove(kind@),
            match handle {
                Some(h) => old(self)@.contains_key(kind@) && old(self)@[kind@] == h,
                None => !old(self)@.contains_key(kind@),
            },
    {
        match self.held.remove(kind) {
            Some(held) => Some(held.handle),
            None => None,
        }
    }
}

/// `EventListenerHandle::remove` of stdweb: takes the listener off the event
/// target it was registered on. Nothing is claimed of it.
#[verifier::external_body]
fn remove_handle(handle: EventListenerHandle) {
    handle.remove()
}

/// Attaches `listener` to `element` and keeps the handle, unless the element
/// has a listener for that kind of event already: then nothing is attached.
/// It fails only where a handle is kept already, so on an element to which
/// nothing is attached it goes through whatever the listener answers.
pub fn attach<MSG, L: Listener<MSG> + ?Sized>(
    registry: &mut Registry<EventListenerHandle>,
    listener: &mut L,
    element: &Element,
    messages: Messages<MSG>,
) -> (result: Result<(), ApplyError>)
    ensures
        match result {
            Ok(()) => exists|kind: Seq<char>, handle: EventListenerHandle|
                !old(registry)@.contains_key(kind) && final(registry)@ == #[trigger] old(
                    registry,
                )@.insert(kind, handle),
            Err(e) => e == ApplyError::AlreadyAttached && final(registry)@ == old(registry)@,
        },
        result is Err ==> exists|kind: Seq<char>| old(registry)@.contains_key(kind),
{
    let kind = listener.kind();
    match registry.free_for(kind) {
        Ok(()) => {},
        Err(taken) => {
            return Err(taken);
        },
    }
    let handle = listener.attach(element, messages);
    registry.keep(kind, handle);
    Ok(())
}

/// Detaches the listener for `kind`: removes its handle, which ends the
/// subscription. Fails where no listener is attached for that kind.
pub fn detach(registry: &mut Registry<EventListenerHandle>, kind: &str) -> (result: Result<
    (),
    ApplyError,
>)
    ensures
        final(registry)@ == old(registry)@.remove(kind@),
        match result {
            Ok(()) => old(registry)@.contains_key(kind@),
            Err(e) => e == ApplyError::NotAttached && !old(registry)@.contains_key(kind@),
        },
{
    match registry.release(kind) {
        Some(handle) => {
            remove_handle(handle);
            Ok(())
        },
        None => Err(ApplyError::NotAttached),
    }
}

/// Detaches every listener of the element, as is due before the element
/// goes: removes each handle once and keeps none.
pub fn detach_all(registry: &mut Registry<EventListenerHandle>)
    ensures
        final(registry)@ == Map::<Seq<char>, EventListenerHandle>::empty(),
{
    loop
        ensures
            registry@ == Map::<Seq<char>, EventListenerHandle>::empty(),
        decreases registry@.dom().len(),
    {
        let ghost before = registry@;
        proof {
            registry.held.lemma_finite();
        }
        let kind = match registry.first_kind() {
            Some(k) => k.clone(),
            None => {
                break ;
            },
        };
        if let Some(handle) = registry.release(kind.as_str()) {
            remove_handle(handle);
        }
        proof {
            assert(registry@.dom() =~= before.dom().remove(kind@));
        }
    }
}

} // verus!
