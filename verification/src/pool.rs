//! The pool of messages that wait for the application.

use crate::surface::{subscription, Surface};
use vstd::prelude::*;

verus! {

/// Messages in the order in which they came. Listeners put them in one by
/// one, and the application takes all of them at once.
pub struct Pool<MSG> {
    pending: Vec<MSG>,
}

impl<MSG> View for Pool<MSG> {
    type V = Seq<MSG>;

    closed spec fn view(&self) -> Seq<MSG> {
        self.pending@
    }
}

impl<MSG> Pool<MSG> {
    /// A pool with no message in it.
    pub fn new() -> (pool: Self)
        ensures
            pool@ == Seq::<MSG>::empty(),
    {
        Pool { pending: Vec::new() }
    }

    /// The number of messages that wait.
    pub fn len(&self) -> (n: usize)
        ensures
            n == self@.len(),
    {
        self.pending.len()
    }

    /// Puts `message` behind the messages that wait.
    pub fn push(&mut self, message: MSG)
        ensures
            final(self)@ == old(self)@.push(message),
    {
        self.pending.push(message);
    }

    /// Takes all messages out, oldest first, and leaves the pool empty.
    pub fn drain(&mut self) -> (messages: Vec<MSG>)
        ensures
            messages@ == old(self)@,
            final(self)@ == Seq::<MSG>::empty(),
    {
        let mut messages: Vec<MSG> = Vec::new();
        std::mem::swap(&mut messages, &mut self.pending);
        messages
    }
}

/// Takes in the message that was made of an event of `kind` at the element
/// that `path` leads to. It goes into the pool if the surface has a
/// subscription for that kind there, and the callback subscribed is handed
/// back; otherwise the message is dropped, so that nothing comes into the
/// pool from a listener that was detached.
pub fn deliver<MSG>(
    surface: &Surface,
    path: &Vec<usize>,
    kind: &str,
    message: MSG,
    pool: &mut Pool<MSG>,
) -> (callback: Option<u64>)
    ensures
        callback == subscription(surface@.tree, path@, kind@),
        final(pool)@ == if callback is Some {
            old(pool)@.push(message)
        } else {
            old(pool)@
        },
{
    let callback = surface.subscription(path, kind);
    if callback.is_some() {
        pool.push(message);
    }
    callback
}

} // verus!
