//! The one shape every mutation instruction has.

use crate::keyed::Content;
use vstd::prelude::*;

verus! {

/// One atomic mutation: `ID` says where, `T` is what is put there.
#[derive(Debug, Clone, PartialEq, Eq)]
pub enum Patch<ID, T> {
    /// Put a value at a position that holds none.
    Add(ID, T),
    /// Put a value at a position that holds another.
    Replace(ID, T),
    /// Take away what the position holds.
    Remove(ID),
}

impl<ID, T> Patch<ID, T> {
    /// The position the patch speaks of.
    pub open spec fn target(self) -> ID {
        match self {
            Patch::Add(id, _) => id,
            Patch::Replace(id, _) => id,
            Patch::Remove(id) => id,
        }
    }

    /// The position the patch speaks of.
    pub fn id(&self) -> (id: &ID)
        ensures
            *id == self.target(),
    {
        match self {
            Patch::Add(id, _) => id,
            Patch::Replace(id, _) => id,
            Patch::Remove(id) => id,
        }
    }
}

impl<ID: View, T: View> View for Patch<ID, T> {
    type V = Patch<ID::V, T::V>;

    open spec fn view(&self) -> Patch<ID::V, T::V> {
        match *self {
            Patch::Add(id, value) => Patch::Add(id@, value@),
            Patch::Replace(id, value) => Patch::Replace(id@, value@),
            Patch::Remove(id) => Patch::Remove(id@),
        }
    }
}

/// The patches of a list, each by its view.
pub open spec fn views<ID: View, T: View>(patches: Seq<Patch<ID, T>>) -> Seq<Patch<ID::V, T::V>> {
    Seq::new(patches.len(), |i: int| patches[i]@)
}

impl<T: Content> Patch<String, T> {
    /// A copy of a patch under a string key.
    pub fn duplicate(&self) -> (copy: Self)
        ensures
            copy@ == self@,
    {
        match self {
            Patch::Add(key, value) => Patch::Add(key.clone(), value.duplicate()),
            Patch::Replace(key, value) => Patch::Replace(key.clone(), value.duplicate()),
            Patch::Remove(key) => Patch::Remove(key.clone()),
        }
    }
}

} // verus!
