//! Text nodes.

use crate::keyed::Content;
use vstd::prelude::*;

verus! {

/// A node that holds a string and nothing else.
#[derive(Debug, Clone, PartialEq, Eq)]
pub struct VText {
    /// The string shown.
    pub text: String,
}

impl View for VText {
    type V = Seq<char>;

    open spec fn view(&self) -> Seq<char> {
        self.text@
    }
}

impl VText {
    /// A text node that shows `text`.
    pub fn new(text: &str) -> (node: VText)
        ensures
            node@ == text@,
    {
        VText { text: text.to_owned() }
    }
}

impl Content for VText {
    fn same(&self, other: &Self) -> (b: bool) {
        self.text == other.text
    }

    fn duplicate(&self) -> (copy: Self) {
        VText { text: self.text.clone() }
    }
}

} // verus!
