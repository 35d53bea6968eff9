//! Core identifiers: the `Label` that names every rule, toolchain and archive.

use vstd::prelude::*;

verus! {

/// A unique, hierarchical identifier naming a build rule or toolchain.
/// Labels are opaque strings with value semantics; they key every registry.
#[derive(Debug)]
pub struct Label {
    id: String,
}

impl View for Label {
    type V = Seq<char>;

    closed spec fn view(&self) -> Seq<char> {
        self.id@
    }
}

impl Label {
    /// Wraps a string as a label.
    pub fn new(id: String) -> (r: Label)
        ensures
            r@ == id@,
    {
        Label { id }
    }

    /// The underlying string form of the label.
    pub fn as_string(&self) -> (r: &String)
        ensures
            r@ == self@,
    {
        &self.id
    }

    /// Label equality: two labels are the same name exactly when their
    /// string forms agree character for character.
    pub fn same_as(&self, other: &Label) -> (r: bool)
        ensures
            r == (self@ == other@),
    {
        self.id == other.id
    }
}

impl Clone for Label {
    fn clone(&self) -> (r: Self)
        ensures
            r@ == self@,
    {
        Label { id: self.id.clone() }
    }
}

} // verus!
