//! The shape of a parsed document.

use vstd::prelude::*;

verus! {

/// An element of a document: its name, its attributes as pairs of name and
/// value in the order they were written, and the elements nested in it, in
/// order. An element owns its attributes and its children.
pub struct Element {
    pub name: String,
    pub attributes: Vec<(String, String)>,
    pub children: Vec<Element>,
}

} // verus!
