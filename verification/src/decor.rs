//! The whitespace and comments around a node.

use crate::text::{copy_bytes, has_newline, contains_newline};
use vstd::prelude::*;

verus! {

/// The raw text that stood before and after a node, kept byte for byte.
#[derive(Debug, PartialEq, Eq)]
pub struct Decor {
    pub prefix: Vec<u8>,
    pub suffix: Vec<u8>,
}

/// The decoration as two byte strings.
pub struct DecorView {
    pub prefix: Seq<u8>,
    pub suffix: Seq<u8>,
}

impl DecorView {
    /// No text on either side.
    pub open spec fn empty() -> DecorView {
        DecorView { prefix: Seq::empty(), suffix: Seq::empty() }
    }

    /// Whether either side holds a line break.
    pub open spec fn has_newline(self) -> bool {
        has_newline(self.prefix) || has_newline(self.suffix)
    }
}

impl View for Decor {
    type V = DecorView;

    open spec fn view(&self) -> DecorView {
        DecorView { prefix: self.prefix@, suffix: self.suffix@ }
    }
}

impl Decor {
    /// A decoration with no text on either side.
    pub fn empty() -> (d: Decor)
        ensures
            d@ == DecorView::empty(),
    {
        Decor { prefix: Vec::new(), suffix: Vec::new() }
    }

    /// A decoration holding copies of the two given texts.
    pub fn new(prefix: &[u8], suffix: &[u8]) -> (d: Decor)
        ensures
            d@ == (DecorView { prefix: prefix@, suffix: suffix@ }),
    {
        Decor { prefix: copy_bytes(prefix), suffix: copy_bytes(suffix) }
    }

    /// The text before the node.
    pub fn prefix(&self) -> (p: &[u8])
        ensures
            p@ == self@.prefix,
    {
        self.prefix.as_slice()
    }

    /// The text after the node.
    pub fn suffix(&self) -> (s: &[u8])
        ensures
            s@ == self@.suffix,
    {
        self.suffix.as_slice()
    }

    /// Tells whether either side holds a line break.
    pub fn contains_newline(&self) -> (found: bool)
        ensures
            found == self@.has_newline(),
    {
        contains_newline(self.prefix.as_slice()) || contains_newline(self.suffix.as_slice())
    }

    /// A copy of this decoration.
    pub fn duplicate(&self) -> (d: Decor)
        ensures
            d@ == self@,
    {
        Decor { prefix: copy_bytes(self.prefix.as_slice()), suffix: copy_bytes(self.suffix.as_slice()) }
    }
}

} // verus!
