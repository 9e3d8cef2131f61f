//! Sequences: named, ordered groupings of entries.

use crate::db::uid::{list_has, Uid};
use vstd::prelude::*;

verus! {

/// A named, ordered list of entry identifiers. An identifier may stand in it
/// more than once, and may outlive the entry that it named.
#[derive(Debug, Clone, PartialEq, Eq)]
pub struct Sequence {
    pub name: String,
    pub entries: Vec<Uid>,
}

/// What a sequence holds.
pub struct SequenceView {
    pub name: Seq<char>,
    pub entries: Seq<Uid>,
}

impl View for Sequence {
    type V = SequenceView;

    open spec fn view(&self) -> SequenceView {
        SequenceView { name: self.name@, entries: self.entries@ }
    }
}

impl Sequence {
    /// A sequence without entries.
    pub fn new_with_name(name: &str) -> (s: Sequence)
        ensures
            s@ == (SequenceView { name: name@, entries: Seq::empty() }),
    {
        Sequence { name: name.to_owned(), entries: Vec::new() }
    }

    /// Whether `entry` stands in the sequence.
    pub fn contains(&self, entry: Uid) -> (b: bool)
        ensures
            b == self@.entries.contains(entry),
    {
        list_has(&self.entries, entry)
    }
}

} // verus!
