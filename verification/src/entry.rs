//! Entries: tracked files and the tags attached to them.

use crate::db::uid::{list_has, Uid};
use crate::filter_spec::{passes, tags_satisfied, FilterSpec};
use crate::text::{
    chars_of, contains_text, file_name, file_name_of, lowercase, lowercase_of, occurs_in,
};
use vstd::prelude::*;

verus! {

/// Path to a file, along with the tags attached to it.
#[derive(Debug, Clone, PartialEq, Eq)]
pub struct Entry {
    /// Absolute path of the file, its components parted by `/`.
    pub path: String,
    /// The attached tags, in the order in which they were attached.
    pub tags: Vec<Uid>,
}

/// What an entry holds.
pub struct EntryView {
    pub path: Seq<char>,
    pub tags: Seq<Uid>,
}

impl View for Entry {
    type V = EntryView;

    open spec fn view(&self) -> EntryView {
        EntryView { path: self.path@, tags: self.tags@ }
    }
}

impl Entry {
    /// An entry without tags.
    pub fn new(path: String) -> (e: Entry)
        ensures
            e@ == (EntryView { path: path@, tags: Seq::empty() }),
    {
        Entry { path, tags: Vec::new() }
    }

    /// Whether `tag` is attached.
    pub fn has_tag(&self, tag: Uid) -> (b: bool)
        ensures
            b == self@.tags.contains(tag),
    {
        list_has(&self.tags, tag)
    }

    /// Whether the entry passes the filter `spec`.
    pub fn spec_satisfied(&self, spec: &FilterSpec) -> (b: bool)
        ensures
            b == passes(self@.path, self@.tags, spec@),
    {
        if !tags_satisfied(&self.tags, spec) {
            return false;
        }
        if spec.filename_substring.as_str().unicode_len() == 0 {
            return true;
        }
        let needle = chars_of(lowercase(spec.filename_substring.as_str()).as_str());
        self.name_holds(&needle)
    }

    /// Whether the lower-case form of the entry's file name holds `needle`.
    pub fn name_holds(&self, needle: &Vec<char>) -> (b: bool)
        ensures
            b == occurs_in(needle@, lowercase_of(file_name_of(self@.path))),
    {
        let name = file_name(self.path.as_str());
        let lower = chars_of(lowercase(name.as_str()).as_str());
        contains_text(&lower, needle)
    }
}

/// `uid` if `entry` passes the filter `spec`.
pub fn filter_map(uid: Uid, entry: &Entry, spec: &FilterSpec) -> (r: Option<Uid>)
    ensures
        r == if passes(entry@.path, entry@.tags, spec@) {
            Some(uid)
        } else {
            None
        },
{
    if entry.spec_satisfied(spec) {
        Some(uid)
    } else {
        None
    }
}

} // verus!
