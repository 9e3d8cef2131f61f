//! The filter: a conjunction of conditions on an entry's file name and tags.

use crate::db::uid::{list_has, Uid, UidSet};
use crate::text::{file_name_of, lowercase_of, occurs_in};
use vstd::prelude::*;

verus! {

/// A conjunction of conditions on an entry.
#[derive(Debug, Clone, PartialEq, Eq)]
pub struct FilterSpec {
    /// Tags that the entry must have, all of them.
    pub has_tags: UidSet,
    /// Text that the entry's file name must hold, whatever the case of
    /// either. The empty text is held by every name.
    pub filename_substring: String,
    /// Tags of which the entry must have none.
    pub doesnt_have_tags: UidSet,
    /// The entry must have no tag at all.
    pub doesnt_have_any_tags: bool,
}

/// What a filter asks for.
pub struct FilterSpecView {
    pub has_tags: Set<Uid>,
    pub filename_substring: Seq<char>,
    pub doesnt_have_tags: Set<Uid>,
    pub doesnt_have_any_tags: bool,
}

impl View for FilterSpec {
    type V = FilterSpecView;

    open spec fn view(&self) -> FilterSpecView {
        FilterSpecView {
            has_tags: self.has_tags@,
            filename_substring: self.filename_substring@,
            doesnt_have_tags: self.doesnt_have_tags@,
            doesnt_have_any_tags: self.doesnt_have_any_tags,
        }
    }
}

/// The tag list `tags` meets the three conditions that a filter puts on
/// tags: every required tag is there, no excluded tag is, and the list is
/// empty where the filter asks for an entry without tags.
pub open spec fn tags_match(tags: Seq<Uid>, spec: FilterSpecView) -> bool {
    &&& forall|t: Uid| spec.has_tags.contains(t) ==> tags.contains(t)
    &&& forall|t: Uid| spec.doesnt_have_tags.contains(t) ==> !tags.contains(t)
    &&& spec.doesnt_have_any_tags ==> tags.len() == 0
}

/// The file name of `path` holds `text`, case set aside: the lower-case
/// form of `text` stands in the lower-case form of the path's final
/// component. The empty text is held by every name.
pub open spec fn name_matches(path: Seq<char>, text: Seq<char>) -> bool {
    text.len() == 0 || occurs_in(lowercase_of(text), lowercase_of(file_name_of(path)))
}

/// An entry with path `path` and tag list `tags` passes the filter.
pub open spec fn passes(path: Seq<char>, tags: Seq<Uid>, spec: FilterSpecView) -> bool {
    name_matches(path, spec.filename_substring) && tags_match(tags, spec)
}

impl Default for FilterSpec {
    /// The filter that every entry passes.
    fn default() -> (spec: FilterSpec)
        ensures
            spec.wf(),
            spec@ == (FilterSpecView {
                has_tags: Set::empty(),
                filename_substring: Seq::empty(),
                doesnt_have_tags: Set::empty(),
                doesnt_have_any_tags: false,
            }),
    {
        FilterSpec::new()
    }
}

impl FilterSpec {
    /// Both tag sets are well-formed.
    pub open spec fn wf(&self) -> bool {
        self.has_tags.wf() && self.doesnt_have_tags.wf()
    }

    /// Whether the filter asks for anything.
    pub fn active(&self) -> (b: bool)
        ensures
            b == (self@.has_tags != Set::<Uid>::empty() || self@.doesnt_have_tags != Set::<
                Uid,
            >::empty() || self@.filename_substring.len() > 0 || self@.doesnt_have_any_tags),
    {
        !self.has_tags.is_empty() || !self.doesnt_have_tags.is_empty()
            || self.filename_substring.as_str().unicode_len() > 0 || self.doesnt_have_any_tags
    }

    /// Makes this the filter that every entry passes.
    pub fn clear(&mut self)
        ensures
            final(self).wf(),
            final(self)@ == (FilterSpecView {
                has_tags: Set::empty(),
                filename_substring: Seq::empty(),
                doesnt_have_tags: Set::empty(),
                doesnt_have_any_tags: false,
            }),
    {
        self.has_tags.clear();
        self.doesnt_have_tags.clear();
        self.filename_substring = String::new();
        self.doesnt_have_any_tags = false;
    }

    /// Whether the filter requires `tag`.
    pub fn have_tag(&self, tag: Uid) -> (b: bool)
        requires
            self.wf(),
        ensures
            b == self@.has_tags.contains(tag),
    {
        self.has_tags.contains(tag)
    }

    /// Whether the filter excludes `tag`.
    pub fn not_have_tag(&self, tag: Uid) -> (b: bool)
        requires
            self.wf(),
        ensures
            b == self@.doesnt_have_tags.contains(tag),
    {
        self.doesnt_have_tags.contains(tag)
    }

    /// Lets the filter require `tag`, or no longer require it.
    pub fn set_have_tag(&mut self, tag: Uid, have: bool)
        requires
            old(self).wf(),
        ensures
            final(self).wf(),
            final(self)@ == (FilterSpecView {
                has_tags: if have {
                    old(self)@.has_tags.insert(tag)
                } else {
                    old(self)@.has_tags.remove(tag)
                },
                ..old(self)@
            }),
    {
        if have {
            self.has_tags.insert(tag);
        } else {
            self.has_tags.remove(tag);
        }
    }

    /// Lets the filter exclude `tag`, or no longer exclude it.
    pub fn set_not_have_tag(&mut self, tag: Uid, not_have: bool)
        requires
            old(self).wf(),
        ensures
            final(self).wf(),
            final(self)@ == (FilterSpecView {
                doesnt_have_tags: if not_have {
                    old(self)@.doesnt_have_tags.insert(tag)
                } else {
                    old(self)@.doesnt_have_tags.remove(tag)
                },
                ..old(self)@
            }),
    {
        if not_have {
            self.doesnt_have_tags.insert(tag);
        } else {
            self.doesnt_have_tags.remove(tag);
        }
    }

    /// Lets the filter require `tag` if it did not, and no longer require
    /// it if it did.
    pub fn toggle_have_tag(&mut self, tag: Uid)
        requires
            old(self).wf(),
        ensures
            final(self).wf(),
            final(self)@ == (FilterSpecView {
                has_tags: if old(self)@.has_tags.contains(tag) {
                    old(self)@.has_tags.remove(tag)
                } else {
                    old(self)@.has_tags.insert(tag)
                },
                ..old(self)@
            }),
    {
        if !self.has_tags.remove(tag) {
            self.has_tags.insert(tag);
            assert(self@.has_tags =~= old(self)@.has_tags.insert(tag));
        }
    }

    /// Lets the filter exclude `tag` if it did not, and no longer exclude
    /// it if it did.
    pub fn toggle_not_have_tag(&mut self, tag: Uid)
        requires
            old(self).wf(),
        ensures
            final(self).wf(),
            final(self)@ == (FilterSpecView {
                doesnt_have_tags: if old(self)@.doesnt_have_tags.contains(tag) {
                    old(self)@.doesnt_have_tags.remove(tag)
                } else {
                    old(self)@.doesnt_have_tags.insert(tag)
                },
                ..old(self)@
            }),
    {
        if !self.doesnt_have_tags.remove(tag) {
            self.doesnt_have_tags.insert(tag);
            assert(self@.doesnt_have_tags =~= old(self)@.doesnt_have_tags.insert(tag));
        }
    }

    /// The filter that every entry passes.
    pub fn new() -> (spec: FilterSpec)
        ensures
            spec.wf(),
            spec@ == (FilterSpecView {
                has_tags: Set::empty(),
                filename_substring: Seq::empty(),
                doesnt_have_tags: Set::empty(),
                doesnt_have_any_tags: false,
            }),
    {
        FilterSpec {
            has_tags: UidSet::new(),
            filename_substring: String::new(),
            doesnt_have_tags: UidSet::new(),
            doesnt_have_any_tags: false,
        }
    }
}

/// Whether the tag list `tags` meets the conditions that `spec` puts on
/// tags.
pub fn tags_satisfied(tags: &Vec<Uid>, spec: &FilterSpec) -> (b: bool)
    ensures
        b == tags_match(tags@, spec@),
{
    if spec.doesnt_have_any_tags && tags.len() > 0 {
        return false;
    }
    let mut i: usize = 0;
    while i < spec.has_tags.len()
        invariant
            i <= spec.has_tags.ids().len(),
            forall|j: int| 0 <= j < i ==> tags@.contains(spec.has_tags.ids()[j]),
        decreases spec.has_tags.ids().len() - i,
    {
        let required = spec.has_tags.id_at(i);
        if !list_has(tags, required) {
            return false;
        }
        i = i + 1;
    }
    let mut k: usize = 0;
    while k < spec.doesnt_have_tags.len()
        invariant
            k <= spec.doesnt_have_tags.ids().len(),
            forall|j: int| 0 <= j < k ==> !tags@.contains(spec.doesnt_have_tags.ids()[j]),
        decreases spec.doesnt_have_tags.ids().len() - k,
    {
        let excluded = spec.doesnt_have_tags.id_at(k);
        if list_has(tags, excluded) {
            return false;
        }
        k = k + 1;
    }
    true
}

/// An entry passes the filter that asks for entries without tags, and for
/// nothing else, if and only if it has no tag.
pub proof fn lemma_no_tag_filter(path: Seq<char>, tags: Seq<Uid>, spec: FilterSpecView)
    requires
        spec.doesnt_have_any_tags,
        spec.has_tags == Set::<Uid>::empty(),
        spec.doesnt_have_tags == Set::<Uid>::empty(),
        spec.filename_substring.len() == 0,
    ensures
        passes(path, tags, spec) <==> tags.len() == 0,
{
}

/// No entry that has a tag passes a filter that asks for entries without
/// tags, whatever else the filter asks for.
pub proof fn lemma_no_tag_excludes(path: Seq<char>, tags: Seq<Uid>, spec: FilterSpecView)
    requires
        spec.doesnt_have_any_tags,
        tags.len() > 0,
    ensures
        !passes(path, tags, spec),
{
}

} // verus!
