//! Tags: named labels with aliases and implications.

use crate::db::uid::{
    lemma_without_contains, list_has, list_within, list_without, without, Uid, UidSet,
};
use crate::text::texts;
use vstd::prelude::*;

verus! {

/// A label that can be attached to entries. It always has at least one
/// name: the first is the one to display, the others are aliases.
#[derive(Debug, Clone, PartialEq, Eq)]
pub struct Tag {
    names: Vec<String>,
    implies: Vec<Uid>,
}

/// What a tag holds.
pub struct TagView {
    pub names: Seq<Seq<char>>,
    pub implies: Set<Uid>,
}

impl View for Tag {
    type V = TagView;

    closed spec fn view(&self) -> TagView {
        TagView { names: texts(self.names@), implies: self.implies@.to_set() }
    }
}

impl Tag {
    /// The implied tags, in the order in which they are held.
    pub closed spec fn implied(&self) -> Seq<Uid> {
        self.implies@
    }

    /// The implied tags are the tags of the list of implied tags.
    pub proof fn lemma_implied(&self)
        ensures
            self@.implies == self.implied().to_set(),
    {
    }

    /// The tag has a name.
    pub open spec fn wf(&self) -> bool {
        self@.names.len() > 0
    }

    /// A tag with the names `names`, the first of which is the one to
    /// display, if there is at least one name.
    pub fn new(names: Vec<String>, implies: Vec<Uid>) -> (tag: Option<Tag>)
        ensures
            tag is Some <==> names@.len() > 0,
            tag matches Some(t) ==> t.wf() && t.implied() == implies@ && t@ == (TagView {
                names: texts(names@),
                implies: implies@.to_set(),
            }),
    {
        if names.len() == 0 {
            None
        } else {
            Some(Tag { names, implies })
        }
    }

    /// A tag with one name and no implication.
    pub fn named(name: String) -> (tag: Tag)
        ensures
            tag.wf(),
            tag@ == (TagView { names: seq![name@], implies: Set::empty() }),
    {
        let mut names: Vec<String> = Vec::new();
        names.push(name);
        let tag = Tag { names, implies: Vec::new() };
        assert(tag@.names =~= seq![name@]);
        assert(tag@.implies =~= Set::empty());
        tag
    }

    /// The names, the one to display first.
    pub fn names(&self) -> (names: &Vec<String>)
        ensures
            texts(names@) == self@.names,
    {
        &self.names
    }

    /// The implied tags, in the order in which they are held.
    pub fn implies(&self) -> (implies: &Vec<Uid>)
        ensures
            implies@ == self.implied(),
            implies@.to_set() == self@.implies,
    {
        &self.implies
    }

    /// Whether the tag implies `tag`.
    pub fn implies_tag(&self, tag: Uid) -> (b: bool)
        ensures
            b == self@.implies.contains(tag),
    {
        list_has(&self.implies, tag)
    }

    /// Whether `word` is one of the names.
    pub fn has_name(&self, word: &String) -> (b: bool)
        ensures
            b == self@.names.contains(word@),
    {
        let mut i: usize = 0;
        while i < self.names.len()
            invariant
                i <= self.names.len(),
                forall|j: int| 0 <= j < i ==> self@.names[j] != word@,
            decreases self.names.len() - i,
        {
            if self.names[i] == *word {
                assert(self@.names[i as int] == word@);
                return true;
            }
            i = i + 1;
        }
        false
    }

    /// Adds `name` as the last alias.
    pub fn add_name(&mut self, name: String)
        ensures
            final(self)@ == (TagView { names: old(self)@.names.push(name@), ..old(self)@ }),
    {
        self.names.push(name);
        assert(self@.names =~= old(self)@.names.push(name@));
    }

    /// Takes the name at position `i` away, unless it is the only name or
    /// there is no such position. Returns whether a name was taken away.
    pub fn remove_name(&mut self, i: usize) -> (removed: bool)
        ensures
            removed == (i < old(self)@.names.len() && old(self)@.names.len() > 1),
            removed ==> final(self)@ == (TagView {
                names: old(self)@.names.remove(i as int),
                ..old(self)@
            }),
            !removed ==> final(self)@ == old(self)@,
    {
        if i < self.names.len() && self.names.len() > 1 {
            self.names.remove(i);
            assert(self@.names =~= old(self)@.names.remove(i as int));
            true
        } else {
            false
        }
    }

    /// Lets the tag imply `tag`. Returns whether that was new.
    pub fn add_implication(&mut self, tag: Uid) -> (fresh: bool)
        ensures
            final(self)@ == (TagView { implies: old(self)@.implies.insert(tag), ..old(self)@ }),
            fresh == !old(self)@.implies.contains(tag),
    {
        if list_has(&self.implies, tag) {
            assert(self@.implies =~= old(self)@.implies.insert(tag));
            false
        } else {
            self.implies.push(tag);
            proof {
                crate::db::uid::lemma_push_to_set(old(self).implies@, tag);
            }
            true
        }
    }

    /// Lets the tag no longer imply `tag`. Returns whether it did.
    pub fn remove_implication(&mut self, tag: Uid) -> (was_implied: bool)
        ensures
            final(self)@ == (TagView { implies: old(self)@.implies.remove(tag), ..old(self)@ }),
            was_implied == old(self)@.implies.contains(tag),
    {
        let was_implied = list_has(&self.implies, tag);
        self.implies = list_without(&self.implies, tag);
        proof {
            let before = old(self).implies@;
            let after = without(before, set![tag]);
            assert forall|x: Uid| after.contains(x) <==> (before.contains(x) && x != tag) by {
                lemma_without_contains(before, set![tag], x);
            }
            assert(self@.implies =~= old(self)@.implies.remove(tag));
        }
        was_implied
    }

    /// Lets the tag imply only what it implied of the tags in `live`.
    pub fn keep_implications(&mut self, live: &UidSet)
        requires
            live.wf(),
        ensures
            final(self)@ == (TagView {
                implies: old(self)@.implies.intersect(live@),
                ..old(self)@
            }),
    {
        self.implies = list_within(&self.implies, live);
        proof {
            let before = old(self).implies@;
            let after = without(before, live@.complement());
            assert forall|x: Uid| after.contains(x) <==> (before.contains(x) && live@.contains(x)) by {
                lemma_without_contains(before, live@.complement(), x);
            }
            assert(self@.implies =~= old(self)@.implies.intersect(live@));
        }
    }
}

} // verus!
