//! The database of all entries, tags and sequences, and what can be done
//! with it.

use crate::db::uid::{
    all_below, ascending, lemma_push_has, lemma_push_to_set, lemma_without_nothing,
    lemma_without_twice, list_has, list_within, list_without, without, Uid, UidSet,
};
use crate::db::uid_map::UidMap;
use crate::entry::{Entry, EntryView};
use crate::filter_spec::{passes, tags_satisfied, FilterSpec};
use crate::sequence::{Sequence, SequenceView};
use crate::tag::{Tag, TagView};
use crate::text::{chars_of, folder_of, lowercase, with_file_name};
use vstd::prelude::*;

verus! {

pub type Entries = UidMap<Entry>;

pub type Tags = UidMap<Tag>;

pub type Sequences = UidMap<Sequence>;

/// The database of all entries.
///
/// This is the data that is saved between runs. It maps identifiers to
/// entries, tags and sequences, and hands out the identifiers. Every walk
/// over one of its stores goes by ascending identifier.
///
/// References from one item to another (an entry's tags, a tag's
/// implications, a sequence's entries) are plain identifiers. Deleting an
/// item leaves the references to it where they are, except that deleting a
/// tag takes it off every entry. A reference to nothing is ignored wherever
/// it is read.
#[derive(Debug, Clone, PartialEq, Eq)]
pub struct LocalDb {
    entries: Entries,
    tags: Tags,
    sequences: Sequences,
    uid_counter: Uid,
}

/// What a database holds.
pub struct DbView {
    pub entries: Map<Uid, EntryView>,
    pub tags: Map<Uid, TagView>,
    pub sequences: Map<Uid, SequenceView>,
    /// The next identifier to hand out.
    pub uid_counter: Uid,
}

/// Why an operation on the database changed nothing.
#[derive(Debug, Clone, Copy, PartialEq, Eq, Structural)]
pub enum DbError {
    /// No entry has the identifier.
    EntryNotFound,
    /// No tag has the identifier.
    TagNotFound,
    /// No sequence has the identifier.
    SequenceNotFound,
    /// Another entry has the path that the entry would get.
    PathTaken,
    /// The file was not renamed on disk, so the stored path stays.
    RenameFailed,
}

/// `entry` without the tags in `gone`.
pub open spec fn cleansed(entry: EntryView, gone: Set<Uid>) -> EntryView {
    EntryView { path: entry.path, tags: without(entry.tags, gone) }
}

/// `entry` with `tag` attached, if it was not attached yet.
pub open spec fn tagged(entry: EntryView, tag: Uid) -> EntryView {
    if entry.tags.contains(tag) {
        entry
    } else {
        EntryView { path: entry.path, tags: entry.tags.push(tag) }
    }
}

impl DbView {
    /// No stored identifier has yet to be handed out, and every tag has a
    /// name.
    pub open spec fn wf(self) -> bool {
        &&& forall|id: Uid| self.entries.contains_key(id) ==> id < self.uid_counter
        &&& forall|id: Uid| self.tags.contains_key(id) ==> id < self.uid_counter
        &&& forall|id: Uid| self.sequences.contains_key(id) ==> id < self.uid_counter
        &&& forall|id: Uid| self.tags.contains_key(id) ==> (#[trigger] self.tags[id]).names.len() > 0
    }

    /// `later` can come from this database by operations on it: the counter
    /// has not gone down, and every item of `later` either was there before
    /// under its identifier or has an identifier that the counter handed
    /// out in between.
    pub open spec fn evolves(self, later: DbView) -> bool {
        &&& self.uid_counter <= later.uid_counter
        &&& forall|id: Uid|
            later.entries.contains_key(id) ==> self.entries.contains_key(id) || self.uid_counter
                <= id < later.uid_counter
        &&& forall|id: Uid|
            later.tags.contains_key(id) ==> self.tags.contains_key(id) || self.uid_counter <= id
                < later.uid_counter
        &&& forall|id: Uid|
            later.sequences.contains_key(id) ==> self.sequences.contains_key(id)
                || self.uid_counter <= id < later.uid_counter
    }

    /// The database with `tag` attached to every entry of `entries` that
    /// exists and did not have it yet.
    pub open spec fn with_tag_on(self, entries: Set<Uid>, tag: Uid) -> DbView {
        DbView {
            entries: Map::new(
                |id: Uid| self.entries.contains_key(id),
                |id: Uid|
                    if entries.contains(id) {
                        tagged(self.entries[id], tag)
                    } else {
                        self.entries[id]
                    },
            ),
            ..self
        }
    }

    /// The database without the tags in `gone`: they have left the tag
    /// store and every entry's tag list.
    pub open spec fn without_tags(self, gone: Set<Uid>) -> DbView {
        DbView {
            entries: Map::new(
                |id: Uid| self.entries.contains_key(id),
                |id: Uid| cleansed(self.entries[id], gone),
            ),
            tags: self.tags.remove_keys(gone),
            ..self
        }
    }

    /// An entry other than `except` has the path `path`.
    pub open spec fn path_taken(self, path: Seq<char>, except: Uid) -> bool {
        exists|id: Uid|
            id != except && self.entries.contains_key(id) && (#[trigger] self.entries[id]).path
                == path
    }

    /// `id` is the first tag, by ascending identifier, that has the name
    /// `word`.
    pub open spec fn first_named(self, id: Uid, word: Seq<char>) -> bool {
        &&& self.tags.contains_key(id)
        &&& self.tags[id].names.contains(word)
        &&& forall|other: Uid|
            self.tags.contains_key(other) && (#[trigger] self.tags[other]).names.contains(word)
                ==> id <= other
    }

    /// No tag has the name `word`.
    pub open spec fn unnamed(self, word: Seq<char>) -> bool {
        forall|id: Uid| self.tags.contains_key(id) ==> !(#[trigger] self.tags[id]).names.contains(word)
    }

    /// The entry `id` passes the filter `spec`.
    pub open spec fn entry_passes(self, id: Uid, spec: crate::filter_spec::FilterSpecView) -> bool {
        self.entries.contains_key(id) && passes(self.entries[id].path, self.entries[id].tags, spec)
    }

    /// The sequence `id` holds one of `entries`.
    pub open spec fn sequence_touches(self, id: Uid, entries: Seq<Uid>) -> bool {
        self.sequences.contains_key(id) && exists|k: int|
            0 <= k < entries.len() && self.sequences[id].entries.contains(#[trigger] entries[k])
    }

    /// A tag of one of the entries `entries`.
    pub open spec fn tag_of_some(self, tag: Uid, entries: Seq<Uid>) -> bool {
        exists|k: int|
            0 <= k < entries.len() && self.entries.contains_key(#[trigger] entries[k])
                && self.entries[entries[k]].tags.contains(tag)
    }
}

impl Default for LocalDb {
    /// The empty database, whose first identifier will be 0.
    fn default() -> (db: LocalDb)
        ensures
            db.wf(),
            db@ == (DbView {
                entries: Map::empty(),
                tags: Map::empty(),
                sequences: Map::empty(),
                uid_counter: 0,
            }),
    {
        LocalDb::new()
    }
}

impl View for LocalDb {
    type V = DbView;

    open spec fn view(&self) -> DbView {
        DbView {
            entries: self.entry_store()@,
            tags: self.tag_store()@,
            sequences: self.sequence_store()@,
            uid_counter: self.next_uid(),
        }
    }
}

impl LocalDb {
    /// The store of the entries.
    pub closed spec fn entry_store(&self) -> Entries {
        self.entries
    }

    /// The store of the tags.
    pub closed spec fn tag_store(&self) -> Tags {
        self.tags
    }

    /// The store of the sequences.
    pub closed spec fn sequence_store(&self) -> Sequences {
        self.sequences
    }

    /// The next identifier to hand out.
    pub closed spec fn next_uid(&self) -> Uid {
        self.uid_counter
    }

    /// The stores are in order, no stored identifier has yet to be handed
    /// out, and every tag has a name.
    pub open spec fn wf(&self) -> bool {
        &&& self.entry_store().wf()
        &&& self.tag_store().wf()
        &&& self.sequence_store().wf()
        &&& self@.wf()
    }

    /// A database of the given stores and counter, if no identifier of the
    /// stores has yet to be handed out and every tag has a name.
    pub fn from_parts(entries: Entries, tags: Tags, sequences: Sequences, uid_counter: Uid) -> (db:
        Option<LocalDb>)
        requires
            entries.wf(),
            tags.wf(),
            sequences.wf(),
        ensures
            db is Some <==> (DbView {
                entries: entries@,
                tags: tags@,
                sequences: sequences@,
                uid_counter,
            }).wf(),
            db matches Some(d) ==> d.wf() && d.entry_store() == entries && d.tag_store() == tags
                && d.sequence_store() == sequences && d.next_uid() == uid_counter,
    {
        let ghost whole = DbView { entries: entries@, tags: tags@, sequences: sequences@, uid_counter };
        if !ids_below(&entries, uid_counter) {
            proof {
                let id = choose|id: Uid| entries@.contains_key(id) && id >= uid_counter;
                assert(whole.entries.contains_key(id));
            }
            return None;
        }
        if !ids_below(&tags, uid_counter) {
            proof {
                let id = choose|id: Uid| tags@.contains_key(id) && id >= uid_counter;
                assert(whole.tags.contains_key(id));
            }
            return None;
        }
        if !ids_below(&sequences, uid_counter) {
            proof {
                let id = choose|id: Uid| sequences@.contains_key(id) && id >= uid_counter;
                assert(whole.sequences.contains_key(id));
            }
            return None;
        }
        let mut i: usize = 0;
        while i < tags.len()
            invariant
                tags.wf(),
                whole == (DbView { entries: entries@, tags: tags@, sequences: sequences@, uid_counter }),
                i <= tags.ids().len(),
                forall|j: int| 0 <= j < i ==> (#[trigger] tags@[tags.ids()[j]]).names.len() > 0,
            decreases tags.ids().len() - i,
        {
            if tags.value_at(i).names().len() == 0 {
                proof {
                    let id = tags.ids()[i as int];
                    assert(whole.tags[id].names.len() == 0);
                }
                return None;
            }
            i = i + 1;
        }
        Some(LocalDb { entries, tags, sequences, uid_counter })
    }

    /// The empty database, whose first identifier will be 0.
    pub fn new() -> (db: LocalDb)
        ensures
            db.wf(),
            db@ == (DbView {
                entries: Map::empty(),
                tags: Map::empty(),
                sequences: Map::empty(),
                uid_counter: 0,
            }),
    {
        LocalDb {
            entries: UidMap::new(),
            tags: UidMap::new(),
            sequences: UidMap::new(),
            uid_counter: 0,
        }
    }

    /// The entries.
    pub fn entries(&self) -> (entries: &Entries)
        ensures
            *entries == self.entry_store(),
    {
        &self.entries
    }

    /// The tags.
    pub fn tags(&self) -> (tags: &Tags)
        ensures
            *tags == self.tag_store(),
    {
        &self.tags
    }

    /// The sequences.
    pub fn sequences(&self) -> (sequences: &Sequences)
        ensures
            *sequences == self.sequence_store(),
    {
        &self.sequences
    }

    /// The next identifier that will be handed out.
    pub fn uid_counter(&self) -> (next: Uid)
        ensures
            next == self@.uid_counter,
    {
        self.uid_counter
    }

    /// Hands out an identifier that no item of this database has or ever
    /// had: the counter's value, which then goes up by one.
    pub fn new_uid(&mut self) -> (uid: Uid)
        requires
            old(self).wf(),
            old(self)@.uid_counter < u64::MAX,
        ensures
            final(self).wf(),
            old(self)@.evolves(final(self)@),
            uid == old(self)@.uid_counter,
            final(self)@ == (DbView { uid_counter: (uid + 1) as Uid, ..old(self)@ }),
    {
        let uid = self.uid_counter;
        self.uid_counter = uid + 1;
        uid
    }

    /// Add a tag for an entry.
    ///
    /// Returns whether the entry already had the tag, so it didn't need to
    /// be added, or that there is no such entry.
    pub fn add_tag_for(&mut self, entry: Uid, tag: Uid) -> (had: Result<bool, DbError>)
        requires
            old(self).wf(),
        ensures
            final(self).wf(),
            old(self)@.evolves(final(self)@),
            final(self)@ == old(self)@.with_tag_on(set![entry], tag),
            had == if old(self)@.entries.contains_key(entry) {
                Ok::<bool, DbError>(old(self)@.entries[entry].tags.contains(tag))
            } else {
                Err::<bool, DbError>(DbError::EntryNotFound)
            },
    {
        match self.entries.position(entry) {
            None => {
                assert(self@.entries =~= old(self)@.with_tag_on(set![entry], tag).entries);
                Err(DbError::EntryNotFound)
            },
            Some(i) => {
                let e = self.entries.value_at_mut(i);
                let had = list_has(&e.tags, tag);
                if !had {
                    e.tags.push(tag);
                }
                assert(self@.entries =~= old(self)@.with_tag_on(set![entry], tag).entries);
                Ok(had)
            },
        }
    }

    /// Takes a tag off an entry, wherever it stands in the entry's tag list.
    ///
    /// Returns whether the entry had the tag, or that there is no such
    /// entry.
    pub fn remove_tag_for(&mut self, entry: Uid, tag: Uid) -> (had: Result<bool, DbError>)
        requires
            old(self).wf(),
        ensures
            final(self).wf(),
            old(self)@.evolves(final(self)@),
            had == if old(self)@.entries.contains_key(entry) {
                Ok::<bool, DbError>(old(self)@.entries[entry].tags.contains(tag))
            } else {
                Err::<bool, DbError>(DbError::EntryNotFound)
            },
            had is Ok ==> final(self)@ == (DbView {
                entries: old(self)@.entries.insert(
                    entry,
                    cleansed(old(self)@.entries[entry], set![tag]),
                ),
                ..old(self)@
            }),
            had is Err ==> final(self)@ == old(self)@,
    {
        match self.entries.position(entry) {
            None => Err(DbError::EntryNotFound),
            Some(i) => {
                let e = self.entries.value_at_mut(i);
                let had = list_has(&e.tags, tag);
                e.tags = list_without(&e.tags, tag);
                proof {
                    lemma_wf_kept(old(self)@, self@);
                }
                Ok(had)
            },
        }
    }

    /// Adds a tag for each of `images` that exists.
    pub fn add_tag_for_multi(&mut self, images: &[Uid], tag: Uid)
        requires
            old(self).wf(),
        ensures
            final(self).wf(),
            old(self)@.evolves(final(self)@),
            final(self)@ == old(self)@.with_tag_on(images@.to_set(), tag),
    {
        let mut i: usize = 0;
        assert(self@.entries =~= old(self)@.with_tag_on(images@.take(0).to_set(), tag).entries);
        while i < images.len()
            invariant
                i <= images.len(),
                self.wf(),
                self@ == old(self)@.with_tag_on(images@.take(i as int).to_set(), tag),
            decreases images.len() - i,
        {
            let _ = self.add_tag_for(images[i], tag);
            proof {
                let done = images@.take(i as int);
                let next = images@.take(i + 1);
                assert(next =~= done.push(images[i as int]));
                lemma_push_to_set(done, images[i as int]);
                assert forall|id: Uid| self@.entries.contains_key(id) implies #[trigger] self@.entries[id]
                    == old(self)@.with_tag_on(next.to_set(), tag).entries[id] by {
                    let e = old(self)@.entries[id];
                    if !e.tags.contains(tag) {
                        assert(e.tags.push(tag)[e.tags.len() as int] == tag);
                    }
                }
                assert(self@.entries =~= old(self)@.with_tag_on(next.to_set(), tag).entries);
            }
            i = i + 1;
        }
        assert(images@.take(images.len() as int) =~= images@);
    }

    /// Stores `tag` under a new identifier, which is returned.
    pub fn add_new_tag(&mut self, tag: Tag) -> (uid: Uid)
        requires
            old(self).wf(),
            old(self)@.uid_counter < u64::MAX,
            tag.wf(),
        ensures
            final(self).wf(),
            old(self)@.evolves(final(self)@),
            uid == old(self)@.uid_counter,
            final(self)@ == (DbView {
                tags: old(self)@.tags.insert(uid, tag@),
                uid_counter: (uid + 1) as Uid,
                ..old(self)@
            }),
    {
        let uid = self.new_uid();
        self.tags.insert(uid, tag);
        uid
    }

    /// Stores a new tag with the one name `tag_text` and returns its
    /// identifier.
    pub fn add_new_tag_from_text(&mut self, tag_text: String) -> (uid: Uid)
        requires
            old(self).wf(),
            old(self)@.uid_counter < u64::MAX,
        ensures
            final(self).wf(),
            old(self)@.evolves(final(self)@),
            uid == old(self)@.uid_counter,
            final(self)@ == (DbView {
                tags: old(self)@.tags.insert(
                    uid,
                    TagView { names: seq![tag_text@], implies: Set::empty() },
                ),
                uid_counter: (uid + 1) as Uid,
                ..old(self)@
            }),
    {
        self.add_new_tag(Tag::named(tag_text))
    }

    /// Gives the tag `tag` one more alias, `name`, after those it has.
    pub fn add_tag_name(&mut self, tag: Uid, name: String) -> (done: Result<(), DbError>)
        requires
            old(self).wf(),
        ensures
            final(self).wf(),
            old(self)@.evolves(final(self)@),
            done == if old(self)@.tags.contains_key(tag) {
                Ok::<(), DbError>(())
            } else {
                Err::<(), DbError>(DbError::TagNotFound)
            },
            done is Ok ==> final(self)@ == (DbView {
                tags: old(self)@.tags.insert(
                    tag,
                    TagView { names: old(self)@.tags[tag].names.push(name@), ..old(self)@.tags[tag] },
                ),
                ..old(self)@
            }),
            done is Err ==> final(self)@ == old(self)@,
    {
        match self.tags.position(tag) {
            None => Err(DbError::TagNotFound),
            Some(i) => {
                self.tags.value_at_mut(i).add_name(name);
                proof {
                    lemma_tag_changed(old(self)@, self@, tag);
                }
                Ok(())
            },
        }
    }

    /// Takes the name at position `index` away from the tag `tag`, unless it
    /// is the tag's only name or the tag has no such position. Returns
    /// whether a name was taken away.
    pub fn remove_tag_name(&mut self, tag: Uid, index: usize) -> (removed: Result<bool, DbError>)
        requires
            old(self).wf(),
        ensures
            final(self).wf(),
            old(self)@.evolves(final(self)@),
            removed == if old(self)@.tags.contains_key(tag) {
                Ok::<bool, DbError>(
                    index < old(self)@.tags[tag].names.len() && old(self)@.tags[tag].names.len() > 1,
                )
            } else {
                Err::<bool, DbError>(DbError::TagNotFound)
            },
            removed == Ok::<bool, DbError>(true) ==> final(self)@ == (DbView {
                tags: old(self)@.tags.insert(
                    tag,
                    TagView {
                        names: old(self)@.tags[tag].names.remove(index as int),
                        ..old(self)@.tags[tag]
                    },
                ),
                ..old(self)@
            }),
            removed != Ok::<bool, DbError>(true) ==> final(self)@ == old(self)@,
    {
        match self.tags.position(tag) {
            None => Err(DbError::TagNotFound),
            Some(i) => {
                let removed = self.tags.value_at_mut(i).remove_name(index);
                proof {
                    if !removed {
                        assert(self@.tags =~= old(self)@.tags);
                    }
                }
                Ok(removed)
            },
        }
    }

    /// Lets the tag `tag` imply the tag `implied`. Returns whether that was
    /// new.
    pub fn add_tag_implication(&mut self, tag: Uid, implied: Uid) -> (fresh: Result<bool, DbError>)
        requires
            old(self).wf(),
        ensures
            final(self).wf(),
            old(self)@.evolves(final(self)@),
            fresh == if old(self)@.tags.contains_key(tag) {
                Ok::<bool, DbError>(!old(self)@.tags[tag].implies.contains(implied))
            } else {
                Err::<bool, DbError>(DbError::TagNotFound)
            },
            fresh is Ok ==> final(self)@ == (DbView {
                tags: old(self)@.tags.insert(
                    tag,
                    TagView {
                        implies: old(self)@.tags[tag].implies.insert(implied),
                        ..old(self)@.tags[tag]
                    },
                ),
                ..old(self)@
            }),
            fresh is Err ==> final(self)@ == old(self)@,
    {
        match self.tags.position(tag) {
            None => Err(DbError::TagNotFound),
            Some(i) => {
                proof {
                    self.tags.lemma_position(i as int);
                }
                let fresh = self.tags.value_at_mut(i).add_implication(implied);
                proof {
                    lemma_tag_changed(old(self)@, self@, tag);
                }
                Ok(fresh)
            },
        }
    }

    /// Lets the tag `tag` no longer imply the tag `implied`. Returns whether
    /// it did.
    pub fn remove_tag_implication(&mut self, tag: Uid, implied: Uid) -> (was_implied: Result<
        bool,
        DbError,
    >)
        requires
            old(self).wf(),
        ensures
            final(self).wf(),
            old(self)@.evolves(final(self)@),
            was_implied == if old(self)@.tags.contains_key(tag) {
                Ok::<bool, DbError>(old(self)@.tags[tag].implies.contains(implied))
            } else {
                Err::<bool, DbError>(DbError::TagNotFound)
            },
            was_implied is Ok ==> final(self)@ == (DbView {
                tags: old(self)@.tags.insert(
                    tag,
                    TagView {
                        implies: old(self)@.tags[tag].implies.remove(implied),
                        ..old(self)@.tags[tag]
                    },
                ),
                ..old(self)@
            }),
            was_implied is Err ==> final(self)@ == old(self)@,
    {
        match self.tags.position(tag) {
            None => Err(DbError::TagNotFound),
            Some(i) => {
                proof {
                    self.tags.lemma_position(i as int);
                }
                let was_implied = self.tags.value_at_mut(i).remove_implication(implied);
                proof {
                    lemma_tag_changed(old(self)@, self@, tag);
                }
                Ok(was_implied)
            },
        }
    }

    /// Takes away every implication of a tag that is not there: each tag
    /// then implies only tags of this database. Nothing does this on its
    /// own: an implication of a tag that is not there is otherwise kept and
    /// passed over.
    pub fn drop_dangling_implications(&mut self)
        requires
            old(self).wf(),
        ensures
            final(self).wf(),
            old(self)@.evolves(final(self)@),
            final(self)@ == (DbView {
                tags: Map::new(
                    |id: Uid| old(self)@.tags.contains_key(id),
                    |id: Uid|
                        TagView {
                            names: old(self)@.tags[id].names,
                            implies: old(self)@.tags[id].implies.intersect(old(self)@.tags.dom()),
                        },
                ),
                ..old(self)@
            }),
    {
        let live = self.tags.key_set();
        let ghost ids = self.tags.ids();
        let ghost start = self.tags@;
        let mut i: usize = 0;
        while i < self.tags.len()
            invariant
                self.tags.wf(),
                self.entry_store() == old(self).entry_store(),
                self.sequence_store() == old(self).sequence_store(),
                self.next_uid() == old(self).next_uid(),
                live.wf(),
                live@ == start.dom(),
                self.tags.ids() == ids,
                start == old(self)@.tags,
                i <= ids.len(),
                forall|j: int|
                    0 <= j < i ==> #[trigger] self.tags@[ids[j]] == (TagView {
                        names: start[ids[j]].names,
                        implies: start[ids[j]].implies.intersect(start.dom()),
                    }),
                forall|j: int| i <= j < ids.len() ==> #[trigger] self.tags@[ids[j]] == start[ids[j]],
            decreases ids.len() - i,
        {
            proof {
                self.tags.lemma_position(i as int);
            }
            self.tags.value_at_mut(i).keep_implications(&live);
            i = i + 1;
        }
        proof {
            let goal = Map::new(
                |id: Uid| start.contains_key(id),
                |id: Uid|
                    TagView {
                        names: start[id].names,
                        implies: start[id].implies.intersect(start.dom()),
                    },
            );
            assert(self.tags@ =~= goal);
        }
    }

    /// The first tag, by ascending identifier, that has the name `word`.
    pub fn resolve_tag(&self, word: &str) -> (found: Option<Uid>)
        requires
            self.wf(),
        ensures
            match found {
                Some(id) => self@.first_named(id, word@),
                None => self@.unnamed(word@),
            },
    {
        let wanted = word.to_owned();
        let mut i: usize = 0;
        while i < self.tags.len()
            invariant
                self.wf(),
                wanted@ == word@,
                i <= self.tags.ids().len(),
                forall|j: int|
                    0 <= j < i ==> !(#[trigger] self.tags@[self.tags.ids()[j]]).names.contains(word@),
            decreases self.tags.ids().len() - i,
        {
            let id = self.tags.id_at(i);
            if self.tags.value_at(i).has_name(&wanted) {
                return Some(id);
            }
            i = i + 1;
        }
        None
    }

    /// Stores a new entry without tags for the file at `path` and returns
    /// its identifier.
    pub fn add_entry(&mut self, path: String) -> (uid: Uid)
        requires
            old(self).wf(),
            old(self)@.uid_counter < u64::MAX,
        ensures
            final(self).wf(),
            old(self)@.evolves(final(self)@),
            uid == old(self)@.uid_counter,
            final(self)@ == (DbView {
                entries: old(self)@.entries.insert(
                    uid,
                    EntryView { path: path@, tags: Seq::empty() },
                ),
                uid_counter: (uid + 1) as Uid,
                ..old(self)@
            }),
            old(self)@.paths_unique() && !old(self)@.path_taken(path@, uid)
                ==> final(self)@.paths_unique(),
    {
        let uid = self.new_uid();
        self.entries.insert(uid, Entry::new(path));
        proof {
            if old(self)@.paths_unique() && !old(self)@.path_taken(path@, uid) {
                assert forall|a: Uid, b: Uid|
                    self@.entries.contains_key(a) && self@.entries.contains_key(b) && (
                    #[trigger] self@.entries[a]).path == (#[trigger] self@.entries[b]).path implies a
                    == b by {
                    if a != uid && b != uid {
                        assert(old(self)@.entries[a].path == old(self)@.entries[b].path);
                    } else if a != uid {
                        assert(old(self)@.entries.contains_key(a) && old(self)@.entries[a].path
                            == path@);
                    } else if b != uid {
                        assert(old(self)@.entries.contains_key(b) && old(self)@.entries[b].path
                            == path@);
                    }
                }
            }
        }
        uid
    }

    /// Takes the entry `uid` out of the database and returns it, if there
    /// is one. Sequences that hold `uid` keep it.
    pub fn remove_entry(&mut self, uid: Uid) -> (removed: Option<Entry>)
        requires
            old(self).wf(),
        ensures
            final(self).wf(),
            old(self)@.evolves(final(self)@),
            final(self)@ == (DbView { entries: old(self)@.entries.remove(uid), ..old(self)@ }),
            match removed {
                Some(e) => old(self)@.entries.contains_key(uid) && e@ == old(self)@.entries[uid],
                None => !old(self)@.entries.contains_key(uid),
            },
    {
        let removed = self.entries.remove(uid);
        proof {
            lemma_wf_kept(old(self)@, self@);
        }
        removed
    }

    /// Keeps the entries whose identifier is in `keep`. The others leave
    /// the database and are returned.
    pub fn retain_entries(&mut self, keep: &UidSet) -> (removed: Entries)
        requires
            old(self).wf(),
            keep.wf(),
        ensures
            final(self).wf(),
            old(self)@.evolves(final(self)@),
            removed.wf(),
            final(self)@ == (DbView { entries: old(self)@.entries.restrict(keep@), ..old(self)@ }),
            removed@ == old(self)@.entries.remove_keys(keep@),
    {
        let mut marks: Vec<bool> = Vec::new();
        let mut i: usize = 0;
        while i < self.entries.len()
            invariant
                self.entries.wf(),
                keep.wf(),
                i <= self.entries.ids().len(),
                marks@.len() == i,
                forall|j: int| 0 <= j < i ==> marks@[j] == keep@.contains(self.entries.ids()[j]),
            decreases self.entries.ids().len() - i,
        {
            marks.push(keep.contains(self.entries.id_at(i)));
            i = i + 1;
        }
        let removed = self.entries.retain_marked(&marks);
        proof {
            let whole = old(self)@.entries;
            assert(self@.entries =~= whole.restrict(keep@));
        }
        removed
    }

    /// Deletes the tags `tags_to_del`: each leaves the tag store, and the
    /// tag list of every entry. Implications of other tags are left as
    /// they are.
    pub fn remove_tags(&mut self, tags_to_del: &[Uid])
        requires
            old(self).wf(),
        ensures
            final(self).wf(),
            old(self)@.evolves(final(self)@),
            final(self)@ == old(self)@.without_tags(tags_to_del@.to_set()),
    {
        let mut i: usize = 0;
        proof {
            assert(tags_to_del@.take(0).to_set() =~= Set::<Uid>::empty());
            assert forall|id: Uid| self@.entries.contains_key(id) implies cleansed(
                #[trigger] self@.entries[id],
                Set::empty(),
            ) == self@.entries[id] by {
                lemma_without_nothing(self@.entries[id].tags);
            }
            assert(self@.entries =~= old(self)@.without_tags(Set::empty()).entries);
            assert(self@.tags =~= old(self)@.without_tags(Set::empty()).tags);
        }
        while i < tags_to_del.len()
            invariant
                i <= tags_to_del.len(),
                self.wf(),
                self@ == old(self)@.without_tags(tags_to_del@.take(i as int).to_set()),
            decreases tags_to_del.len() - i,
        {
            let tag = tags_to_del[i];
            let ghost gone = tags_to_del@.take(i as int).to_set();
            let ghost before = self@;
            self.tags.remove(tag);
            cleanse_tag_from_images(&mut self.entries, tag);
            proof {
                let next = tags_to_del@.take(i + 1);
                assert(next =~= tags_to_del@.take(i as int).push(tag));
                lemma_push_to_set(tags_to_del@.take(i as int), tag);
                assert(gone.union(set![tag]) =~= gone.insert(tag));
                assert forall|id: Uid| self@.entries.contains_key(id) implies #[trigger] self@.entries[id]
                    == cleansed(old(self)@.entries[id], gone.insert(tag)) by {
                    lemma_without_twice(old(self)@.entries[id].tags, gone, set![tag]);
                }
                assert(self@.entries =~= old(self)@.without_tags(next.to_set()).entries);
                assert(self@.tags =~= old(self)@.without_tags(next.to_set()).tags);
                lemma_wf_kept(before, self@);
            }
            i = i + 1;
        }
        assert(tags_to_del@.take(tags_to_del.len() as int) =~= tags_to_del@);
    }

    /// The entries that pass the filter `spec`, by ascending identifier.
    pub fn filter(&self, spec: &FilterSpec) -> (ids: Vec<Uid>)
        requires
            self.wf(),
        ensures
            ascending(ids@),
            forall|id: Uid| ids@.contains(id) <==> self@.entry_passes(id, spec@),
    {
        let any_name = spec.filename_substring.as_str().unicode_len() == 0;
        let needle = if any_name {
            Vec::new()
        } else {
            chars_of(lowercase(spec.filename_substring.as_str()).as_str())
        };
        let mut ids: Vec<Uid> = Vec::new();
        let mut i: usize = 0;
        while i < self.entries.len()
            invariant
                self.wf(),
                i <= self.entries.ids().len(),
                any_name == (spec@.filename_substring.len() == 0),
                !any_name ==> needle@ == crate::text::lowercase_of(spec@.filename_substring),
                ascending(ids@),
                i < self.entries.ids().len() ==> all_below(ids@, self.entries.ids()[i as int] as int),
                forall|id: Uid|
                    ids@.contains(id) <==> (self.entries.ids().take(i as int).contains(id)
                        && self@.entry_passes(id, spec@)),
            decreases self.entries.ids().len() - i,
        {
            let id = self.entries.id_at(i);
            let entry = self.entries.value_at(i);
            let ghost before = ids@;
            let ghost seen = self.entries.ids().take(i as int);
            proof {
                assert(self.entries.ids().take(i + 1) =~= seen.push(id));
            }
            let passing = tags_satisfied(&entry.tags, spec) && (any_name || entry.name_holds(
                &needle,
            ));
            if passing {
                ids.push(id);
            }
            proof {
                assert forall|x: Uid|
                    ids@.contains(x) <==> (self.entries.ids().take(i + 1).contains(x)
                        && self@.entry_passes(x, spec@)) by {
                    lemma_push_has(seen, id, x);
                    lemma_push_has(before, id, x);
                }
            }
            i = i + 1;
        }
        proof {
            assert(self.entries.ids().take(i as int) =~= self.entries.ids());
        }
        ids
    }

    /// Stores a new sequence without entries under a new identifier, which
    /// is returned.
    pub fn add_new_sequence(&mut self, name: &str) -> (uid: Uid)
        requires
            old(self).wf(),
            old(self)@.uid_counter < u64::MAX,
        ensures
            final(self).wf(),
            old(self)@.evolves(final(self)@),
            uid == old(self)@.uid_counter,
            final(self)@ == (DbView {
                sequences: old(self)@.sequences.insert(
                    uid,
                    SequenceView { name: name@, entries: Seq::empty() },
                ),
                uid_counter: (uid + 1) as Uid,
                ..old(self)@
            }),
    {
        let uid = self.new_uid();
        self.sequences.insert(uid, Sequence::new_with_name(name));
        uid
    }

    /// Appends `image_uids`, in their order, to the sequence `uid`. An
    /// identifier that the sequence holds already is appended once more.
    pub fn add_images_to_sequence(&mut self, uid: Uid, image_uids: &[Uid]) -> (done: Result<
        (),
        DbError,
    >)
        requires
            old(self).wf(),
        ensures
            final(self).wf(),
            old(self)@.evolves(final(self)@),
            done == if old(self)@.sequences.contains_key(uid) {
                Ok::<(), DbError>(())
            } else {
                Err::<(), DbError>(DbError::SequenceNotFound)
            },
            done is Ok ==> final(self)@ == (DbView {
                sequences: old(self)@.sequences.insert(
                    uid,
                    SequenceView {
                        name: old(self)@.sequences[uid].name,
                        entries: old(self)@.sequences[uid].entries + image_uids@,
                    },
                ),
                ..old(self)@
            }),
            done is Err ==> final(self)@ == old(self)@,
    {
        match self.sequences.position(uid) {
            None => Err(DbError::SequenceNotFound),
            Some(pos) => {
                let sequence = self.sequences.value_at_mut(pos);
                let ghost start = *sequence;
                let mut i: usize = 0;
                while i < image_uids.len()
                    invariant
                        i <= image_uids.len(),
                        sequence.name == start.name,
                        sequence.entries@ == start.entries@ + image_uids@.take(i as int),
                    decreases image_uids.len() - i,
                {
                    sequence.entries.push(image_uids[i]);
                    assert(image_uids@.take(i + 1) =~= image_uids@.take(i as int).push(
                        image_uids[i as int],
                    ));
                    i = i + 1;
                }
                proof {
                    assert(image_uids@.take(image_uids.len() as int) =~= image_uids@);
                    lemma_wf_kept(old(self)@, self@);
                }
                Ok(())
            },
        }
    }

    /// The entries of the sequence `uid` that are there, in their order:
    /// the sequence without what it holds of entries that were removed.
    pub fn live_entries_of(&self, uid: Uid) -> (entries: Result<Vec<Uid>, DbError>)
        requires
            self.wf(),
        ensures
            match entries {
                Ok(list) => self@.sequences.contains_key(uid) && list@ == without(
                    self@.sequences[uid].entries,
                    self@.entries.dom().complement(),
                ),
                Err(e) => !self@.sequences.contains_key(uid) && e == DbError::SequenceNotFound,
            },
    {
        match self.sequences.get(uid) {
            None => Err(DbError::SequenceNotFound),
            Some(sequence) => {
                let live = self.entries.key_set();
                Ok(list_within(&sequence.entries, &live))
            },
        }
    }

    /// The sequences that hold at least one of `entries`, by ascending
    /// identifier.
    pub fn find_related_sequences(&self, entries: &[Uid]) -> (ids: Vec<Uid>)
        requires
            self.wf(),
        ensures
            ascending(ids@),
            forall|id: Uid| ids@.contains(id) <==> self@.sequence_touches(id, entries@),
    {
        let mut ids: Vec<Uid> = Vec::new();
        let mut i: usize = 0;
        while i < self.sequences.len()
            invariant
                self.wf(),
                i <= self.sequences.ids().len(),
                ascending(ids@),
                i < self.sequences.ids().len() ==> all_below(
                    ids@,
                    self.sequences.ids()[i as int] as int,
                ),
                forall|id: Uid|
                    ids@.contains(id) <==> (self.sequences.ids().take(i as int).contains(id)
                        && self@.sequence_touches(id, entries@)),
            decreases self.sequences.ids().len() - i,
        {
            let id = self.sequences.id_at(i);
            let sequence = self.sequences.value_at(i);
            let ghost before = ids@;
            let ghost seen = self.sequences.ids().take(i as int);
            proof {
                assert(self.sequences.ids().take(i + 1) =~= seen.push(id));
            }
            let touching = holds_any(&sequence.entries, entries);
            if touching {
                ids.push(id);
            }
            proof {
                assert forall|x: Uid|
                    ids@.contains(x) <==> (self.sequences.ids().take(i + 1).contains(x)
                        && self@.sequence_touches(x, entries@)) by {
                    lemma_push_has(seen, id, x);
                    lemma_push_has(before, id, x);
                }
            }
            i = i + 1;
        }
        proof {
            assert(self.sequences.ids().take(i as int) =~= self.sequences.ids());
        }
        ids
    }

    /// The tags that at least one of `entries` has.
    pub fn common_tags(&self, entries: &[Uid]) -> (tags: UidSet)
        requires
            self.wf(),
        ensures
            tags.wf(),
            forall|tag: Uid| tags@.contains(tag) <==> self@.tag_of_some(tag, entries@),
    {
        let mut tags = UidSet::new();
        let mut i: usize = 0;
        while i < entries.len()
            invariant
                self.wf(),
                i <= entries.len(),
                tags.wf(),
                forall|tag: Uid|
                    tags@.contains(tag) <==> self@.tag_of_some(tag, entries@.take(i as int)),
            decreases entries.len() - i,
        {
            let ghost seen = entries@.take(i as int);
            let ghost next = entries@.take(i + 1);
            proof {
                assert(next =~= seen.push(entries[i as int]));
            }
            match self.entries.get(entries[i]) {
                None => {
                },
                Some(entry) => {
                    tags.insert_all(&entry.tags);
                    proof {
                        assert forall|tag: Uid|
                            tags@.contains(tag) <==> self@.tag_of_some(tag, next) by {
                            lemma_tag_of_some_step(self@, tag, seen, entries[i as int]);
                        }
                    }
                },
            }
            i = i + 1;
        }
        assert(entries@.take(entries.len() as int) =~= entries@);
        tags
    }

    /// The path that the entry `uid` has once its file is called `new`: its
    /// path with the final component replaced. It is refused where another
    /// entry has that path, whose file a renaming would replace.
    pub fn rename_target(&self, uid: Uid, new: &str) -> (target: Result<String, DbError>)
        requires
            self.wf(),
        ensures
            match target {
                Ok(path) => self@.entries.contains_key(uid) && path@ == folder_of(
                    self@.entries[uid].path,
                ) + new@ && !self@.path_taken(path@, uid),
                Err(e) => e == if !self@.entries.contains_key(uid) {
                    DbError::EntryNotFound
                } else {
                    DbError::PathTaken
                } && (self@.entries.contains_key(uid) ==> self@.path_taken(
                    folder_of(self@.entries[uid].path) + new@,
                    uid,
                )),
            },
    {
        match self.entries.get(uid) {
            None => Err(DbError::EntryNotFound),
            Some(entry) => {
                let path = with_file_name(entry.path.as_str(), new);
                if other_has_path(&self.entries, &path, uid) {
                    Err(DbError::PathTaken)
                } else {
                    Ok(path)
                }
            },
        }
    }

    /// Records that the file of the entry `uid` is now called `new`.
    ///
    /// The file is renamed on disk first, from the entry's path to
    /// [`LocalDb::rename_target`]. `renamed_on_disk` tells whether that
    /// succeeded. Where it did not, the stored path stays as it is.
    pub fn rename(&mut self, uid: Uid, new: &str, renamed_on_disk: bool) -> (done: Result<
        (),
        DbError,
    >)
        requires
            old(self).wf(),
        ensures
            final(self).wf(),
            old(self)@.evolves(final(self)@),
            done == if !old(self)@.entries.contains_key(uid) {
                Err::<(), DbError>(DbError::EntryNotFound)
            } else if old(self)@.path_taken(folder_of(old(self)@.entries[uid].path) + new@, uid) {
                Err::<(), DbError>(DbError::PathTaken)
            } else if !renamed_on_disk {
                Err::<(), DbError>(DbError::RenameFailed)
            } else {
                Ok::<(), DbError>(())
            },
            done is Ok ==> final(self)@ == (DbView {
                entries: old(self)@.entries.insert(
                    uid,
                    EntryView {
                        path: folder_of(old(self)@.entries[uid].path) + new@,
                        tags: old(self)@.entries[uid].tags,
                    },
                ),
                ..old(self)@
            }),
            done is Err ==> final(self)@ == old(self)@,
            old(self)@.paths_unique() ==> final(self)@.paths_unique(),
    {
        match self.entries.position(uid) {
            None => Err(DbError::EntryNotFound),
            Some(pos) => {
                proof {
                    self.entries.lemma_position(pos as int);
                }
                let renamed = with_file_name(self.entries.value_at(pos).path.as_str(), new);
                if other_has_path(&self.entries, &renamed, uid) {
                    return Err(DbError::PathTaken);
                }
                if !renamed_on_disk {
                    return Err(DbError::RenameFailed);
                }
                let entry = self.entries.value_at_mut(pos);
                entry.path = renamed;
                proof {
                    lemma_wf_kept(old(self)@, self@);
                    lemma_renamed_unique(old(self)@, self@, uid);
                }
                Ok(())
            },
        }
    }
}

/// Whether an entry other than `except` has the path `path`.
pub fn other_has_path(entries: &Entries, path: &String, except: Uid) -> (b: bool)
    requires
        entries.wf(),
    ensures
        b == exists|id: Uid|
            id != except && entries@.contains_key(id) && (#[trigger] entries@[id]).path == path@,
{
    let mut i: usize = 0;
    while i < entries.len()
        invariant
            entries.wf(),
            i <= entries.ids().len(),
            forall|j: int|
                0 <= j < i && entries.ids()[j] != except ==> (#[trigger] entries@[entries.ids()[j]]).path
                    != path@,
        decreases entries.ids().len() - i,
    {
        proof {
            entries.lemma_position(i as int);
        }
        if entries.id_at(i) != except && entries.value_at(i).path == *path {
            return true;
        }
        i = i + 1;
    }
    proof {
        assert forall|id: Uid| id != except && entries@.contains_key(id) implies (
        #[trigger] entries@[id]).path != path@ by {
            let j = entries.ids().index_of(id);
            assert(entries.ids().contains(id));
            assert(entries@[entries.ids()[j]].path != path@);
        }
    }
    false
}

/// Paths stay unique when an entry gets a path that no other entry has.
pub proof fn lemma_renamed_unique(before: DbView, after: DbView, uid: Uid)
    requires
        before.entries.contains_key(uid),
        after.entries.contains_key(uid),
        after.entries == before.entries.insert(uid, after.entries[uid]),
        !before.path_taken(after.entries[uid].path, uid),
    ensures
        before.paths_unique() ==> after.paths_unique(),
{
    if before.paths_unique() {
        assert forall|a: Uid, b: Uid|
            after.entries.contains_key(a) && after.entries.contains_key(b) && (
            #[trigger] after.entries[a]).path == (#[trigger] after.entries[b]).path implies a
            == b by {
            if a != uid && b != uid {
                assert(before.entries[a].path == before.entries[b].path);
            } else if a != uid {
                assert(before.entries.contains_key(a) && before.entries[a].path
                    == after.entries[uid].path);
            } else if b != uid {
                assert(before.entries.contains_key(b) && before.entries[b].path
                    == after.entries[uid].path);
            }
        }
    }
}

/// Takes `tag_to_cleanse` off every entry.
pub fn cleanse_tag_from_images(entries: &mut Entries, tag_to_cleanse: Uid)
    requires
        old(entries).wf(),
    ensures
        final(entries).wf(),
        final(entries)@ == Map::new(
            |id: Uid| old(entries)@.contains_key(id),
            |id: Uid| cleansed(old(entries)@[id], set![tag_to_cleanse]),
        ),
{
    let ghost ids = entries.ids();
    let ghost start = entries@;
    let mut i: usize = 0;
    while i < entries.len()
        invariant
            entries.wf(),
            entries.ids() == ids,
            ids == old(entries).ids(),
            start == old(entries)@,
            i <= ids.len(),
            forall|j: int| 0 <= j < i ==> #[trigger] entries@[ids[j]] == cleansed(
                start[ids[j]],
                set![tag_to_cleanse],
            ),
            forall|j: int| i <= j < ids.len() ==> #[trigger] entries@[ids[j]] == start[ids[j]],
        decreases ids.len() - i,
    {
        proof {
            entries.lemma_position(i as int);
        }
        let entry = entries.value_at_mut(i);
        entry.tags = list_without(&entry.tags, tag_to_cleanse);
        i = i + 1;
    }
}

/// Whether `list` holds at least one of `wanted`.
pub fn holds_any(list: &Vec<Uid>, wanted: &[Uid]) -> (b: bool)
    ensures
        b == exists|k: int| 0 <= k < wanted@.len() && list@.contains(#[trigger] wanted@[k]),
{
    let mut k: usize = 0;
    while k < wanted.len()
        invariant
            k <= wanted.len(),
            forall|m: int| 0 <= m < k ==> !list@.contains(#[trigger] wanted@[m]),
        decreases wanted.len() - k,
    {
        if list_has(list, wanted[k]) {
            return true;
        }
        k = k + 1;
    }
    false
}

/// A database stays well-formed when its stores lose or keep their
/// identifiers, its tags keep their names, and its counter does not go
/// down.
pub proof fn lemma_wf_kept(before: DbView, after: DbView)
    requires
        before.wf(),
        before.uid_counter <= after.uid_counter,
        forall|id: Uid| after.entries.contains_key(id) ==> before.entries.contains_key(id),
        forall|id: Uid| after.tags.contains_key(id) ==> before.tags.contains_key(id),
        forall|id: Uid| after.sequences.contains_key(id) ==> before.sequences.contains_key(id),
        forall|id: Uid|
            after.tags.contains_key(id) ==> (#[trigger] after.tags[id]).names == before.tags[id].names,
    ensures
        after.wf(),
{
}

/// A tag of one of the entries in a list with one more entry is a tag of
/// one of the list, or a tag of the new entry.
pub proof fn lemma_tag_of_some_step(db: DbView, tag: Uid, seen: Seq<Uid>, entry: Uid)
    ensures
        db.tag_of_some(tag, seen.push(entry)) <==> (db.tag_of_some(tag, seen) || (
        db.entries.contains_key(entry) && db.entries[entry].tags.contains(tag))),
{
    let next = seen.push(entry);
    if db.tag_of_some(tag, seen) {
        let k = choose|k: int|
            0 <= k < seen.len() && db.entries.contains_key(#[trigger] seen[k])
                && db.entries[seen[k]].tags.contains(tag);
        assert(next[k] == seen[k]);
    }
    if db.entries.contains_key(entry) && db.entries[entry].tags.contains(tag) {
        assert(next[seen.len() as int] == entry);
    }
}

/// Whether every identifier of `store` is below `bound`.
pub fn ids_below<V: View>(store: &UidMap<V>, bound: Uid) -> (b: bool)
    requires
        store.wf(),
    ensures
        b ==> forall|id: Uid| store@.contains_key(id) ==> id < bound,
        !b ==> exists|id: Uid| store@.contains_key(id) && id >= bound,
{
    let n = store.len();
    if n == 0 {
        assert forall|id: Uid| store@.contains_key(id) implies id < bound by {
        }
        return true;
    }
    let last = store.id_at(n - 1);
    proof {
        store.lemma_position(n - 1);
    }
    last < bound
}

/// A database stays well-formed when one of its tags changes and still has
/// a name.
pub proof fn lemma_tag_changed(before: DbView, after: DbView, tag: Uid)
    requires
        before.wf(),
        before.tags.contains_key(tag),
        after.tags.contains_key(tag),
        after.tags[tag].names.len() > 0,
        after == (DbView { tags: before.tags.insert(tag, after.tags[tag]), ..before }),
    ensures
        after.wf(),
        before.evolves(after),
{
    assert forall|id: Uid| after.tags.contains_key(id) implies id < after.uid_counter && (
    #[trigger] after.tags[id]).names.len() > 0 by {
    }
}

/// A database can come from itself.
pub proof fn lemma_evolves_reflexive(db: DbView)
    ensures
        db.evolves(db),
{
}

/// What can come from what can come from a database can come from it.
pub proof fn lemma_evolves_transitive(a: DbView, b: DbView, c: DbView)
    requires
        a.evolves(b),
        b.evolves(c),
    ensures
        a.evolves(c),
{
}

/// An identifier that is handed out is larger than every identifier that
/// was handed out before, whatever was done to the database in between.
///
/// `first` is the identifier handed out in the state `before`, which left
/// the database in the state `then`. `later` is any state that can come
/// from `then`, and the next identifier to be handed out there is
/// `later.uid_counter`.
pub proof fn lemma_uids_increase(before: DbView, first: Uid, then: DbView, later: DbView)
    requires
        first == before.uid_counter,
        then.uid_counter == first + 1,
        then.evolves(later),
    ensures
        first < later.uid_counter,
{
}

/// An identifier that is handed out names no item, and never did: every
/// item has, and every item that the database held at any earlier state
/// had, a smaller identifier.
///
/// `earlier` is any well-formed state from which `now` can come, and
/// `now.uid_counter` is the identifier that is handed out next.
pub proof fn lemma_uid_is_new(earlier: DbView, now: DbView)
    requires
        earlier.wf(),
        earlier.evolves(now),
    ensures
        forall|id: Uid|
            (earlier.entries.contains_key(id) || earlier.tags.contains_key(id)
                || earlier.sequences.contains_key(id)) ==> id < now.uid_counter,
        forall|id: Uid|
            (now.entries.contains_key(id) || now.tags.contains_key(id) || now.sequences.contains_key(
                id,
            )) ==> id < now.uid_counter,
{
}

/// After tags were deleted, no entry has one of them and the tag store
/// holds none of them.
pub proof fn lemma_tags_gone(db: DbView, gone: Set<Uid>, tag: Uid)
    requires
        gone.contains(tag),
    ensures
        !db.without_tags(gone).tags.contains_key(tag),
        forall|id: Uid|
            db.without_tags(gone).entries.contains_key(id) ==> !(#[trigger] db.without_tags(
                gone,
            ).entries[id]).tags.contains(tag),
{
    assert forall|id: Uid| db.without_tags(gone).entries.contains_key(id) implies !(
    #[trigger] db.without_tags(gone).entries[id]).tags.contains(tag) by {
        crate::db::uid::lemma_without_contains(db.entries[id].tags, gone, tag);
    }
}

} // verus!
