//! The list form of a database: every store as a list of pairs of
//! identifier and item, in ascending order of identifier, and the counter.
//! This is the form in which a database is written and read.

use crate::db::local::{DbView, Entries, LocalDb, Sequences, Tags};
use crate::db::uid::{all_below, ascending, Uid};
use crate::db::uid_map::UidMap;
use crate::entry::{Entry, EntryView};
use crate::sequence::{Sequence, SequenceView};
use crate::tag::{Tag, TagView};
use crate::text::texts;
use vstd::prelude::*;

verus! {

/// An entry or a sequence with its identifier: the identifier, then the
/// path or name, then the list of tags or entries.
pub type RawItem = (Uid, (String, Vec<Uid>));

/// A tag with its identifier: the identifier, then the names, then the
/// implied tags.
pub type RawTag = (Uid, (Vec<String>, Vec<Uid>));

/// A database in list form: entries, tags, sequences, counter.
pub type RawDb = (Vec<RawItem>, Vec<RawTag>, Vec<RawItem>, Uid);

/// What a [`RawItem`] holds.
pub type ItemModel = (Uid, (Seq<char>, Seq<Uid>));

/// What a [`RawTag`] holds.
pub type TagModel = (Uid, (Seq<Seq<char>>, Seq<Uid>));

/// What a [`RawDb`] holds.
pub type RawModel = (Seq<ItemModel>, Seq<TagModel>, Seq<ItemModel>, Uid);

/// What `item` holds.
pub open spec fn item_model(item: RawItem) -> ItemModel {
    (item.0, (item.1.0@, item.1.1@))
}

/// What `tag` holds.
pub open spec fn tag_model(tag: RawTag) -> TagModel {
    (tag.0, (texts(tag.1.0@), tag.1.1@))
}

/// What the items of `list` hold.
pub open spec fn items_model(list: Seq<RawItem>) -> Seq<ItemModel> {
    list.map_values(|item: RawItem| item_model(item))
}

/// What the tags of `list` hold.
pub open spec fn tags_model(list: Seq<RawTag>) -> Seq<TagModel> {
    list.map_values(|tag: RawTag| tag_model(tag))
}

/// What `raw` holds.
pub open spec fn raw_model(raw: RawDb) -> RawModel {
    (items_model(raw.0@), tags_model(raw.1@), items_model(raw.2@), raw.3)
}

/// The identifiers of a list of items.
pub open spec fn item_ids(list: Seq<ItemModel>) -> Seq<Uid> {
    list.map_values(|item: ItemModel| item.0)
}

/// The identifiers of a list of tags.
pub open spec fn tag_ids(list: Seq<TagModel>) -> Seq<Uid> {
    list.map_values(|tag: TagModel| tag.0)
}

/// Every tag of the list has a name.
pub open spec fn all_named(list: Seq<TagModel>) -> bool {
    forall|i: int| 0 <= i < list.len() ==> (#[trigger] list[i]).1.0.len() > 0
}

/// The list form is that of a database: each list ascends by identifier,
/// every identifier is below the counter, and every tag has a name.
pub open spec fn valid(raw: RawModel) -> bool {
    &&& ascending(item_ids(raw.0))
    &&& ascending(tag_ids(raw.1))
    &&& ascending(item_ids(raw.2))
    &&& all_below(item_ids(raw.0), raw.3 as int)
    &&& all_below(tag_ids(raw.1), raw.3 as int)
    &&& all_below(item_ids(raw.2), raw.3 as int)
    &&& all_named(raw.1)
}

/// The entry that an item of the list form stands for.
pub open spec fn as_entry(item: ItemModel) -> EntryView {
    EntryView { path: item.1.0, tags: item.1.1 }
}

/// The sequence that an item of the list form stands for.
pub open spec fn as_sequence(item: ItemModel) -> SequenceView {
    SequenceView { name: item.1.0, entries: item.1.1 }
}

/// The tag that a tag of the list form stands for.
pub open spec fn as_tag(tag: TagModel) -> TagView {
    TagView { names: tag.1.0, implies: tag.1.1.to_set() }
}

/// The database that a list form stands for.
pub open spec fn restored(raw: RawModel) -> DbView {
    DbView {
        entries: Map::new(
            |id: Uid| item_ids(raw.0).contains(id),
            |id: Uid| as_entry(raw.0[item_ids(raw.0).index_of(id)]),
        ),
        tags: Map::new(
            |id: Uid| tag_ids(raw.1).contains(id),
            |id: Uid| as_tag(raw.1[tag_ids(raw.1).index_of(id)]),
        ),
        sequences: Map::new(
            |id: Uid| item_ids(raw.2).contains(id),
            |id: Uid| as_sequence(raw.2[item_ids(raw.2).index_of(id)]),
        ),
        uid_counter: raw.3,
    }
}

/// The entries of a store in list form.
pub open spec fn entries_listed(store: Entries) -> Seq<ItemModel> {
    Seq::new(
        store.ids().len(),
        |i: int| (store.ids()[i], (store.values()[i].path@, store.values()[i].tags@)),
    )
}

/// The sequences of a store in list form.
pub open spec fn sequences_listed(store: Sequences) -> Seq<ItemModel> {
    Seq::new(
        store.ids().len(),
        |i: int| (store.ids()[i], (store.values()[i].name@, store.values()[i].entries@)),
    )
}

/// The tags of a store in list form.
pub open spec fn tags_listed(store: Tags) -> Seq<TagModel> {
    Seq::new(
        store.ids().len(),
        |i: int| (store.ids()[i], (store.values()[i]@.names, store.values()[i].implied())),
    )
}

/// The list form of a database.
pub open spec fn raw_of(db: LocalDb) -> RawModel {
    (
        entries_listed(db.entry_store()),
        tags_listed(db.tag_store()),
        sequences_listed(db.sequence_store()),
        db.next_uid(),
    )
}

/// The list form of a well-formed database is valid and stands for what
/// the database holds.
pub proof fn lemma_raw_of(db: LocalDb)
    requires
        db.wf(),
    ensures
        valid(raw_of(db)),
        restored(raw_of(db)) == db@,
{
    let raw = raw_of(db);
    let entries = db.entry_store();
    let tags = db.tag_store();
    let sequences = db.sequence_store();
    assert(item_ids(raw.0) =~= entries.ids());
    assert(tag_ids(raw.1) =~= tags.ids());
    assert(item_ids(raw.2) =~= sequences.ids());
    assert forall|i: int| 0 <= i < entries.ids().len() implies entries.ids()[i] < raw.3 by {
        assert(db@.entries.contains_key(entries.ids()[i]));
    }
    assert forall|i: int| 0 <= i < tags.ids().len() implies tags.ids()[i] < raw.3 && (
    #[trigger] raw.1[i]).1.0.len() > 0 by {
        assert(db@.tags[tags.ids()[i]].names.len() > 0);
    }
    assert forall|i: int| 0 <= i < sequences.ids().len() implies sequences.ids()[i] < raw.3 by {
        assert(db@.sequences.contains_key(sequences.ids()[i]));
    }
    let back = restored(raw);
    assert(back.entries =~= db@.entries);
    assert forall|id: Uid| back.tags.contains_key(id) implies #[trigger] back.tags[id]
        == db@.tags[id] by {
        let i = tags.ids().index_of(id);
        tags.values()[i].lemma_implied();
    }
    assert(back.tags =~= db@.tags);
    assert(back.sequences =~= db@.sequences);
}

/// A copy of a list of strings.
pub fn copy_of(strings: &Vec<String>) -> (copy: Vec<String>)
    ensures
        texts(copy@) == texts(strings@),
{
    let mut copy: Vec<String> = Vec::new();
    let mut i: usize = 0;
    while i < strings.len()
        invariant
            i <= strings.len(),
            copy@.len() == i,
            forall|j: int| 0 <= j < i ==> copy@[j]@ == strings@[j]@,
        decreases strings.len() - i,
    {
        copy.push(strings[i].clone());
        i = i + 1;
    }
    copy
}

/// The list form of `db`.
pub fn to_raw(db: &LocalDb) -> (raw: RawDb)
    requires
        db.wf(),
    ensures
        raw_model(raw) == raw_of(*db),
{
    let entries = db.entries();
    let mut entry_list: Vec<RawItem> = Vec::new();
    let mut i: usize = 0;
    while i < entries.len()
        invariant
            entries.wf(),
            i <= entries.ids().len(),
            entry_list@.len() == i,
            forall|j: int|
                0 <= j < i ==> item_model(#[trigger] entry_list@[j]) == entries_listed(*entries)[j],
        decreases entries.ids().len() - i,
    {
        let entry = entries.value_at(i);
        entry_list.push((entries.id_at(i), (entry.path.clone(), entry.tags.clone())));
        i = i + 1;
    }
    let tags = db.tags();
    let mut tag_list: Vec<RawTag> = Vec::new();
    let mut i: usize = 0;
    while i < tags.len()
        invariant
            tags.wf(),
            i <= tags.ids().len(),
            tag_list@.len() == i,
            forall|j: int| 0 <= j < i ==> tag_model(#[trigger] tag_list@[j]) == tags_listed(*tags)[j],
        decreases tags.ids().len() - i,
    {
        let tag = tags.value_at(i);
        tag_list.push((tags.id_at(i), (copy_of(tag.names()), tag.implies().clone())));
        i = i + 1;
    }
    let sequences = db.sequences();
    let mut sequence_list: Vec<RawItem> = Vec::new();
    let mut i: usize = 0;
    while i < sequences.len()
        invariant
            sequences.wf(),
            i <= sequences.ids().len(),
            sequence_list@.len() == i,
            forall|j: int|
                0 <= j < i ==> item_model(#[trigger] sequence_list@[j]) == sequences_listed(
                    *sequences,
                )[j],
        decreases sequences.ids().len() - i,
    {
        let sequence = sequences.value_at(i);
        sequence_list.push(
            (sequences.id_at(i), (sequence.name.clone(), sequence.entries.clone())),
        );
        i = i + 1;
    }
    let raw = (entry_list, tag_list, sequence_list, db.uid_counter());
    raw
}

/// The store of the entries in `list`, if the list ascends by identifier.
pub fn entries_from(list: Vec<RawItem>) -> (store: Option<Entries>)
    ensures
        store is Some <==> ascending(item_ids(items_model(list@))),
        store matches Some(s) ==> s.wf() && entries_listed(s) == items_model(list@),
{
    let ghost model = items_model(list@);
    let mut store: Entries = UidMap::new();
    for item in it: list
        invariant
            it.seq() == list@,
            model == items_model(list@),
            store.wf(),
            entries_listed(store) == model.take(it.index() as int),
            ascending(item_ids(model).take(it.index() as int)),
    {
        let ghost i = it.index() as int;
        let (id, (path, tags)) = item;
        let n = store.len();
        proof {
            assert(model.take(i).len() == i);
            assert forall|j: int| 0 <= j < i implies store.ids()[j] == item_ids(model)[j] by {
                assert(entries_listed(store)[j] == model.take(i)[j]);
            }
        }
        if n > 0 && store.id_at(n - 1) >= id {
            proof {
                assert(item_ids(model)[i - 1] >= item_ids(model)[i]);
            }
            return None;
        }
        store.push(id, Entry { path, tags });
    }
    proof {
        assert(item_ids(model).take(list@.len() as int) =~= item_ids(model));
    }
    Some(store)
}

/// The store of the sequences in `list`, if the list ascends by identifier.
pub fn sequences_from(list: Vec<RawItem>) -> (store: Option<Sequences>)
    ensures
        store is Some <==> ascending(item_ids(items_model(list@))),
        store matches Some(s) ==> s.wf() && sequences_listed(s) == items_model(list@),
{
    let ghost model = items_model(list@);
    let mut store: Sequences = UidMap::new();
    for item in it: list
        invariant
            it.seq() == list@,
            model == items_model(list@),
            store.wf(),
            sequences_listed(store) == model.take(it.index() as int),
            ascending(item_ids(model).take(it.index() as int)),
    {
        let ghost i = it.index() as int;
        let (id, (name, entries)) = item;
        let n = store.len();
        proof {
            assert(model.take(i).len() == i);
            assert forall|j: int| 0 <= j < i implies store.ids()[j] == item_ids(model)[j] by {
                assert(sequences_listed(store)[j] == model.take(i)[j]);
            }
        }
        if n > 0 && store.id_at(n - 1) >= id {
            proof {
                assert(item_ids(model)[i - 1] >= item_ids(model)[i]);
            }
            return None;
        }
        store.push(id, Sequence { name, entries });
    }
    proof {
        assert(item_ids(model).take(list@.len() as int) =~= item_ids(model));
    }
    Some(store)
}

/// The store of the tags in `list`, if the list ascends by identifier and
/// every tag has a name.
pub fn tags_from(list: Vec<RawTag>) -> (store: Option<Tags>)
    ensures
        store is Some <==> (ascending(tag_ids(tags_model(list@))) && all_named(tags_model(list@))),
        store matches Some(s) ==> s.wf() && tags_listed(s) == tags_model(list@),
{
    let ghost model = tags_model(list@);
    let mut store: Tags = UidMap::new();
    for item in it: list
        invariant
            it.seq() == list@,
            model == tags_model(list@),
            store.wf(),
            tags_listed(store) == model.take(it.index() as int),
            ascending(tag_ids(model).take(it.index() as int)),
            all_named(model.take(it.index() as int)),
    {
        let ghost i = it.index() as int;
        let (id, (names, implies)) = item;
        let n = store.len();
        proof {
            assert(model.take(i).len() == i);
            assert forall|j: int| 0 <= j < i implies store.ids()[j] == tag_ids(model)[j] by {
                assert(tags_listed(store)[j] == model.take(i)[j]);
            }
        }
        if n > 0 && store.id_at(n - 1) >= id {
            proof {
                assert(tag_ids(model)[i - 1] >= tag_ids(model)[i]);
            }
            return None;
        }
        match Tag::new(names, implies) {
            None => {
                return None;
            },
            Some(tag) => {
                store.push(id, tag);
            },
        }
    }
    proof {
        assert(model.take(list@.len() as int) =~= model);
    }
    Some(store)
}

/// The database that `raw` is the list form of, if it is that of a
/// database.
pub fn from_raw(raw: RawDb) -> (db: Option<LocalDb>)
    ensures
        db is Some <==> valid(raw_model(raw)),
        db matches Some(d) ==> d.wf() && raw_of(d) == raw_model(raw) && d@ == restored(
            raw_model(raw),
        ),
{
    let ghost model = raw_model(raw);
    let (entry_list, tag_list, sequence_list, uid_counter) = raw;
    let entries = match entries_from(entry_list) {
        Some(entries) => entries,
        None => {
            return None;
        },
    };
    let tags = match tags_from(tag_list) {
        Some(tags) => tags,
        None => {
            return None;
        },
    };
    let sequences = match sequences_from(sequence_list) {
        Some(sequences) => sequences,
        None => {
            return None;
        },
    };
    proof {
        assert(item_ids(model.0) =~= entries.ids());
        assert(tag_ids(model.1) =~= tags.ids());
        assert(item_ids(model.2) =~= sequences.ids());
    }
    let db = LocalDb::from_parts(entries, tags, sequences, uid_counter);
    proof {
        if db is Some {
            lemma_raw_of(db->0);
        }
    }
    db
}

} // verus!
