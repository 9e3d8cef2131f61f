//! Reconciliation of the entries with what a folder holds.
//!
//! The caller walks the folder tree, in an order of its choice that it keeps
//! from one walk to the next, and hands the walk over as a listing. The
//! entries are then brought in line with it: a file that is listed and has
//! no entry gets one, and an entry whose file is not listed is removed.

use crate::db::local::{DbView, Entries, LocalDb};
use crate::db::uid::{Uid, UidSet};
use crate::entry::EntryView;
use crate::text::{file_name, file_name_of};
use vstd::prelude::*;

verus! {

/// Name of the file that the database is saved to.
pub const DB_FILENAME: &'static str = "cowbump.db";

/// Name of the file that a backup of the database is saved to.
pub const DB_BACKUP_FILENAME: &'static str = "cowbump.db.bak";

/// One item that a walk of the folder tree came by.
#[derive(Debug, Clone, PartialEq, Eq)]
pub struct DirItem {
    /// Path of the item, its components parted by `/`.
    pub path: String,
    /// Whether the item is a directory.
    pub is_dir: bool,
}

/// What an item of a listing holds.
pub struct DirItemView {
    pub path: Seq<char>,
    pub is_dir: bool,
}

impl View for DirItem {
    type V = DirItemView;

    open spec fn view(&self) -> DirItemView {
        DirItemView { path: self.path@, is_dir: self.is_dir }
    }
}

/// What a listing holds, item by item.
pub open spec fn items(listing: Seq<DirItem>) -> Seq<DirItemView> {
    listing.map_values(|item: DirItem| item@)
}

/// What a reconciliation changed.
#[derive(Debug, Clone, PartialEq, Eq)]
pub struct FolderChanges {
    /// Identifiers of the entries that were added, in ascending order.
    pub added: Vec<Uid>,
    /// The entries that were removed.
    pub removed: Entries,
}

/// The item is a file that can have an entry: no directory, and not one of
/// the database's own two files.
pub open spec fn eligible(item: DirItemView) -> bool {
    &&& !item.is_dir
    &&& file_name_of(item.path) != DB_FILENAME@
    &&& file_name_of(item.path) != DB_BACKUP_FILENAME@
}

/// One of the first `upto` items of the listing is a file at `path` that
/// can have an entry.
pub open spec fn listed(listing: Seq<DirItemView>, upto: int, path: Seq<char>) -> bool {
    exists|k: int|
        0 <= k < upto && k < listing.len() && eligible(#[trigger] listing[k]) && listing[k].path
            == path
}

/// An entry has the path `path`.
pub open spec fn has_entry(entries: Map<Uid, EntryView>, path: Seq<char>) -> bool {
    exists|id: Uid| entries.contains_key(id) && (#[trigger] entries[id]).path == path
}

/// `id` is the first entry, by ascending identifier, with the path `path`.
pub open spec fn first_with_path(entries: Map<Uid, EntryView>, id: Uid, path: Seq<char>) -> bool {
    &&& entries.contains_key(id)
    &&& entries[id].path == path
    &&& forall|other: Uid|
        entries.contains_key(other) && (#[trigger] entries[other]).path == path ==> id <= other
}

/// The entries that stay when the first `upto` items of the listing are all
/// that the folder holds: of the entries with one path the first, if a file
/// with that path is listed.
pub open spec fn kept(entries: Map<Uid, EntryView>, listing: Seq<DirItemView>, upto: int) -> Set<
    Uid,
> {
    Set::new(
        |id: Uid|
            entries.contains_key(id) && first_with_path(entries, id, entries[id].path) && listed(
                listing,
                upto,
                entries[id].path,
            ),
    )
}

/// The paths among the first `upto` items of the listing that get a new
/// entry: those of the files that can have one and that no entry has, each
/// once, in the order of the listing.
pub open spec fn fresh_paths(entries: Map<Uid, EntryView>, listing: Seq<DirItemView>, upto: int) -> Seq<
    Seq<char>,
>
    decreases upto,
{
    if upto <= 0 || upto > listing.len() {
        Seq::empty()
    } else {
        let before = fresh_paths(entries, listing, upto - 1);
        let item = listing[upto - 1];
        if eligible(item) && !has_entry(entries, item.path) && !before.contains(item.path) {
            before.push(item.path)
        } else {
            before
        }
    }
}

/// The entries `entries` together with a new entry without tags for each
/// path of `fresh`, numbered from `first` on.
pub open spec fn with_fresh(entries: Map<Uid, EntryView>, first: Uid, fresh: Seq<Seq<char>>) -> Map<
    Uid,
    EntryView,
> {
    Map::new(
        |id: Uid| entries.contains_key(id) || first <= id < first + fresh.len(),
        |id: Uid|
            if entries.contains_key(id) {
                entries[id]
            } else {
                EntryView { path: fresh[id - first], tags: Seq::empty() }
            },
    )
}

impl DbView {
    /// The database after reconciliation with `listing`: the entries whose
    /// file is listed stay as they are, the others are gone, and each listed
    /// file without an entry has a new one, with the next identifiers in
    /// the order of the listing.
    pub open spec fn reconciled(self, listing: Seq<DirItemView>) -> DbView {
        let fresh = fresh_paths(self.entries, listing, listing.len() as int);
        DbView {
            entries: with_fresh(
                self.entries.restrict(kept(self.entries, listing, listing.len() as int)),
                self.uid_counter,
                fresh,
            ),
            uid_counter: (self.uid_counter + fresh.len()) as Uid,
            ..self
        }
    }

    /// No two entries have the same path.
    pub open spec fn paths_unique(self) -> bool {
        forall|a: Uid, b: Uid|
            self.entries.contains_key(a) && self.entries.contains_key(b) && (
            #[trigger] self.entries[a]).path == (#[trigger] self.entries[b]).path ==> a == b
    }
}

/// A path is among the new paths if and only if it is the path of a listed
/// file that had no entry.
pub proof fn lemma_fresh_has(
    entries: Map<Uid, EntryView>,
    listing: Seq<DirItemView>,
    upto: int,
    path: Seq<char>,
)
    requires
        0 <= upto <= listing.len(),
    ensures
        fresh_paths(entries, listing, upto).contains(path) <==> (listed(listing, upto, path)
            && !has_entry(entries, path)),
    decreases upto,
{
    if upto > 0 {
        lemma_fresh_has(entries, listing, upto - 1, path);
        let before = fresh_paths(entries, listing, upto - 1);
        let item = listing[upto - 1];
        if eligible(item) && !has_entry(entries, item.path) && !before.contains(item.path) {
            lemma_push_path(before, item.path, path);
        }
    } else {
    }
}

/// There are at most as many new paths as items, and no path is among them
/// twice.
pub proof fn lemma_fresh_paths(entries: Map<Uid, EntryView>, listing: Seq<DirItemView>, upto: int)
    requires
        0 <= upto <= listing.len(),
    ensures
        fresh_paths(entries, listing, upto).len() <= upto,
        fresh_paths(entries, listing, upto).no_duplicates(),
    decreases upto,
{
    if upto > 0 {
        lemma_fresh_paths(entries, listing, upto - 1);
    }
}

/// A list of paths with one more pushed holds that path and what it held.
pub proof fn lemma_push_path(paths: Seq<Seq<char>>, path: Seq<char>, x: Seq<char>)
    ensures
        paths.push(path).contains(x) <==> (paths.contains(x) || x == path),
{
    let all = paths.push(path);
    if paths.contains(x) {
        let k = choose|k: int| 0 <= k < paths.len() && paths[k] == x;
        assert(all[k] == x);
    }
    if x == path {
        assert(all[paths.len() as int] == x);
    }
}

/// Whether the item is a file that can have an entry.
pub fn is_eligible(item: &DirItem) -> (b: bool)
    ensures
        b == eligible(item@),
{
    if item.is_dir {
        return false;
    }
    let name = file_name(item.path.as_str());
    let primary = DB_FILENAME.to_owned();
    let backup = DB_BACKUP_FILENAME.to_owned();
    !(name == primary) && !(name == backup)
}

/// The first entry, by ascending identifier, with the path `path`.
pub fn find_path(entries: &Entries, path: &String) -> (found: Option<Uid>)
    requires
        entries.wf(),
    ensures
        match found {
            Some(id) => first_with_path(entries@, id, path@),
            None => !has_entry(entries@, path@),
        },
{
    let mut i: usize = 0;
    while i < entries.len()
        invariant
            entries.wf(),
            i <= entries.ids().len(),
            forall|j: int| 0 <= j < i ==> (#[trigger] entries@[entries.ids()[j]]).path != path@,
        decreases entries.ids().len() - i,
    {
        let id = entries.id_at(i);
        if entries.value_at(i).path == *path {
            return Some(id);
        }
        i = i + 1;
    }
    None
}

/// Every identifier of `entries` is below `bound`.
pub open spec fn below(entries: Map<Uid, EntryView>, bound: Uid) -> bool {
    forall|id: Uid| entries.contains_key(id) ==> id < bound
}

/// The `count` identifiers from `first` on.
pub open spec fn id_range(first: Uid, count: nat) -> Set<Uid> {
    Set::new(|id: Uid| first <= id < first + count)
}

/// A file whose path an entry had before the walk: the first such entry
/// stays, and no entry is added.
pub proof fn lemma_step_old(
    entries: Map<Uid, EntryView>,
    first: Uid,
    listing: Seq<DirItemView>,
    k: int,
    id: Uid,
)
    requires
        0 <= k < listing.len(),
        eligible(listing[k]),
        below(entries, first),
        id < first,
        first_with_path(
            with_fresh(entries, first, fresh_paths(entries, listing, k)),
            id,
            listing[k].path,
        ),
    ensures
        fresh_paths(entries, listing, k + 1) == fresh_paths(entries, listing, k),
        kept(entries, listing, k + 1) == kept(entries, listing, k).insert(id),
{
    let path = listing[k].path;
    let now = with_fresh(entries, first, fresh_paths(entries, listing, k));
    assert forall|other: Uid|
        entries.contains_key(other) && (#[trigger] entries[other]).path == path implies id
        <= other by {
        assert(now.contains_key(other) && now[other].path == path);
    }
}

/// A file whose path was listed before and got a new entry then: nothing
/// changes.
pub proof fn lemma_step_seen(
    entries: Map<Uid, EntryView>,
    first: Uid,
    listing: Seq<DirItemView>,
    k: int,
    id: Uid,
)
    requires
        0 <= k < listing.len(),
        eligible(listing[k]),
        below(entries, first),
        id >= first,
        first_with_path(
            with_fresh(entries, first, fresh_paths(entries, listing, k)),
            id,
            listing[k].path,
        ),
    ensures
        fresh_paths(entries, listing, k + 1) == fresh_paths(entries, listing, k),
        kept(entries, listing, k + 1) == kept(entries, listing, k),
        id_range(first, fresh_paths(entries, listing, k).len()).contains(id),
{
    let path = listing[k].path;
    let fresh = fresh_paths(entries, listing, k);
    let now = with_fresh(entries, first, fresh);
    assert forall|x: Uid| entries.contains_key(x) implies (#[trigger] entries[x]).path != path by {
        if entries[x].path == path {
            assert(now.contains_key(x) && now[x].path == path);
        }
    }
}

/// A file whose path no entry has: it gets a new entry with the next
/// identifier.
pub proof fn lemma_step_add(
    entries: Map<Uid, EntryView>,
    first: Uid,
    listing: Seq<DirItemView>,
    k: int,
)
    requires
        0 <= k < listing.len(),
        eligible(listing[k]),
        below(entries, first),
        first + fresh_paths(entries, listing, k).len() < u64::MAX,
        !has_entry(with_fresh(entries, first, fresh_paths(entries, listing, k)), listing[k].path),
    ensures
        fresh_paths(entries, listing, k + 1) == fresh_paths(entries, listing, k).push(
            listing[k].path,
        ),
        kept(entries, listing, k + 1) == kept(entries, listing, k),
        with_fresh(entries, first, fresh_paths(entries, listing, k + 1)) == with_fresh(
            entries,
            first,
            fresh_paths(entries, listing, k),
        ).insert(
            (first + fresh_paths(entries, listing, k).len()) as Uid,
            EntryView { path: listing[k].path, tags: Seq::empty() },
        ),
        id_range(first, fresh_paths(entries, listing, k + 1).len()) == id_range(
            first,
            fresh_paths(entries, listing, k).len(),
        ).insert((first + fresh_paths(entries, listing, k).len()) as Uid),
{
    let path = listing[k].path;
    let fresh = fresh_paths(entries, listing, k);
    let now = with_fresh(entries, first, fresh);
    assert forall|x: Uid| entries.contains_key(x) implies (#[trigger] entries[x]).path != path by {
        assert(now.contains_key(x) && now[x] == entries[x]);
    }
    if fresh.contains(path) {
        let j = choose|j: int| 0 <= j < fresh.len() && fresh[j] == path;
        let id = (first + j) as Uid;
        assert(now[id].path == path);
    }
    let next = fresh.push(path);
    assert forall|x: Uid|
        kept(entries, listing, k + 1).contains(x) <==> kept(entries, listing, k).contains(x) by {
    }
    let uid = (first + fresh.len()) as Uid;
    assert(with_fresh(entries, first, next) =~= now.insert(
        uid,
        EntryView { path: path, tags: Seq::empty() },
    ));
}

/// Sweeping the entries that were not touched leaves the kept entries and
/// the new ones, and takes away the other old ones.
pub proof fn lemma_sweep(
    entries: Map<Uid, EntryView>,
    first: Uid,
    fresh: Seq<Seq<char>>,
    stay: Set<Uid>,
)
    requires
        below(entries, first),
        forall|id: Uid| stay.contains(id) ==> entries.contains_key(id),
    ensures
        with_fresh(entries, first, fresh).restrict(stay.union(id_range(first, fresh.len())))
            == with_fresh(entries.restrict(stay), first, fresh),
        with_fresh(entries, first, fresh).remove_keys(stay.union(id_range(first, fresh.len())))
            == entries.remove_keys(stay),
{
}

/// Among the entries with one path there is a first.
pub proof fn lemma_first_exists(entries: Map<Uid, EntryView>, path: Seq<char>, id: Uid)
    requires
        entries.contains_key(id),
        entries[id].path == path,
    ensures
        exists|f: Uid| first_with_path(entries, f, path),
    decreases id,
{
    if exists|other: Uid|
        entries.contains_key(other) && (#[trigger] entries[other]).path == path && other < id {
        let other = choose|other: Uid|
            entries.contains_key(other) && (#[trigger] entries[other]).path == path && other < id;
        lemma_first_exists(entries, path, other);
    } else {
        assert(first_with_path(entries, id, path));
    }
}

/// After a reconciliation no two entries have the same path, every entry's
/// file is listed, and every listed file has an entry.
pub proof fn lemma_reconciled(db: DbView, listing: Seq<DirItemView>)
    requires
        db.wf(),
        db.uid_counter + listing.len() <= u64::MAX,
    ensures
        db.reconciled(listing).wf(),
        db.reconciled(listing).paths_unique(),
        forall|id: Uid|
            db.reconciled(listing).entries.contains_key(id) ==> listed(
                listing,
                listing.len() as int,
                (#[trigger] db.reconciled(listing).entries[id]).path,
            ),
        forall|path: Seq<char>|
            listed(listing, listing.len() as int, path) ==> has_entry(
                db.reconciled(listing).entries,
                path,
            ),
{
    let n = listing.len() as int;
    let first = db.uid_counter;
    let stay = kept(db.entries, listing, n);
    let fresh = fresh_paths(db.entries, listing, n);
    let after = db.reconciled(listing);
    lemma_fresh_paths(db.entries, listing, n);
    assert forall|id: Uid| after.entries.contains_key(id) implies id < after.uid_counter && listed(
        listing,
        n,
        (#[trigger] after.entries[id]).path,
    ) by {
        if stay.contains(id) {
        } else {
            let path = fresh[id - first];
            lemma_fresh_has(db.entries, listing, n, path);
        }
    }
    assert forall|a: Uid, b: Uid|
        after.entries.contains_key(a) && after.entries.contains_key(b) && (
        #[trigger] after.entries[a]).path == (#[trigger] after.entries[b]).path implies a == b by {
        let path = after.entries[a].path;
        if stay.contains(a) && stay.contains(b) {
        } else if stay.contains(a) {
            lemma_fresh_has(db.entries, listing, n, path);
        } else if stay.contains(b) {
            lemma_fresh_has(db.entries, listing, n, path);
        } else {
        }
    }
    assert forall|path: Seq<char>| listed(listing, n, path) implies has_entry(
        after.entries,
        path,
    ) by {
        if has_entry(db.entries, path) {
            let id = choose|id: Uid| db.entries.contains_key(id) && (#[trigger] db.entries[id]).path == path;
            lemma_first_exists(db.entries, path, id);
            let f = choose|f: Uid| first_with_path(db.entries, f, path);
            assert(after.entries.contains_key(f) && after.entries[f].path == path);
        } else {
            lemma_fresh_has(db.entries, listing, n, path);
            let j = choose|j: int| 0 <= j < fresh.len() && fresh[j] == path;
            let id = (first + j) as Uid;
            assert(after.entries.contains_key(id) && after.entries[id].path == path);
        }
    }
}

/// Reconciling a second time with the same listing adds no entry, removes
/// none, and leaves the database as the first reconciliation left it.
pub proof fn lemma_reconcile_again(db: DbView, listing: Seq<DirItemView>)
    requires
        db.wf(),
        db.uid_counter + listing.len() <= u64::MAX,
    ensures
        fresh_paths(db.reconciled(listing).entries, listing, listing.len() as int).len() == 0,
        db.reconciled(listing).entries.remove_keys(
            kept(db.reconciled(listing).entries, listing, listing.len() as int),
        ) == Map::<Uid, EntryView>::empty(),
        db.reconciled(listing).reconciled(listing) == db.reconciled(listing),
{
    let n = listing.len() as int;
    let once = db.reconciled(listing);
    lemma_reconciled(db, listing);
    let again = fresh_paths(once.entries, listing, n);
    if again.len() > 0 {
        lemma_fresh_has(once.entries, listing, n, again[0]);
    }
    assert(once.reconciled(listing).entries =~= once.entries);
}

impl LocalDb {
    /// Brings the entries in line with `listing`, the items that a walk of
    /// the folder tree came by.
    ///
    /// Directories and the database's own two files are passed over. Each
    /// other item is a file: if an entry has its path, the first such entry
    /// stays; if none has, the file gets a new entry. Every entry that no
    /// file of the listing made stay or brought in is removed, for good:
    /// whoever wants it back makes a backup first.
    pub fn update_from_folder(&mut self, listing: &Vec<DirItem>) -> (changes: FolderChanges)
        requires
            old(self).wf(),
            old(self)@.uid_counter + listing.len() <= u64::MAX,
        ensures
            final(self).wf(),
            old(self)@.evolves(final(self)@),
            final(self)@ == old(self)@.reconciled(items(listing@)),
            final(self)@.paths_unique(),
            changes.added@ == Seq::new(
                fresh_paths(old(self)@.entries, items(listing@), listing.len() as int).len(),
                |j: int| (old(self)@.uid_counter + j) as Uid,
            ),
            changes.removed.wf(),
            changes.removed@ == old(self)@.entries.remove_keys(
                kept(old(self)@.entries, items(listing@), listing.len() as int),
            ),
    {
        let ghost start = self@;
        let ghost first = start.uid_counter;
        let ghost walk = items(listing@);
        let mut touched = UidSet::new();
        let mut added: Vec<Uid> = Vec::new();
        let mut k: usize = 0;
        proof {
            assert(self@.entries =~= with_fresh(start.entries, first, Seq::empty()));
        }
        while k < listing.len()
            invariant
                k <= listing.len(),
                self.wf(),
                touched.wf(),
                start.wf(),
                below(start.entries, first),
                first == start.uid_counter,
                walk == items(listing@),
                first + listing.len() <= u64::MAX,
                self@ == (DbView {
                    entries: with_fresh(
                        start.entries,
                        first,
                        fresh_paths(start.entries, walk, k as int),
                    ),
                    uid_counter: (first + fresh_paths(start.entries, walk, k as int).len()) as Uid,
                    ..start
                }),
                touched@ == kept(start.entries, walk, k as int).union(
                    id_range(first, fresh_paths(start.entries, walk, k as int).len()),
                ),
                added@ == Seq::new(
                    fresh_paths(start.entries, walk, k as int).len(),
                    |j: int| (first + j) as Uid,
                ),
            decreases listing.len() - k,
        {
            let item = &listing[k];
            proof {
                lemma_fresh_paths(start.entries, walk, k as int);
            }
            if is_eligible(item) {
                match find_path(self.entries(), &item.path) {
                    Some(id) => {
                        proof {
                            if id < first {
                                lemma_step_old(start.entries, first, walk, k as int, id);
                            } else {
                                lemma_step_seen(start.entries, first, walk, k as int, id);
                            }
                        }
                        touched.insert(id);
                    },
                    None => {
                        proof {
                            lemma_step_add(start.entries, first, walk, k as int);
                        }
                        let uid = self.add_entry(item.path.clone());
                        touched.insert(uid);
                        added.push(uid);
                    },
                }
            } else {
            }
            k = k + 1;
        }
        let ghost fresh = fresh_paths(start.entries, walk, listing.len() as int);
        let ghost stay = kept(start.entries, walk, listing.len() as int);
        let removed = self.retain_entries(&touched);
        proof {
            lemma_reconciled(start, walk);
            lemma_sweep(start.entries, first, fresh, stay);
            lemma_fresh_paths(start.entries, walk, listing.len() as int);
        }
        FolderChanges { added, removed }
    }
}

} // verus!
