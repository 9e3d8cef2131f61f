use cowbump::db::local::{cleanse_tag_from_images, holds_any, DbError, LocalDb};
use cowbump::db::UidMap;
use cowbump::entry::Entry;
use cowbump::sequence::Sequence;
use cowbump::tag::Tag;

fn tag_names(list: &[&str]) -> Vec<String> {
    list.iter().map(|n| n.to_string()).collect()
}

#[test]
fn uids_are_handed_out_in_strictly_ascending_order() {
    let mut db = LocalDb::new();
    assert_eq!(db.uid_counter(), 0);
    let a = db.new_uid();
    let b = db.add_entry("/p/a.png".to_string());
    let c = db.add_new_tag_from_text("cat".to_string());
    db.remove_entry(b);
    db.remove_tags(&[c]);
    let d = db.add_new_sequence("trip");
    let e = db.new_uid();
    assert_eq!((a, b, c, d, e), (0, 1, 2, 3, 4));
    assert_eq!(db.uid_counter(), 5);
}

#[test]
fn a_deleted_items_uid_is_not_handed_out_again() {
    let mut db = LocalDb::new();
    let first = db.add_entry("/p/a.png".to_string());
    assert!(db.remove_entry(first).is_some());
    let second = db.add_entry("/p/a.png".to_string());
    assert!(second > first);
    assert!(!db.entries().contains_key(first));
}

#[test]
fn alias_resolution() {
    let mut db = LocalDb::new();
    let tag = Tag::new(tag_names(&["cat", "feline"]), Vec::new()).unwrap();
    let t = db.add_new_tag(tag);
    assert_eq!(db.resolve_tag("cat"), Some(t));
    assert_eq!(db.resolve_tag("feline"), Some(t));
    assert_eq!(db.resolve_tag("cat"), db.resolve_tag("feline"));
    assert_eq!(db.resolve_tag("dog"), None);
    assert_eq!(db.resolve_tag("Cat"), None);
    assert_eq!(db.resolve_tag("ca"), None);
}

#[test]
fn a_name_shared_by_two_tags_resolves_to_the_smaller_uid() {
    let mut db = LocalDb::new();
    let first = db.add_new_tag(Tag::new(tag_names(&["pet", "cat"]), Vec::new()).unwrap());
    let second = db.add_new_tag(Tag::new(tag_names(&["cat"]), Vec::new()).unwrap());
    assert!(first < second);
    assert_eq!(db.resolve_tag("cat"), Some(first));
    db.remove_tags(&[first]);
    assert_eq!(db.resolve_tag("cat"), Some(second));
    assert_eq!(db.resolve_tag("pet"), None);
}

#[test]
fn add_tag_for_tells_whether_the_entry_had_the_tag() {
    let mut db = LocalDb::new();
    let e = db.add_entry("/p/a.png".to_string());
    let t = db.add_new_tag_from_text("cat".to_string());
    assert_eq!(db.add_tag_for(e, t), Ok(false));
    assert_eq!(db.add_tag_for(e, t), Ok(true));
    assert_eq!(db.entries().get(e).unwrap().tags, vec![t]);
    assert_eq!(db.add_tag_for(99, t), Err(DbError::EntryNotFound));
}

#[test]
fn add_tag_for_multi_passes_over_missing_entries() {
    let mut db = LocalDb::new();
    let a = db.add_entry("/p/a.png".to_string());
    let b = db.add_entry("/p/b.png".to_string());
    let c = db.add_entry("/p/c.png".to_string());
    let t = db.add_new_tag_from_text("cat".to_string());
    db.add_tag_for(a, t).unwrap();
    db.add_tag_for_multi(&[a, 77, c, c], t);
    assert_eq!(db.entries().get(a).unwrap().tags, vec![t]);
    assert!(db.entries().get(b).unwrap().tags.is_empty());
    assert_eq!(db.entries().get(c).unwrap().tags, vec![t]);
}

#[test]
fn cascading_tag_deletion() {
    let mut db = LocalDb::new();
    let e1 = db.add_entry("/p/a.png".to_string());
    let e2 = db.add_entry("/p/b.png".to_string());
    let t = db.add_new_tag_from_text("cat".to_string());
    let other = db.add_new_tag_from_text("dog".to_string());
    db.add_tag_for(e1, t).unwrap();
    db.add_tag_for(e1, other).unwrap();
    db.add_tag_for(e2, other).unwrap();
    db.add_tag_for(e2, t).unwrap();
    db.remove_tags(&[t]);
    assert_eq!(db.entries().get(e1).unwrap().tags, vec![other]);
    assert_eq!(db.entries().get(e2).unwrap().tags, vec![other]);
    assert!(!db.tags().contains_key(t));
    assert!(db.tags().contains_key(other));
}

#[test]
fn deleting_a_tag_leaves_implications_of_other_tags() {
    let mut db = LocalDb::new();
    let animal = db.add_new_tag_from_text("animal".to_string());
    let cat = db.add_new_tag(Tag::new(tag_names(&["cat"]), vec![animal]).unwrap());
    db.remove_tags(&[animal]);
    assert!(db.tags().get(cat).unwrap().implies_tag(animal));
    assert!(!db.tags().contains_key(animal));
}

#[test]
fn remove_tags_cleanses_an_identifier_that_names_no_tag() {
    let mut db = LocalDb::new();
    let e = db.add_entry("/p/a.png".to_string());
    db.add_tag_for(e, 500).unwrap();
    db.remove_tags(&[500, 501]);
    assert!(db.entries().get(e).unwrap().tags.is_empty());
}

#[test]
fn cleanse_takes_one_tag_off_every_entry() {
    let mut entries: UidMap<Entry> = UidMap::new();
    entries.insert(1, Entry { path: "/a".to_string(), tags: vec![7, 8, 7] });
    entries.insert(2, Entry { path: "/b".to_string(), tags: vec![8] });
    cleanse_tag_from_images(&mut entries, 7);
    assert_eq!(entries.get(1).unwrap().tags, vec![8]);
    assert_eq!(entries.get(2).unwrap().tags, vec![8]);
}

#[test]
fn a_tag_always_keeps_a_name() {
    assert!(Tag::new(Vec::new(), Vec::new()).is_none());
    let mut tag = Tag::named("cat".to_string());
    assert!(!tag.remove_name(0));
    assert_eq!(tag.names(), &tag_names(&["cat"]));
    tag.add_name("feline".to_string());
    assert!(tag.has_name(&"feline".to_string()));
    assert!(!tag.remove_name(2));
    assert!(tag.remove_name(0));
    assert_eq!(tag.names(), &tag_names(&["feline"]));
    assert!(!tag.remove_name(0));
}

#[test]
fn implications_are_held_once() {
    let mut tag = Tag::named("cat".to_string());
    assert!(tag.add_implication(4));
    assert!(!tag.add_implication(4));
    assert!(tag.add_implication(2));
    assert_eq!(tag.implies(), &vec![4, 2]);
    assert!(tag.implies_tag(2));
    assert!(tag.remove_implication(4));
    assert!(!tag.remove_implication(4));
    assert_eq!(tag.implies(), &vec![2]);
}

#[test]
fn common_tags_are_the_tags_of_any_of_the_entries() {
    let mut db = LocalDb::new();
    let a = db.add_entry("/p/a.png".to_string());
    let b = db.add_entry("/p/b.png".to_string());
    db.add_tag_for(a, 11).unwrap();
    db.add_tag_for(a, 10).unwrap();
    db.add_tag_for(b, 11).unwrap();
    db.add_tag_for(b, 12).unwrap();
    assert_eq!(db.common_tags(&[a, b, 99]).to_vec(), vec![10, 11, 12]);
    assert_eq!(db.common_tags(&[b]).to_vec(), vec![11, 12]);
    assert!(db.common_tags(&[]).is_empty());
}

#[test]
fn sequences_append_and_allow_duplicates() {
    let mut db = LocalDb::new();
    let s = db.add_new_sequence("trip");
    assert_eq!(db.sequences().get(s).unwrap().name, "trip");
    assert_eq!(db.add_images_to_sequence(s, &[5, 6]), Ok(()));
    assert_eq!(db.add_images_to_sequence(s, &[6, 4]), Ok(()));
    assert_eq!(db.sequences().get(s).unwrap().entries, vec![5, 6, 6, 4]);
    assert_eq!(db.add_images_to_sequence(s + 1, &[1]), Err(DbError::SequenceNotFound));
}

#[test]
fn related_sequences_are_found_by_ascending_uid() {
    let mut db = LocalDb::new();
    let e = db.add_entry("/p/a.png".to_string());
    let f = db.add_entry("/p/b.png".to_string());
    let s1 = db.add_new_sequence("one");
    let s2 = db.add_new_sequence("two");
    let s3 = db.add_new_sequence("three");
    db.add_images_to_sequence(s1, &[e]).unwrap();
    db.add_images_to_sequence(s2, &[f]).unwrap();
    db.add_images_to_sequence(s3, &[f, e]).unwrap();
    assert_eq!(db.find_related_sequences(&[e]), vec![s1, s3]);
    assert_eq!(db.find_related_sequences(&[f, e]), vec![s1, s2, s3]);
    assert_eq!(db.find_related_sequences(&[99]), Vec::<u64>::new());
    assert_eq!(db.find_related_sequences(&[]), Vec::<u64>::new());
}

#[test]
fn a_sequence_keeps_an_entry_that_was_removed() {
    let mut db = LocalDb::new();
    let e = db.add_entry("/p/a.png".to_string());
    let s = db.add_new_sequence("one");
    db.add_images_to_sequence(s, &[e]).unwrap();
    db.remove_entry(e);
    assert_eq!(db.sequences().get(s).unwrap().entries, vec![e]);
    assert_eq!(db.find_related_sequences(&[e]), vec![s]);
}

#[test]
fn sequence_contains_and_holds_any() {
    let mut sequence = Sequence::new_with_name("s");
    assert!(sequence.entries.is_empty());
    sequence.entries.push(3);
    assert!(sequence.contains(3));
    assert!(!sequence.contains(4));
    assert!(holds_any(&vec![1, 2, 3], &[9, 3]));
    assert!(!holds_any(&vec![1, 2, 3], &[9, 8]));
    assert!(!holds_any(&vec![1, 2, 3], &[]));
}

#[test]
fn rename_commits_only_after_the_file_was_renamed() {
    let mut db = LocalDb::new();
    let e = db.add_entry("/p/a.png".to_string());
    db.add_tag_for(e, 3).unwrap();
    assert_eq!(db.rename_target(e, "b.png"), Ok("/p/b.png".to_string()));
    assert_eq!(db.rename_target(e + 1, "b.png"), Err(DbError::EntryNotFound));
    assert_eq!(db.rename(e, "b.png", false), Err(DbError::RenameFailed));
    assert_eq!(db.entries().get(e).unwrap().path, "/p/a.png");
    assert_eq!(db.rename(e + 1, "b.png", true), Err(DbError::EntryNotFound));
    assert_eq!(db.rename(e, "b.png", true), Ok(()));
    assert_eq!(db.entries().get(e).unwrap().path, "/p/b.png");
    assert_eq!(db.entries().get(e).unwrap().tags, vec![3]);
}

#[test]
fn retain_entries_hands_back_what_left() {
    let mut db = LocalDb::new();
    let a = db.add_entry("/p/a.png".to_string());
    let b = db.add_entry("/p/b.png".to_string());
    let c = db.add_entry("/p/c.png".to_string());
    let keep = cowbump::db::UidSet::from_ids(&[c, a, 40]);
    let removed = db.retain_entries(&keep);
    assert_eq!(removed.len(), 1);
    assert_eq!(removed.get(b).unwrap().path, "/p/b.png");
    assert!(db.entries().contains_key(a));
    assert!(!db.entries().contains_key(b));
    assert!(db.entries().contains_key(c));
    assert_eq!(db.uid_counter(), 3);
}

#[test]
fn from_parts_asks_for_uids_below_the_counter_and_named_tags() {
    let mut entries: UidMap<Entry> = UidMap::new();
    entries.insert(4, Entry::new("/a".to_string()));
    assert!(LocalDb::from_parts(entries, UidMap::new(), UidMap::new(), 4).is_none());
    let mut entries: UidMap<Entry> = UidMap::new();
    entries.insert(4, Entry::new("/a".to_string()));
    let db = LocalDb::from_parts(entries, UidMap::new(), UidMap::new(), 5).unwrap();
    assert_eq!(db.uid_counter(), 5);
    assert_eq!(db.entries().get(4).unwrap().path, "/a");
    let mut sequences: UidMap<Sequence> = UidMap::new();
    sequences.insert(9, Sequence::new_with_name("s"));
    assert!(LocalDb::from_parts(UidMap::new(), UidMap::new(), sequences, 9).is_none());
    let mut tags: UidMap<Tag> = UidMap::new();
    tags.insert(2, Tag::named("t".to_string()));
    assert!(LocalDb::from_parts(UidMap::new(), tags, UidMap::new(), 2).is_none());
}

#[test]
fn a_stored_tag_is_edited_through_the_database() {
    let mut db = LocalDb::new();
    let cat = db.add_new_tag_from_text("cat".to_string());
    assert_eq!(db.remove_tag_name(cat, 0), Ok(false));
    assert_eq!(db.add_tag_name(cat, "feline".to_string()), Ok(()));
    assert_eq!(db.resolve_tag("feline"), Some(cat));
    assert_eq!(db.remove_tag_name(cat, 5), Ok(false));
    assert_eq!(db.remove_tag_name(cat, 0), Ok(true));
    assert_eq!(db.resolve_tag("cat"), None);
    assert_eq!(db.tags().get(cat).unwrap().names(), &tag_names(&["feline"]));
    assert_eq!(db.remove_tag_name(cat, 0), Ok(false));
    assert_eq!(db.add_tag_implication(cat, 40), Ok(true));
    assert_eq!(db.add_tag_implication(cat, 40), Ok(false));
    assert!(db.tags().get(cat).unwrap().implies_tag(40));
    assert_eq!(db.remove_tag_implication(cat, 40), Ok(true));
    assert_eq!(db.remove_tag_implication(cat, 40), Ok(false));
    assert!(!db.tags().get(cat).unwrap().implies_tag(40));
}

#[test]
fn editing_a_tag_that_is_not_there_is_reported() {
    let mut db = LocalDb::new();
    assert_eq!(db.add_tag_name(3, "x".to_string()), Err(DbError::TagNotFound));
    assert_eq!(db.remove_tag_name(3, 0), Err(DbError::TagNotFound));
    assert_eq!(db.add_tag_implication(3, 1), Err(DbError::TagNotFound));
    assert_eq!(db.remove_tag_implication(3, 1), Err(DbError::TagNotFound));
}

#[test]
fn remove_tag_for_takes_every_occurrence_off_one_entry() {
    let mut db = LocalDb::new();
    let a = db.add_entry("/p/a.png".to_string());
    let b = db.add_entry("/p/b.png".to_string());
    db.add_tag_for_multi(&[a, b], 7);
    db.add_tag_for(a, 8).unwrap();
    assert_eq!(db.remove_tag_for(a, 7), Ok(true));
    assert_eq!(db.remove_tag_for(a, 7), Ok(false));
    assert_eq!(db.entries().get(a).unwrap().tags, vec![8]);
    assert_eq!(db.entries().get(b).unwrap().tags, vec![7]);
    assert_eq!(db.remove_tag_for(99, 7), Err(DbError::EntryNotFound));
}

#[test]
fn dangling_implications_stay_until_they_are_dropped() {
    let mut db = LocalDb::new();
    let animal = db.add_new_tag_from_text("animal".to_string());
    let pet = db.add_new_tag_from_text("pet".to_string());
    let cat = db.add_new_tag(Tag::new(tag_names(&["cat"]), vec![pet, animal, 70]).unwrap());
    db.remove_tags(&[animal]);
    assert_eq!(db.tags().get(cat).unwrap().implies(), &vec![pet, animal, 70]);
    db.drop_dangling_implications();
    assert_eq!(db.tags().get(cat).unwrap().implies(), &vec![pet]);
    assert_eq!(db.tags().get(cat).unwrap().names(), &tag_names(&["cat"]));
    assert!(db.tags().get(pet).unwrap().implies().is_empty());
    assert_eq!(db.uid_counter(), 3);
}

#[test]
fn live_entries_of_a_sequence_pass_over_removed_entries() {
    let mut db = LocalDb::new();
    let a = db.add_entry("/p/a.png".to_string());
    let b = db.add_entry("/p/b.png".to_string());
    let s = db.add_new_sequence("s");
    db.add_images_to_sequence(s, &[b, a, b, 50]).unwrap();
    assert_eq!(db.live_entries_of(s), Ok(vec![b, a, b]));
    db.remove_entry(b);
    assert_eq!(db.live_entries_of(s), Ok(vec![a]));
    assert_eq!(db.sequences().get(s).unwrap().entries, vec![b, a, b, 50]);
    assert_eq!(db.live_entries_of(s + 1), Err(DbError::SequenceNotFound));
}

#[test]
fn an_entry_is_not_renamed_onto_the_path_of_another() {
    let mut db = LocalDb::new();
    let a = db.add_entry("/p/a.png".to_string());
    let b = db.add_entry("/p/b.png".to_string());
    assert_eq!(db.rename_target(a, "b.png"), Err(DbError::PathTaken));
    assert_eq!(db.rename(a, "b.png", true), Err(DbError::PathTaken));
    assert_eq!(db.rename(a, "b.png", false), Err(DbError::PathTaken));
    assert_eq!(db.entries().get(a).unwrap().path, "/p/a.png");
    assert_eq!(db.entries().get(b).unwrap().path, "/p/b.png");
    assert_eq!(db.rename_target(a, "a.png"), Ok("/p/a.png".to_string()));
    assert_eq!(db.rename(a, "a.png", true), Ok(()));
    assert_eq!(db.rename(b, "c.png", true), Ok(()));
    assert_eq!(db.rename(a, "b.png", true), Ok(()));
    assert_eq!(db.entries().get(a).unwrap().path, "/p/b.png");
}

#[test]
fn the_default_database_is_the_empty_one() {
    let db = LocalDb::default();
    assert_eq!(db, LocalDb::new());
    assert_eq!(db.uid_counter(), 0);
    assert_eq!(db.entries().len(), 0);
    assert_eq!(db.tags().len(), 0);
    assert_eq!(db.sequences().len(), 0);
}
