use cowbump::db::folder::{find_path, is_eligible, DirItem, DB_BACKUP_FILENAME, DB_FILENAME};
use cowbump::db::local::LocalDb;

fn file(path: &str) -> DirItem {
    DirItem { path: path.to_string(), is_dir: false }
}

fn dir(path: &str) -> DirItem {
    DirItem { path: path.to_string(), is_dir: true }
}

#[test]
fn reconciliation_add_remove() {
    let mut db = LocalDb::new();
    let first = db.update_from_folder(&vec![dir("/p"), file("/p/a.png"), file("/p/b.png")]);
    assert_eq!(db.entries().len(), 2);
    assert_eq!(first.added.len(), 2);
    assert_ne!(first.added[0], first.added[1]);
    assert_eq!(first.removed.len(), 0);
    let a = find_path(db.entries(), &"/p/a.png".to_string()).unwrap();
    let b = find_path(db.entries(), &"/p/b.png".to_string()).unwrap();
    assert_ne!(a, b);
    let second = db.update_from_folder(&vec![dir("/p"), file("/p/a.png")]);
    assert_eq!(db.entries().len(), 1);
    assert_eq!(db.entries().id_at(0), a);
    assert_eq!(db.entries().get(a).unwrap().path, "/p/a.png");
    assert!(second.added.is_empty());
    assert_eq!(second.removed.len(), 1);
    assert_eq!(second.removed.get(b).unwrap().path, "/p/b.png");
}

#[test]
fn reconciling_twice_changes_nothing_the_second_time() {
    let listing = vec![dir("/p"), file("/p/a.png"), dir("/p/sub"), file("/p/sub/b.png")];
    let mut db = LocalDb::new();
    let stale = db.add_entry("/p/gone.png".to_string());
    let first = db.update_from_folder(&listing);
    assert_eq!(first.added, vec![1, 2]);
    assert!(first.removed.contains_key(stale));
    let counter = db.uid_counter();
    let second = db.update_from_folder(&listing);
    assert!(second.added.is_empty());
    assert_eq!(second.removed.len(), 0);
    assert_eq!(db.uid_counter(), counter);
    assert_eq!(db.entries().len(), 2);
    assert_eq!(db.entries().get(1).unwrap().path, "/p/a.png");
    assert_eq!(db.entries().get(2).unwrap().path, "/p/sub/b.png");
}

#[test]
fn new_entries_get_their_uids_in_the_order_of_the_listing() {
    let mut db = LocalDb::new();
    db.new_uid();
    let changes = db.update_from_folder(&vec![file("/p/z.png"), file("/p/a.png"), file("/p/m.png")]);
    assert_eq!(changes.added, vec![1, 2, 3]);
    assert_eq!(db.entries().get(1).unwrap().path, "/p/z.png");
    assert_eq!(db.entries().get(2).unwrap().path, "/p/a.png");
    assert_eq!(db.entries().get(3).unwrap().path, "/p/m.png");
    assert_eq!(db.uid_counter(), 4);
}

#[test]
fn an_entry_that_stays_keeps_its_tags() {
    let mut db = LocalDb::new();
    let a = db.add_entry("/p/a.png".to_string());
    let t = db.add_new_tag_from_text("cat".to_string());
    db.add_tag_for(a, t).unwrap();
    let changes = db.update_from_folder(&vec![file("/p/b.png"), file("/p/a.png")]);
    assert_eq!(changes.added, vec![2]);
    assert_eq!(db.entries().get(a).unwrap().tags, vec![t]);
    assert!(db.entries().get(2).unwrap().tags.is_empty());
    assert!(db.tags().contains_key(t));
}

#[test]
fn directories_and_the_databases_own_files_get_no_entry() {
    let mut db = LocalDb::new();
    let changes = db.update_from_folder(&vec![
        dir("/p"),
        file("/p/cowbump.db"),
        file("/p/cowbump.db.bak"),
        dir("/p/a.png"),
        file("/p/cowbump.db.png"),
    ]);
    assert_eq!(changes.added, vec![0]);
    assert_eq!(db.entries().get(0).unwrap().path, "/p/cowbump.db.png");
    assert_eq!(DB_FILENAME, "cowbump.db");
    assert_eq!(DB_BACKUP_FILENAME, "cowbump.db.bak");
    assert!(!is_eligible(&file("/p/cowbump.db")));
    assert!(!is_eligible(&file("cowbump.db.bak")));
    assert!(!is_eligible(&dir("/p/a.png")));
    assert!(is_eligible(&file("/p/a.png")));
    assert!(is_eligible(&file("/cowbump.db/a.png")));
}

#[test]
fn an_entry_for_one_of_the_databases_own_files_is_removed() {
    let mut db = LocalDb::new();
    let own = db.add_entry("/p/cowbump.db".to_string());
    let changes = db.update_from_folder(&vec![file("/p/cowbump.db")]);
    assert!(changes.removed.contains_key(own));
    assert_eq!(db.entries().len(), 0);
}

#[test]
fn a_file_listed_twice_gets_one_entry() {
    let mut db = LocalDb::new();
    let changes = db.update_from_folder(&vec![file("/p/a.png"), file("/p/a.png")]);
    assert_eq!(changes.added, vec![0]);
    assert_eq!(db.entries().len(), 1);
}

#[test]
fn of_two_entries_with_one_path_the_first_stays() {
    let mut db = LocalDb::new();
    let first = db.add_entry("/p/a.png".to_string());
    let second = db.add_entry("/p/a.png".to_string());
    let changes = db.update_from_folder(&vec![file("/p/a.png")]);
    assert!(changes.added.is_empty());
    assert!(db.entries().contains_key(first));
    assert!(changes.removed.contains_key(second));
    assert_eq!(db.entries().len(), 1);
}

#[test]
fn an_empty_listing_removes_every_entry() {
    let mut db = LocalDb::new();
    db.add_entry("/p/a.png".to_string());
    db.add_entry("/p/b.png".to_string());
    let changes = db.update_from_folder(&Vec::new());
    assert_eq!(changes.removed.len(), 2);
    assert_eq!(db.entries().len(), 0);
    assert_eq!(db.uid_counter(), 2);
}

#[test]
fn paths_are_compared_exactly() {
    let mut db = LocalDb::new();
    let a = db.add_entry("/p/a.png".to_string());
    let changes = db.update_from_folder(&vec![file("/p/A.png")]);
    assert_eq!(changes.added, vec![1]);
    assert!(changes.removed.contains_key(a));
    assert_eq!(find_path(db.entries(), &"/p/A.png".to_string()), Some(1));
    assert_eq!(find_path(db.entries(), &"/p/a.png".to_string()), None);
}
