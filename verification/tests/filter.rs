use cowbump::db::local::LocalDb;
use cowbump::db::UidSet;
use cowbump::entry::{filter_map, Entry};
use cowbump::filter_spec::{tags_satisfied, FilterSpec};

fn entry_with(path: &str, tags: &[u64]) -> Entry {
    Entry { path: path.to_string(), tags: tags.to_vec() }
}

fn spec_with(has: &[u64], hasnt: &[u64], text: &str, no_tags: bool) -> FilterSpec {
    FilterSpec {
        has_tags: UidSet::from_ids(has),
        filename_substring: text.to_string(),
        doesnt_have_tags: UidSet::from_ids(hasnt),
        doesnt_have_any_tags: no_tags,
    }
}

#[test]
fn filter_conjunction() {
    let t1 = 1;
    let t2 = 2;
    let mut e = entry_with("/p/a.png", &[t1]);
    assert!(e.spec_satisfied(&spec_with(&[t1], &[], "", false)));
    e.tags.push(t2);
    assert!(!e.spec_satisfied(&spec_with(&[t1], &[t2], "", false)));
    assert!(e.spec_satisfied(&spec_with(&[t1], &[], "", false)));
    assert!(e.spec_satisfied(&spec_with(&[t1, t2], &[], "", false)));
    assert!(!e.spec_satisfied(&spec_with(&[t1, t2, 3], &[], "", false)));
}

#[test]
fn no_tag_filter() {
    let only_no_tag = spec_with(&[], &[], "", true);
    assert!(entry_with("/p/a.png", &[]).spec_satisfied(&only_no_tag));
    assert!(!entry_with("/p/a.png", &[5]).spec_satisfied(&only_no_tag));
    assert!(!entry_with("/p/a.png", &[5]).spec_satisfied(&spec_with(&[5], &[], "", true)));
    assert!(!entry_with("/p/a.png", &[]).spec_satisfied(&spec_with(&[5], &[], "", true)));
}

#[test]
fn the_default_filter_passes_every_entry() {
    assert_eq!(FilterSpec::default(), FilterSpec::new());
    let spec = FilterSpec::new();
    assert!(!spec.active());
    assert!(entry_with("/p/a.png", &[]).spec_satisfied(&spec));
    assert!(entry_with("", &[1, 2, 3]).spec_satisfied(&spec));
}

#[test]
fn the_file_name_is_tested_without_regard_to_case() {
    let e = entry_with("/Pics/Summer/SunSet.PNG", &[]);
    assert!(e.spec_satisfied(&spec_with(&[], &[], "sunset", false)));
    assert!(e.spec_satisfied(&spec_with(&[], &[], "SUNSET.png", false)));
    assert!(e.spec_satisfied(&spec_with(&[], &[], ".png", false)));
    assert!(!e.spec_satisfied(&spec_with(&[], &[], "sunrise", false)));
    let umlaut = entry_with("/pics/ÄPFEL.jpg", &[]);
    assert!(umlaut.spec_satisfied(&spec_with(&[], &[], "äpfel", false)));
}

#[test]
fn only_the_final_component_is_tested() {
    let e = entry_with("/pics/summer/a.png", &[]);
    assert!(!e.spec_satisfied(&spec_with(&[], &[], "summer", false)));
    assert!(!e.spec_satisfied(&spec_with(&[], &[], "/a", false)));
    assert!(e.spec_satisfied(&spec_with(&[], &[], "a.p", false)));
}

#[test]
fn name_holds_takes_a_needle_in_lower_case() {
    let e = entry_with("/pics/SunSet.png", &[]);
    assert!(e.name_holds(&"sunset".chars().collect()));
    assert!(!e.name_holds(&"SunSet".chars().collect()));
    assert!(e.name_holds(&Vec::new()));
}

#[test]
fn name_and_tags_must_both_pass() {
    let e = entry_with("/p/cat.png", &[1]);
    assert!(e.spec_satisfied(&spec_with(&[1], &[2], "cat", false)));
    assert!(!e.spec_satisfied(&spec_with(&[1], &[2], "dog", false)));
    assert!(!e.spec_satisfied(&spec_with(&[2], &[], "cat", false)));
    assert!(!e.spec_satisfied(&spec_with(&[], &[1], "cat", false)));
}

#[test]
fn tags_satisfied_checks_the_three_tag_conditions() {
    assert!(tags_satisfied(&vec![1, 2], &spec_with(&[2], &[3], "ignored", false)));
    assert!(!tags_satisfied(&vec![1, 2], &spec_with(&[2], &[1], "", false)));
    assert!(!tags_satisfied(&vec![1], &spec_with(&[2], &[], "", false)));
    assert!(!tags_satisfied(&vec![1], &spec_with(&[], &[], "", true)));
    assert!(tags_satisfied(&vec![], &spec_with(&[], &[4], "", true)));
}

#[test]
fn a_stale_tag_reference_is_just_a_tag_that_is_not_there() {
    let e = entry_with("/p/a.png", &[77]);
    assert!(e.has_tag(77));
    assert!(e.spec_satisfied(&spec_with(&[77], &[], "", false)));
    assert!(!e.spec_satisfied(&spec_with(&[78], &[], "", false)));
}

#[test]
fn filter_map_gives_the_uid_of_a_passing_entry() {
    let e = entry_with("/p/a.png", &[1]);
    assert_eq!(filter_map(9, &e, &spec_with(&[1], &[], "", false)), Some(9));
    assert_eq!(filter_map(9, &e, &spec_with(&[2], &[], "", false)), None);
}

#[test]
fn filter_walks_the_entries_by_ascending_uid() {
    let mut db = LocalDb::new();
    let a = db.add_entry("/p/cat-1.png".to_string());
    let b = db.add_entry("/p/dog.png".to_string());
    let c = db.add_entry("/p/CAT-2.png".to_string());
    let t = db.add_new_tag_from_text("nice".to_string());
    db.add_tag_for(c, t).unwrap();
    db.add_tag_for(b, t).unwrap();
    assert_eq!(db.filter(&FilterSpec::new()), vec![a, b, c]);
    assert_eq!(db.filter(&spec_with(&[], &[], "cat", false)), vec![a, c]);
    assert_eq!(db.filter(&spec_with(&[t], &[], "", false)), vec![b, c]);
    assert_eq!(db.filter(&spec_with(&[t], &[], "Cat", false)), vec![c]);
    assert_eq!(db.filter(&spec_with(&[], &[t], "", false)), vec![a]);
    assert_eq!(db.filter(&spec_with(&[], &[], "", true)), vec![a]);
    assert_eq!(db.filter(&spec_with(&[], &[], "bird", false)), Vec::<u64>::new());
    assert_eq!(db.filter(&spec_with(&[], &[], "cat", false)), vec![a, c]);
}

#[test]
fn toggles_and_setters_change_one_set() {
    let mut spec = FilterSpec::new();
    spec.toggle_have_tag(3);
    assert!(spec.have_tag(3));
    assert!(spec.active());
    spec.toggle_have_tag(3);
    assert!(!spec.have_tag(3));
    spec.set_have_tag(4, true);
    spec.set_not_have_tag(5, true);
    spec.toggle_not_have_tag(6);
    assert_eq!(spec.has_tags.to_vec(), vec![4]);
    assert_eq!(spec.doesnt_have_tags.to_vec(), vec![5, 6]);
    spec.toggle_not_have_tag(5);
    spec.set_not_have_tag(6, false);
    spec.set_have_tag(4, false);
    assert!(!spec.not_have_tag(5));
    assert!(!spec.active());
    spec.doesnt_have_any_tags = true;
    assert!(spec.active());
    spec.clear();
    assert!(!spec.active());
    spec.filename_substring = "x".to_string();
    assert!(spec.active());
}
