use cowbump::db::local::LocalDb;
use cowbump::filter_spec::FilterSpec;
use cowbump::query::{read_word, ParseError, Token, NO_TAG};
use cowbump::tag::Tag;

fn db_with_cat_and_dog() -> (LocalDb, u64, u64) {
    let mut db = LocalDb::new();
    let cat = db.add_new_tag(
        Tag::new(vec!["cat".to_string(), "feline".to_string()], Vec::new()).unwrap(),
    );
    let dog = db.add_new_tag_from_text("dog".to_string());
    (db, cat, dog)
}

#[test]
fn read_word_tells_the_five_kinds_apart() {
    assert!(matches!(read_word(":no-tag"), Token::NoTag));
    assert!(matches!(read_word(NO_TAG), Token::NoTag));
    assert!(matches!(read_word(":file=Sun"), Token::File(text) if text == "Sun"));
    assert!(matches!(read_word(":file="), Token::File(text) if text.is_empty()));
    assert!(matches!(read_word(":file"), Token::Unknown));
    assert!(matches!(read_word(":notag"), Token::Unknown));
    assert!(matches!(read_word(":"), Token::Unknown));
    assert!(matches!(read_word(":FILE=x"), Token::Unknown));
    assert!(matches!(read_word("!cat"), Token::Exclude(name) if name == "cat"));
    assert!(matches!(read_word("!"), Token::Exclude(name) if name.is_empty()));
    assert!(matches!(read_word("!:no-tag"), Token::Exclude(name) if name == ":no-tag"));
    assert!(matches!(read_word("cat"), Token::Require(name) if name == "cat"));
    assert!(matches!(read_word("file=x"), Token::Require(name) if name == "file=x"));
    assert!(matches!(read_word(""), Token::Require(name) if name.is_empty()));
}

#[test]
fn a_query_sets_all_four_conditions() {
    let (db, cat, dog) = db_with_cat_and_dog();
    let mut spec = FilterSpec::new();
    let unknown = spec.parse_and_resolve("feline !dog :no-tag :file=SUN", &db).unwrap();
    assert!(unknown.is_empty());
    assert_eq!(spec.has_tags.to_vec(), vec![cat]);
    assert_eq!(spec.doesnt_have_tags.to_vec(), vec![dog]);
    assert!(spec.doesnt_have_any_tags);
    assert_eq!(spec.filename_substring, "sun");
}

#[test]
fn names_that_no_tag_has_are_handed_back_in_their_order() {
    let (db, cat, _dog) = db_with_cat_and_dog();
    let mut spec = FilterSpec::new();
    let unknown = spec.parse_and_resolve("bird cat !fish  bird", &db).unwrap();
    assert_eq!(unknown, vec!["bird", "fish", "bird"]);
    assert_eq!(spec.has_tags.to_vec(), vec![cat]);
    assert!(spec.doesnt_have_tags.is_empty());
    assert!(!spec.doesnt_have_any_tags);
    assert_eq!(spec.filename_substring, "");
}

#[test]
fn a_query_replaces_what_the_filter_asked_for() {
    let (db, cat, dog) = db_with_cat_and_dog();
    let mut spec = FilterSpec::new();
    spec.parse_and_resolve("cat :no-tag :file=a", &db).unwrap();
    spec.parse_and_resolve("!cat dog", &db).unwrap();
    assert_eq!(spec.has_tags.to_vec(), vec![dog]);
    assert_eq!(spec.doesnt_have_tags.to_vec(), vec![cat]);
    assert!(!spec.doesnt_have_any_tags);
    assert_eq!(spec.filename_substring, "");
    spec.parse_and_resolve("", &db).unwrap();
    assert!(!spec.active());
}

#[test]
fn a_refused_query_leaves_the_filter_as_it_was() {
    let (db, cat, _dog) = db_with_cat_and_dog();
    let mut spec = FilterSpec::new();
    spec.parse_and_resolve("cat :file=a", &db).unwrap();
    assert_eq!(
        spec.parse_and_resolve("dog :nope cat", &db),
        Err(ParseError::UnknownDirective { word: 1 })
    );
    assert_eq!(
        spec.parse_and_resolve("dog :file=a !cat :file=b", &db),
        Err(ParseError::RepeatedFileName { word: 3 })
    );
    assert_eq!(spec.has_tags.to_vec(), vec![cat]);
    assert!(spec.doesnt_have_tags.is_empty());
    assert_eq!(spec.filename_substring, "a");
}

#[test]
fn the_first_refused_word_is_reported() {
    let (db, _cat, _dog) = db_with_cat_and_dog();
    let mut spec = FilterSpec::new();
    assert_eq!(
        spec.parse_and_resolve(":file=a :file=b :nope", &db),
        Err(ParseError::RepeatedFileName { word: 1 })
    );
    assert_eq!(
        spec.parse_and_resolve(":nope :file=a :file=b", &db),
        Err(ParseError::UnknownDirective { word: 0 })
    );
}

#[test]
fn a_parsed_query_filters() {
    let (mut db, cat, dog) = db_with_cat_and_dog();
    let a = db.add_entry("/p/Tom.png".to_string());
    let b = db.add_entry("/p/rex.png".to_string());
    let c = db.add_entry("/p/both.png".to_string());
    db.add_tag_for(a, cat).unwrap();
    db.add_tag_for(b, dog).unwrap();
    db.add_tag_for_multi(&[c], cat);
    db.add_tag_for_multi(&[c], dog);
    let mut spec = FilterSpec::new();
    spec.parse_and_resolve("cat", &db).unwrap();
    assert_eq!(db.filter(&spec), vec![a, c]);
    spec.parse_and_resolve("feline !dog", &db).unwrap();
    assert_eq!(db.filter(&spec), vec![a]);
    spec.parse_and_resolve(":file=TOM", &db).unwrap();
    assert_eq!(db.filter(&spec), vec![a]);
    spec.parse_and_resolve(":no-tag", &db).unwrap();
    assert_eq!(db.filter(&spec), Vec::<u64>::new());
}
