use tagdb::database::DB;
use tagdb::file::TaggedFile;
use tagdb::query::Query;
use tagdb::tags::{Tag, TagType};

fn some_tag() -> Tag {
    Tag::new().append(TagType::str("holiday".to_string())).append(TagType::number(2020))
}

fn other_tag() -> Tag {
    Tag::new().append(TagType::date(1, 1, 2021))
}

fn tags_of(db: &DB, path: &str) -> Option<Vec<Tag>> {
    db.files().iter().find(|f| f.get_path() == path).map(|f| f.tags().clone())
}

#[test]
fn add_tag_then_query_then_remove_file() {
    let mut db = DB::init("db.json".to_string());
    db.add_file("a.txt".to_string());
    db.add_tag_to_file("a.txt".to_string(), &some_tag());
    assert_eq!(db.match_query(&Query::eq_c(some_tag())), vec!["a.txt".to_string()]);
    db.remove_matching(&Query::eq_c(some_tag()));
    assert!(db.match_query(&Query::eq_c(some_tag())).is_empty());
    assert!(db.files().is_empty());
}

#[test]
fn add_file_twice_keeps_tags() {
    let mut db = DB::init("db.json".to_string());
    db.add_file("a.txt".to_string());
    db.add_tag_to_file("a.txt".to_string(), &some_tag());
    db.add_file("a.txt".to_string());
    assert_eq!(db.files().len(), 1);
    assert_eq!(tags_of(&db, "a.txt"), Some(vec![some_tag()]));
}

#[test]
fn add_tag_to_absent_file_changes_nothing() {
    let mut db = DB::init("db.json".to_string());
    db.add_file("a.txt".to_string());
    db.add_tag_to_file("b.txt".to_string(), &some_tag());
    assert_eq!(db.files().len(), 1);
    assert_eq!(tags_of(&db, "a.txt"), Some(vec![]));
    assert_eq!(db.location(), "db.json");
}

#[test]
fn same_tag_is_held_once() {
    let mut db = DB::init("db.json".to_string());
    db.add_file("a.txt".to_string());
    db.add_tag_to_file("a.txt".to_string(), &some_tag());
    db.add_tag_to_file("a.txt".to_string(), &some_tag());
    assert_eq!(tags_of(&db, "a.txt"), Some(vec![some_tag()]));
}

#[test]
fn remove_matching_tags_keeps_files() {
    let mut db = DB::init("db.json".to_string());
    db.add_file("a.txt".to_string());
    db.add_file("b.txt".to_string());
    db.add_tag_to_file("a.txt".to_string(), &some_tag());
    db.add_tag_to_file("a.txt".to_string(), &other_tag());
    db.add_tag_to_file("b.txt".to_string(), &some_tag());
    db.remove_matching_tags(&Query::eq_c(some_tag()));
    assert_eq!(tags_of(&db, "a.txt"), Some(vec![other_tag()]));
    assert_eq!(tags_of(&db, "b.txt"), Some(vec![]));
    // running it again changes nothing
    db.remove_matching_tags(&Query::eq_c(some_tag()));
    assert_eq!(tags_of(&db, "a.txt"), Some(vec![other_tag()]));
}

#[test]
fn remove_matching_tags_for_one_file() {
    let mut db = DB::init("db.json".to_string());
    db.add_file("a.txt".to_string());
    db.add_file("b.txt".to_string());
    db.add_tag_to_file("a.txt".to_string(), &some_tag());
    db.add_tag_to_file("b.txt".to_string(), &some_tag());
    db.remove_matching_tags_for_file(&"a.txt".to_string(), &Query::eq_c(some_tag()));
    assert_eq!(tags_of(&db, "a.txt"), Some(vec![]));
    assert_eq!(tags_of(&db, "b.txt"), Some(vec![some_tag()]));
    db.remove_matching_tags_for_file(&"c.txt".to_string(), &Query::eq_c(some_tag()));
    assert_eq!(db.files().len(), 2);
}

#[test]
fn add_tag_matching_only_to_matching_files() {
    let mut db = DB::init("db.json".to_string());
    db.add_file("a.txt".to_string());
    db.add_file("b.txt".to_string());
    db.add_tag_to_file("a.txt".to_string(), &some_tag());
    let prefix = Tag::new().append(TagType::number(2020));
    db.add_tag_matching(&Query::begins_with_c(prefix), &other_tag());
    // dates sort before numbers
    assert_eq!(tags_of(&db, "a.txt"), Some(vec![other_tag(), some_tag()]));
    assert_eq!(tags_of(&db, "b.txt"), Some(vec![]));
}

#[test]
fn match_query_lists_each_path_once() {
    let mut db = DB::init("db.json".to_string());
    for p in ["a.txt", "b.txt", "c.txt"] {
        db.add_file(p.to_string());
    }
    db.add_tag_to_file("a.txt".to_string(), &some_tag());
    db.add_tag_to_file("a.txt".to_string(), &some_tag().append(TagType::number(1)));
    db.add_tag_to_file("c.txt".to_string(), &some_tag());
    let mut r = db.match_query(&Query::contains_c(some_tag()));
    r.sort();
    assert_eq!(r, vec!["a.txt".to_string(), "c.txt".to_string()]);
    db.remove_matching(&Query::contains_c(some_tag()));
    assert_eq!(db.files().len(), 1);
    assert_eq!(db.files()[0].get_path(), "b.txt");
}

#[test]
fn tagged_file_drops_duplicate_tags() {
    let f = TaggedFile::new("x".to_string(), vec![some_tag(), other_tag(), some_tag()]);
    assert_eq!(f.get_path(), "x");
    assert_eq!(f.tags().len(), 2);
    assert!(f.match_query(&Query::eq_c(other_tag())));
    assert!(!f.match_query(&Query::eq_c(Tag::new())));
}

#[test]
fn tagged_file_remove_all_matching() {
    let mut f = TaggedFile::new("x".to_string(), vec![some_tag(), other_tag()]);
    f.remove_all_matching(&Query::contains_c(Tag::new().append(TagType::number(2020))));
    assert_eq!(f.tags(), &vec![other_tag()]);
    f.add_tag(some_tag());
    assert_eq!(f.tags().len(), 2);
}

#[test]
fn tags_are_kept_in_structural_order() {
    let words = |w: &str| Tag::new().append(TagType::str(w.to_string()));
    let given = vec![
        words("b"),
        Tag::new().append(TagType::number(-3)),
        words("ab"),
        Tag::new(),
        Tag::new().append(TagType::date(2, 1, 1999)),
        Tag::new().append(TagType::date(1, 12, 2000)),
        words("a"),
        words("é"),
        Tag::new().append(TagType::number(5)).append(TagType::number(1)),
        Tag::new().append(TagType::number(5)),
    ];
    let f = TaggedFile::new("x".to_string(), given.clone());
    let mut expected = given;
    expected.sort();
    assert_eq!(f.tags(), &expected);
}
