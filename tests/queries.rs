use tagdb::query::Query;
use tagdb::tags::{Tag, TagType};

fn a_tag() -> Tag {
    Tag::new()
        .append(TagType::number(2000))
        .append(TagType::date(22, 4, 2020))
        .append(TagType::str("test".to_string()))
}

fn b_tag() -> Tag {
    Tag::new().append(TagType::number(2000)).append(TagType::date(22, 4, 2020))
}

#[test]
fn empty_tag_matches_everything() {
    for t in [Tag::new(), a_tag(), b_tag()] {
        assert!(t.contains(&Tag::Nil));
        assert!(t.begins_with(&Tag::Nil));
        assert!(t.ends_in(&Tag::Nil));
    }
}

#[test]
fn tags_match_themselves() {
    for t in [Tag::new(), a_tag(), b_tag()] {
        assert!(t.contains(&t));
        assert!(t.begins_with(&t));
        assert!(t.ends_in(&t));
    }
}

#[test]
fn query_contains_inner_run() {
    let a = a_tag();
    assert!(a.match_query(&Query::contains_c(b_tag())));
    // b sits at the far end of a's chain
    assert!(a.match_query(&Query::ends_in_c(b_tag())));
}

#[test]
fn query_ends_in_suffix() {
    let c = Tag::new().append(TagType::date(22, 4, 2020)).append(TagType::str("test".to_string()));
    let d = c.clone().append(TagType::number(7)).append(TagType::str("x".to_string()));
    assert!(d.match_query(&Query::ends_in_c(c.clone())));
    assert!(!c.match_query(&Query::ends_in_c(d)));
}

#[test]
fn begins_with_anchors_at_head() {
    let a = a_tag();
    let head = Tag::new().append(TagType::str("test".to_string()));
    assert!(a.begins_with(&head));
    assert!(!a.begins_with(&b_tag()));
    assert!(!Tag::new().begins_with(&head));
}

#[test]
fn ends_in_needs_a_true_suffix() {
    // same last element but a different one before it
    let s = Tag::new().append(TagType::number(1)).append(TagType::number(2));
    let t = Tag::new().append(TagType::number(1)).append(TagType::number(3));
    assert!(!s.ends_in(&t));
    assert!(!s.contains(&t));
}

#[test]
fn contains_finds_inner_runs_only_when_contiguous() {
    let s = Tag::new()
        .append(TagType::number(1))
        .append(TagType::number(2))
        .append(TagType::number(3));
    let mid = Tag::new().append(TagType::number(2));
    let gap = Tag::new().append(TagType::number(1)).append(TagType::number(3));
    assert!(s.contains(&mid));
    assert!(!s.contains(&gap));
    assert!(!mid.contains(&s));
}

#[test]
fn eq_and_boolean_queries() {
    let a = a_tag();
    assert!(a.match_query(&Query::eq_c(a_tag())));
    assert!(!a.match_query(&Query::eq_c(b_tag())));
    let yes = || Query::contains_c(b_tag());
    let no = || Query::eq_c(b_tag());
    assert!(a.match_query(&Query::or_c(no(), yes())));
    assert!(!a.match_query(&Query::and_c(yes(), no())));
    assert!(a.match_query(&Query::and_c(yes(), yes())));
    assert!(!a.match_query(&Query::or_c(no(), no())));
}

#[test]
fn element_equality_is_structural() {
    assert!(TagType::date(1, 2, 3).same_as(&TagType::date(1, 2, 3)));
    assert!(!TagType::date(1, 2, 3).same_as(&TagType::date(1, 2, 4)));
    assert!(!TagType::number(3).same_as(&TagType::str("3".to_string())));
    assert_eq!(a_tag().copy(), a_tag());
    assert_ne!(a_tag(), b_tag());
}

#[test]
fn order_agrees_with_derived_order() {
    let values = vec![
        TagType::date(1, 2, 3),
        TagType::date(1, 2, 4),
        TagType::date(1, 3, 0),
        TagType::date(2, 0, 0),
        TagType::number(-1),
        TagType::number(0),
        TagType::str(String::new()),
        TagType::str("a".to_string()),
        TagType::str("ab".to_string()),
        TagType::str("b".to_string()),
        TagType::str("ä".to_string()),
    ];
    for a in &values {
        for b in &values {
            assert_eq!(a.less_than(b), a < b);
            let ta = Tag::new().append(b.clone()).append(a.clone());
            let tb = Tag::new().append(a.clone()).append(b.clone());
            assert_eq!(ta.less_than(&tb), ta < tb);
            let short = Tag::new().append(a.clone());
            assert_eq!(short.less_than(&ta), short < ta);
            assert_eq!(ta.less_than(&short), ta < short);
        }
    }
    assert!(Tag::new().less_than(&a_tag()));
    assert!(!a_tag().less_than(&Tag::new()));
}
