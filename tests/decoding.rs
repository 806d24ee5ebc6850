use tagdb::tags::{Tag, TagType};

fn decode(text: &str) -> Tag {
    let mut s = text.to_string();
    let t = Tag::from_str(&mut s).unwrap();
    assert_eq!(s, "");
    t
}

#[test]
fn decode_date_then_word() {
    let expected = Tag::new()
        .append(TagType::str("ghg".to_string()))
        .append(TagType::date(12, 4, 2000));
    assert_eq!(decode("12-04-2000:ghg:"), expected);
}

#[test]
fn decode_with_and_without_trailing_delimiter() {
    let expected = Tag::new()
        .append(TagType::str("ghg".to_string()))
        .append(TagType::date(22, 4, 2020))
        .append(TagType::number(2000));
    assert_eq!(decode("2000:22-04-2020:ghg:"), expected);
    assert_eq!(decode("2000:22-04-2020:ghg"), expected);
}

#[test]
fn decode_empty_text_is_one_empty_word() {
    assert_eq!(decode(""), Tag::new().append(TagType::str(String::new())));
}

#[test]
fn decode_empty_tokens_are_empty_words() {
    let expected = Tag::new()
        .append(TagType::str("b".to_string()))
        .append(TagType::str(String::new()))
        .append(TagType::str("a".to_string()));
    assert_eq!(decode("a::b"), expected);
}

#[test]
fn decode_date_and_number_at_end_of_input() {
    assert_eq!(decode("22-04-2020"), Tag::new().append(TagType::date(22, 4, 2020)));
    assert_eq!(decode("-17"), Tag::new().append(TagType::number(-17)));
}

#[test]
fn decode_date_is_not_checked_against_the_calendar() {
    assert_eq!(decode("32-13-0000:"), Tag::new().append(TagType::date(32, 13, 0)));
}

#[test]
fn decode_number_limits() {
    assert_eq!(decode("2147483647"), Tag::new().append(TagType::number(i32::MAX)));
    assert_eq!(decode("-2147483648"), Tag::new().append(TagType::number(i32::MIN)));
    assert_eq!(decode("+5"), Tag::new().append(TagType::number(5)));
    assert_eq!(
        decode("2147483648"),
        Tag::new().append(TagType::str("2147483648".to_string()))
    );
    assert_eq!(decode("-"), Tag::new().append(TagType::str("-".to_string())));
    assert_eq!(decode("12a"), Tag::new().append(TagType::str("12a".to_string())));
}

#[test]
fn decode_date_is_tried_before_number() {
    // a malformed date that is no number either falls through to a word
    assert_eq!(
        decode("22-04-20x0:1"),
        Tag::new().append(TagType::number(1)).append(TagType::str("22-04-20x0".to_string()))
    );
    // a date followed by more text than the delimiter is no date
    assert_eq!(
        decode("22-04-20201"),
        Tag::new().append(TagType::str("22-04-20201".to_string()))
    );
}

#[test]
fn date_from_str_at_end_of_input() {
    let mut s = "01-02-0003".to_string();
    assert_eq!(TagType::date_from_str(&mut s), Some(TagType::date(1, 2, 3)));
    assert_eq!(s, "");
}

#[test]
fn number_from_str_consumes_token_and_delimiter() {
    let mut s = "+42:x".to_string();
    assert_eq!(TagType::number_from_str(&mut s), Some(TagType::number(42)));
    assert_eq!(s, "x");
    let mut s = "99999999999:x".to_string();
    assert_eq!(TagType::number_from_str(&mut s), None);
    assert_eq!(s, "99999999999:x");
}
