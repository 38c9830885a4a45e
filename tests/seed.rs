use slime_finder::seed::{seed_from_parsed, string_hash, to_hash};

#[test]
fn numeric_text_is_taken_as_is() {
    assert_eq!(to_hash("12345"), 12345);
    assert_eq!(to_hash("-5"), -5);
    assert_eq!(to_hash("8011883210394390920"), 8011883210394390920);
}

#[test]
fn text_is_hashed() {
    assert_eq!(to_hash("abc"), 96354);
    assert_eq!(to_hash("Aa"), 2112);
    assert_eq!(to_hash("BB"), 2112);
    assert_eq!(to_hash(""), 0);
    assert_eq!(to_hash("\u{e9}"), 233);
}

#[test]
fn hash_wraps_and_sign_extends() {
    assert_eq!(string_hash("polygenelubricants"), -2147483648);
    assert_eq!(to_hash("hello world"), 1794106052);
}

#[test]
fn parsed_value_wins_over_hash() {
    assert_eq!(seed_from_parsed(Some(7), "abc"), 7);
    assert_eq!(seed_from_parsed(None, "abc"), 96354);
}
