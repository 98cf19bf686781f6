use pattern_matcher::encoding::{cut, find_either, first_char_width, starts_with_bytes};
use pattern_matcher::matcher::split_alternatives;
use pattern_matcher::text::{
    split_before_either, split_first_char, split_once_char, strip_char, strip_prefix,
};

#[test]
fn strip_char_removes_the_first_character() {
    assert_eq!(strip_char("(ab", '('), Some("ab"));
    assert_eq!(strip_char("(", '('), Some(""));
    assert_eq!(strip_char("ab", '('), None);
    assert_eq!(strip_char("", '('), None);
    assert_eq!(strip_char("éab", '('), None);
    assert_eq!(strip_char("(éab", '('), Some("éab"));
}

#[test]
fn split_first_char_takes_one_character() {
    assert_eq!(split_first_char("abc"), Some(("a", "bc")));
    assert_eq!(split_first_char("a"), Some(("a", "")));
    assert_eq!(split_first_char(""), None);
    assert_eq!(split_first_char("éa"), Some(("é", "a")));
    assert_eq!(split_first_char("€a"), Some(("€", "a")));
    assert_eq!(split_first_char("💪a"), Some(("💪", "a")));
}

#[test]
fn split_before_either_stops_at_the_first_of_both() {
    assert_eq!(split_before_either("ab.c(d", '.', '('), ("ab", ".c(d"));
    assert_eq!(split_before_either("ab(c.d", '.', '('), ("ab", "(c.d"));
    assert_eq!(split_before_either("abc", '.', '('), ("abc", ""));
    assert_eq!(split_before_either(".abc", '.', '('), ("", ".abc"));
    assert_eq!(split_before_either("", '.', '('), ("", ""));
    assert_eq!(split_before_either("é💪(", '.', '('), ("é💪", "("));
}

#[test]
fn split_once_char_leaves_the_character_out() {
    assert_eq!(split_once_char("a|b|c", '|'), Some(("a", "b|c")));
    assert_eq!(split_once_char("|", '|'), Some(("", "")));
    assert_eq!(split_once_char("ab|", '|'), Some(("ab", "")));
    assert_eq!(split_once_char("abc", '|'), None);
    assert_eq!(split_once_char("", '|'), None);
    assert_eq!(split_once_char("é)ü", ')'), Some(("é", "ü")));
}

#[test]
fn strip_prefix_splits_behind_the_prefix() {
    assert_eq!(strip_prefix("abcde", "abc"), Some(("abc", "de")));
    assert_eq!(strip_prefix("abc", "abc"), Some(("abc", "")));
    assert_eq!(strip_prefix("abc", ""), Some(("", "abc")));
    assert_eq!(strip_prefix("", ""), Some(("", "")));
    assert_eq!(strip_prefix("ab", "abc"), None);
    assert_eq!(strip_prefix("abd", "abc"), None);
    assert_eq!(strip_prefix("", "a"), None);
    assert_eq!(strip_prefix("éüx", "éü"), Some(("éü", "x")));
    assert_eq!(strip_prefix("ç", "é"), None);
}

#[test]
fn split_alternatives_keeps_empty_pieces() {
    assert_eq!(split_alternatives("d|e|f"), vec!["d", "e", "f"]);
    assert_eq!(split_alternatives(""), vec![""]);
    assert_eq!(split_alternatives("|"), vec!["", ""]);
    assert_eq!(split_alternatives("a||b"), vec!["a", "", "b"]);
    assert_eq!(split_alternatives("abc"), vec!["abc"]);
}

#[test]
fn cut_splits_between_characters() {
    assert_eq!(cut("abc", 1), ("a", "bc"));
    assert_eq!(cut("abc", 0), ("", "abc"));
    assert_eq!(cut("abc", 3), ("abc", ""));
    assert_eq!(cut("é€", 2), ("é", "€"));
}

#[test]
fn first_char_width_counts_the_bytes_of_one_character() {
    assert_eq!(first_char_width("a"), 1);
    assert_eq!(first_char_width("\u{7f}x"), 1);
    assert_eq!(first_char_width("éx"), 2);
    assert_eq!(first_char_width("\u{7ff}"), 2);
    assert_eq!(first_char_width("€x"), 3);
    assert_eq!(first_char_width("\u{ffff}"), 3);
    assert_eq!(first_char_width("💪x"), 4);
    assert_eq!(first_char_width("\u{10ffff}"), 4);
}

#[test]
fn find_either_gives_a_byte_offset() {
    assert_eq!(find_either("ab.c", '.', '('), 2);
    assert_eq!(find_either("é€(.", '.', '('), 5);
    assert_eq!(find_either("abc", '.', '('), 3);
    assert_eq!(find_either("", '.', '('), 0);
    assert_eq!(find_either(".", '.', '('), 0);
}

#[test]
fn starts_with_bytes_compares_the_front() {
    assert!(starts_with_bytes("abc", "ab"));
    assert!(starts_with_bytes("abc", ""));
    assert!(starts_with_bytes("abc", "abc"));
    assert!(!starts_with_bytes("abc", "abcd"));
    assert!(!starts_with_bytes("abc", "b"));
    assert!(!starts_with_bytes("ç", "é"));
}
