use zung::strsplit::{Strsplit, StrsplitExt};

#[test]
fn test_new() {
    let a = "a b c d e f".strsplit(" ");
    let b = Strsplit { remainder: Some("a b c d e f"), needle: " " };
    assert_eq!(a.remainder, b.remainder);
    assert_eq!(a.needle, b.needle);
}

#[test]
fn strsplit_works() {
    let a = "a b c d e f";
    assert_eq!(a.strsplit(" ").into_vec(), vec!["a", "b", "c", "d", "e", "f"]);
}

#[test]
fn strsplit_works_with_string() {
    let a = "a b c d e f";
    assert_eq!(a.strsplit(&String::from(" ")).into_vec(), vec!["a", "b", "c", "d", "e", "f"]);
}

#[test]
fn strsplit_trailing_space_works() {
    let a = "a b c d e ";
    assert_eq!(a.strsplit(" ").into_vec(), vec!["a", "b", "c", "d", "e", ""]);
}

#[test]
fn strsplit_with_comma_works() {
    let a = "a b c, d e f";
    assert_eq!(a.strsplit(",").into_vec(), vec!["a b c", " d e f"]);
}

#[test]
fn till_needle_finds_substring() {
    let text = "hello world";
    let result = text.till_needle(" ");
    assert_eq!(result, "hello");
}

#[test]
fn till_needle_returns_entire_string_if_needle_not_found() {
    let text = "hello";
    let result = text.till_needle(",");
    assert_eq!(result, "hello");
}

#[test]
fn till_needle_with_multiple_occurrences() {
    let text = "apple,banana,orange";
    let result = text.till_needle(",");
    assert_eq!(result, "apple");
}

#[test]
fn till_needle_returns_none_for_empty_string() {
    let text = "";
    let result = text.till_needle(",");
    assert_eq!(result, "");
}

#[test]
fn till_needle_handles_special_characters() {
    let text = "foo@bar.com";
    let result = text.till_needle("@");
    assert_eq!(result, "foo");
}

#[test]
fn till_needle_works_with_longer_needle() {
    let text = "this is a test string";
    let result = text.till_needle("is");
    assert_eq!(result, "th");
}

#[test]
fn strsplit_on_multibyte_text() {
    assert_eq!("café→thé→".strsplit("→").into_vec(), vec!["café", "thé", ""]);
    let mut s = "x--y".strsplit("--");
    assert_eq!(s.next_piece(), Some("x"));
    assert_eq!(s.next_piece(), Some("y"));
    assert_eq!(s.next_piece(), None);
}
