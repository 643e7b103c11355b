use orchidlang::str_lib;

#[test]
fn counts_grapheme_clusters() {
    assert_eq!(str_lib::len("abc"), 3);
    assert_eq!(str_lib::len("a\u{310}e\u{301}o\u{308}\u{332}"), 3);
    assert_eq!(str_lib::len("a\r\nb🇷🇺🇸🇹"), 5);
    assert_eq!(str_lib::len(""), 0);
}

#[test]
fn size_counts_bytes() {
    assert_eq!(str_lib::size("abc"), 3);
    assert_eq!(str_lib::size("é"), 2);
    assert_eq!(str_lib::size("🇷🇺"), 8);
}

#[test]
fn concat_joins() {
    assert_eq!(str_lib::concat("ab".to_string(), "cd"), "abcd");
}

#[test]
fn slice_by_characters() {
    let s = "a\u{310}bcd";
    assert_eq!(str_lib::slice(s, 0, 2).unwrap(), "a\u{310}b");
    assert_eq!(str_lib::slice(s, 0, 99).unwrap(), s);
    assert_eq!(str_lib::slice(s, 1, 2).unwrap(), "bc");
    assert_eq!(str_lib::slice(s, 2, 2).unwrap(), "cd");
    assert_eq!(str_lib::slice(s, 3, 2).unwrap_err().describe(), "Error while indexing string: Character index out of bounds");
    assert!(str_lib::slice(s, 9, 0).is_err());
    assert_eq!(str_lib::slice(s, 4, 0).unwrap(), "");
}

#[test]
fn split_at_a_character() {
    assert_eq!(str_lib::split("héllo", 2), ("hé".to_string(), "llo".to_string()));
    assert_eq!(str_lib::split("ab", 5), ("ab".to_string(), "".to_string()));
    let (l, r) = str_lib::split("🇷🇺🇸🇹", 1);
    assert_eq!(l, "🇷🇺");
    assert_eq!(r, "🇸🇹");
}

#[test]
fn find_a_substring() {
    assert_eq!(str_lib::find("hello world", "o w"), Some(4));
    assert_eq!(str_lib::find("hello", "x"), None);
    assert_eq!(str_lib::find("hello", ""), Some(0));
    assert_eq!(str_lib::find("a\u{310}a", "a"), Some(1));
    assert_eq!(str_lib::find("ab", "abc"), None);
}
