use rmbrowser::text::{
    chars_of, contains_seq, find_char, find_seq, find_seq_from, is_whitespace,
    starts_with_seq, string_from, to_ascii_lower, trim_chars,
};

#[test]
fn lowercases_ascii_only() {
    let v = to_ascii_lower(&chars_of("HeLLo ÄÖ 1"));
    assert_eq!(string_from(&v), "hello ÄÖ 1");
}

#[test]
fn trims_unicode_whitespace() {
    let v = trim_chars(&chars_of("\u{3000}\t a b \n\u{a0}"));
    assert_eq!(string_from(&v), "a b");
    assert!(is_whitespace('\u{2029}'));
    assert!(!is_whitespace('x'));
}

#[test]
fn finds_substrings() {
    let h = chars_of("abcabc");
    assert_eq!(find_seq(&h, &chars_of("ca")), Some(2));
    assert_eq!(find_seq_from(&h, &chars_of("abc"), 1), Some(3));
    assert_eq!(find_seq(&h, &chars_of("")), Some(0));
    assert_eq!(find_seq(&h, &chars_of("x")), None);
    assert!(contains_seq(&h, &chars_of("bca")));
    assert_eq!(find_char(&h, 'c', 3), Some(5));
    assert!(starts_with_seq(&h, &chars_of("ab")));
}
