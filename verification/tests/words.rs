use rtools::fragments::{append_fragment, collapse_inline_ws, is_cjk, should_insert_space};
use rtools::text::{contains_text, is_blank, is_whitespace, join_texts, trim, truncate};

#[test]
fn whitespace_is_what_unicode_says() {
    for code in 0..0x11_0000u32 {
        if let Some(c) = char::from_u32(code) {
            assert_eq!(is_whitespace(c), c.is_whitespace(), "{code:x}");
        }
    }
}

#[test]
fn trimming_cuts_both_ends() {
    for s in ["", " ", " a ", "\u{3000}あ い\n", "x", "\t\n"] {
        assert_eq!(trim(s), s.trim());
        assert_eq!(trim(trim(s)), trim(s));
        assert_eq!(is_blank(s), s.trim().is_empty());
    }
}

#[test]
fn truncating_counts_characters() {
    assert_eq!(truncate("あいう", 3), "あいう");
    assert_eq!(truncate("あいう", 2), "あい…");
    assert_eq!(truncate("", 0), "");
}

#[test]
fn texts_are_joined_and_found() {
    let parts = vec!["a".to_string(), "b".to_string(), "c".to_string()];
    assert_eq!(join_texts(&parts, ", "), "a, b, c");
    assert_eq!(join_texts(&[], ", "), "");
    assert!(contains_text("abcabd", "abd"));
    assert!(!contains_text("abcab", "abd"));
    assert!(contains_text("abc", ""));
}

#[test]
fn runs_of_spaces_collapse() {
    assert_eq!(collapse_inline_ws("  a \n\t b　c"), "a b c");
    assert_eq!(collapse_inline_ws(" \n "), "");
    let once = collapse_inline_ws("x  y  ");
    assert_eq!(collapse_inline_ws(&once), once);
}

#[test]
fn spaces_go_between_latin_words() {
    assert!(should_insert_space(Some('a'), Some('b')));
    assert!(!should_insert_space(Some('あ'), Some('b')));
    assert!(!should_insert_space(Some('a'), Some(',')));
    assert!(!should_insert_space(Some('('), Some('b')));
    assert!(!should_insert_space(None, Some('b')));
    assert!(!should_insert_space(Some('a'), None));
    assert!(!should_insert_space(Some(' '), Some('b')));
    assert!(is_cjk('漢'));
    assert!(!is_cjk('a'));
}

#[test]
fn fragments_keep_both_sides() {
    let mut out = String::from("left  ");
    append_fragment(&mut out, "  right ");
    assert_eq!(out, "left right");
    append_fragment(&mut out, "   ");
    assert_eq!(out, "left right");
    let mut hyphen = String::from("10-");
    append_fragment(&mut hyphen, "20");
    assert_eq!(hyphen, "10- 20");
}
