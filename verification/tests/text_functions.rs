use podcast::text::{
    contains, decimal3_text, decimal_text, ends_with, head_of, lowers_to, only_digits, same_bytes, same_text,
    split_once, starts_with, tail_of, trim, white_space,
};

#[test]
fn white_space_is_that_of_unicode() {
    for code in 0..=0x10ffffu32 {
        if let Some(c) = char::from_u32(code) {
            assert_eq!(white_space(c), c.is_whitespace(), "{:x}", code);
        }
    }
}

#[test]
fn trimming() {
    assert_eq!(trim(" \u{3000}a b\u{85}\n"), "a b");
    assert_eq!(trim("\u{e9}"), "\u{e9}");
    assert_eq!(trim(" \t "), "");
    assert_eq!(trim(""), "");
    assert_eq!(trim(trim("  x ")), "x");
}

#[test]
fn splitting_at_separators() {
    assert_eq!(split_once("\u{e9}\u{4e2d}=b=c", '='), Some(("\u{e9}\u{4e2d}", "b=c")));
    assert_eq!(split_once("a\u{4e2d}b", '\u{4e2d}'), Some(("a", "b")));
    assert_eq!(split_once("abc", '='), None);
    assert_eq!(head_of("a.b.c", '.'), "a");
    assert_eq!(tail_of("a.b.\u{1f600}c", '.'), "\u{1f600}c");
    assert_eq!(tail_of("abc", '.'), "abc");
    assert_eq!(tail_of("abc.", '.'), "");
}

#[test]
fn searching() {
    assert!(contains("text/vtt", "vtt"));
    assert!(contains("x", ""));
    assert!(contains("", ""));
    assert!(!contains("vt", "vtt"));
    assert!(starts_with("NOTEBOOK", "NOTE"));
    assert!(!starts_with("NOT", "NOTE"));
    assert!(ends_with("a.mp3", ".mp3"));
    assert!(!ends_with("mp3", ".mp3"));
    assert!(same_text("\u{e9}", "\u{e9}"));
    assert!(!same_text("a", "ab"));
    assert!(same_bytes(b"item", b"item"));
    assert!(!same_bytes(b"item", b"itex"));
}

#[test]
fn digits_and_letters() {
    assert!(only_digits("0123456789"));
    assert!(only_digits(""));
    assert!(!only_digits("1\u{661}"));
    assert!(lowers_to("FlAc", "flac"));
    assert!(!lowers_to("flac", "FLAC"));
    assert!(!lowers_to("\u{c9}", "\u{e9}"));
}

#[test]
fn numbers_in_digits() {
    assert_eq!(decimal_text(0), "0");
    assert_eq!(decimal_text(600), "600");
    assert_eq!(decimal_text(u64::MAX), "18446744073709551615");
    assert_eq!(decimal3_text(7), "007");
    assert_eq!(decimal3_text(70), "070");
    assert_eq!(decimal3_text(7000), "7000");
}
