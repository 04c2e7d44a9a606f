use cabbage::text::{backslashes_to_slashes, chars_of, find_bytes, trim, white_space};

#[test]
fn trim_removes_unicode_white_space() {
    assert_eq!(trim("  x y \t"), "x y");
    assert_eq!(trim("\u{3000}a\u{85}"), "a");
    assert_eq!(trim("   "), "");
    assert_eq!(trim("a"), "a");
}

#[test]
fn white_space_matches_std() {
    for c in ['\t', '\n', ' ', '\u{a0}', '\u{1680}', '\u{2000}', '\u{200a}', '\u{2028}', '\u{202f}', '\u{3000}', 'a', '\u{200b}', '\u{feff}', '_'] {
        assert_eq!(white_space(c), c.is_whitespace(), "{:?}", c);
    }
    for code in 0u32..0x3100 {
        if let Some(c) = char::from_u32(code) {
            assert_eq!(white_space(c), c.is_whitespace(), "{:?}", c);
        }
    }
}

#[test]
fn byte_search_finds_first_match() {
    assert_eq!(find_bytes(b"abcabc", b"ca"), Some(2));
    assert_eq!(find_bytes(b"abc", b""), Some(0));
    assert_eq!(find_bytes(b"abc", b"abcd"), None);
    assert_eq!(find_bytes(b"aaa", b"b"), None);
}

#[test]
fn small_text_helpers() {
    assert_eq!(backslashes_to_slashes("a\\b\\c"), "a/b/c");
    assert_eq!(chars_of("héllo"), vec!['h', 'é', 'l', 'l', 'o']);
}
