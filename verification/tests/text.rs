use clipboard_sync::text::{
    bytes_eq, contains, first_nonblank_lines, is_whitespace, numbered, starts_with, str_eq,
    trim_end_nuls,
};

#[test]
fn strings_and_bytes_compare() {
    assert!(str_eq("", ""));
    assert!(str_eq("naïve ✓", "naïve ✓"));
    assert!(!str_eq("abc", "abd"));
    assert!(!str_eq("abc", "ab"));
    assert!(bytes_eq(&[1, 2], &[1, 2]));
    assert!(!bytes_eq(&[1, 2], &[1, 3]));
    assert!(!bytes_eq(&[1, 2], &[1, 2, 3]));
}

#[test]
fn prefixes_and_substrings() {
    for (s, p) in [("text/html", "text/"), ("text", "text/"), ("", ""), ("é", "é"), ("éa", "e")] {
        assert_eq!(starts_with(s, p), s.starts_with(p));
        assert_eq!(contains(s, p), s.contains(p));
    }
    assert!(contains("XCB connection error", "connection"));
    assert!(contains("aab", "ab"));
    assert!(contains("ab", ""));
    assert!(!contains("a", "ab"));
    assert!(!contains("Connectio n", "Connection"));
}

#[test]
fn white_space_is_that_of_unicode() {
    for code in 0..=0x10ffffu32 {
        if let Some(c) = char::from_u32(code) {
            assert_eq!(is_whitespace(c), c.is_whitespace(), "{code:x}");
        }
    }
}

#[test]
fn nuls_are_trimmed_at_the_end_only() {
    assert_eq!(trim_end_nuls("a\0b\0\0"), "a\0b");
    assert_eq!(trim_end_nuls("\0\0"), "");
    assert_eq!(trim_end_nuls("\0é"), "\0é");
    assert_eq!(trim_end_nuls("é\0 "), "é\0 ");
    assert_eq!(trim_end_nuls(""), "");
}

#[test]
fn lines_are_those_of_std() {
    for s in [
        "",
        "\n",
        "a",
        "a\n",
        "a\r\nb",
        "  a  \n\n \t \n\u{3000}b\u{2003}\r\n",
        "one\rtwo\nthree",
        "x\n\r\n\n y",
    ] {
        let expected: Vec<String> = s
            .lines()
            .map(str::trim)
            .filter(|l| !l.is_empty())
            .map(str::to_string)
            .collect();
        assert_eq!(first_nonblank_lines(s, 100), expected, "{s:?}");
        for limit in 0..4 {
            let some: Vec<String> = expected.iter().take(limit).cloned().collect();
            assert_eq!(first_nonblank_lines(s, limit), some);
        }
    }
}

#[test]
fn numbers_are_decimal() {
    for n in 0..=u8::MAX {
        assert_eq!(numbered(":", n), format!(":{n}"));
    }
}
