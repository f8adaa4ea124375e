use mslx::exam_code_label;
use mslx::extract_exam_uid;
use mslx::images::ext_from_url;
use mslx::images::is_svg_url;
use mslx::text::alnum;
use mslx::text::capitalise;
use mslx::text::chars_of;
use mslx::text::decimal_text;
use mslx::text::digit;
use mslx::text::join_texts;
use mslx::text::lines_of;
use mslx::text::padded_decimal;
use mslx::text::replace_all;
use mslx::text::space;
use mslx::text::split_char;
use mslx::text::text_of;
use mslx::text::trimmed;
use mslx::text::trimmed_end_text;

#[test]
fn character_classes() {
    for n in 0..=0x10ffffu32 {
        if let Some(c) = char::from_u32(n) {
            assert_eq!(space(c), c.is_whitespace(), "{n:x}");
            assert_eq!(digit(c), c.is_ascii_digit(), "{n:x}");
            assert_eq!(alnum(c), c.is_ascii_alphanumeric(), "{n:x}");
        }
    }
}

#[test]
fn lines_as_the_standard_library_splits_them() {
    for s in ["", "a", "a\n", "a\nb", "a\r\nb\r\n", "\n\n", "a\rb\n", "\r\n", "a\n\r", "a\r\r\n"] {
        let expected: Vec<String> = s.lines().map(|l| l.to_string()).collect();
        assert_eq!(lines_of(&chars_of(s)), expected, "{s:?}");
    }
}

#[test]
fn splitting_and_joining() {
    for s in ["", "a", "a/b", "/a/", "//"] {
        let expected: Vec<String> = s.split('/').map(|p| p.to_string()).collect();
        let parts = split_char(&chars_of(s), '/');
        assert_eq!(parts, expected, "{s:?}");
        assert_eq!(join_texts(&parts, "/"), s);
    }
}

#[test]
fn replacing() {
    for (s, a, b) in [("aaa", "aa", "b"), ("abcabc", "bc", ""), ("x", "y", "z"), ("--", "-", "--")] {
        assert_eq!(replace_all(&chars_of(s), a, b), s.replace(a, b));
    }
}

#[test]
fn trimming() {
    for s in ["  a b \n", "\u{a0}x\u{3000}", "", " \t", "a"] {
        assert_eq!(text_of(trimmed(&chars_of(s))), s.trim());
    }
    for s in ["a.md", "a.md.md", ".md", "md", ""] {
        assert_eq!(text_of(trimmed_end_text(&chars_of(s), ".md")), s.trim_end_matches(".md"));
    }
}

#[test]
fn numbers() {
    assert_eq!(decimal_text(0), "0");
    assert_eq!(decimal_text(u64::MAX), u64::MAX.to_string());
    assert_eq!(padded_decimal(7, 4), "0007");
    assert_eq!(padded_decimal(12345, 4), "12345");
}

#[test]
fn letter_case_follows_unicode() {
    assert_eq!(capitalise(&chars_of("\u{e9}tude")), "\u{c9}tude");
    assert_eq!(exam_code_label("exam.stra\u{df}e"), "STRASSE");
    assert_eq!(extract_exam_uid("x EXAM.AZ-700 y").unwrap(), "exam.az-700");
    assert!(is_svg_url("https://x/Badge.SVG?v=1"));
    assert_eq!(ext_from_url("https://x/Photo.JPG"), "jpg");
}
