use web2md::text::{blank, chars_of, contains, is_whitespace, less, same, starts_with, string_of};

fn chars(s: &str) -> Vec<char> {
    s.chars().collect()
}

#[test]
fn chars_and_strings_convert_both_ways() {
    let text = "naïve – ☃ text";
    assert_eq!(chars_of(text), chars(text));
    assert_eq!(string_of(&chars(text)), text);
    assert_eq!(chars_of(""), Vec::<char>::new());
}

#[test]
fn whitespace_is_that_of_the_standard_library() {
    let mut code: u32 = 0;
    while code <= 0x10ffff {
        if let Some(c) = char::from_u32(code) {
            assert_eq!(is_whitespace(c), c.is_whitespace(), "U+{code:04X}");
        }
        code += 1;
    }
}

#[test]
fn blank_texts() {
    assert!(blank(""));
    assert!(blank(" \t\r\n\u{a0}\u{3000}"));
    assert!(!blank("  x  "));
    assert!(!blank("\u{200b}"));
}

#[test]
fn less_is_the_order_of_strings() {
    let samples = [
        "", "a", "ab", "abc", "abd", "b", "B", "/docs/", "/docs/api/", "/aa/", "/b/", "é", "z",
        "https://example.com/a", "https://example.com/a/b", "https://example.com/a?x",
        "\u{10000}", "\u{ffff}",
    ];
    for a in samples {
        for b in samples {
            assert_eq!(less(&chars(a), &chars(b)), a < b, "{a:?} < {b:?}");
            assert_eq!(same(&chars(a), &chars(b)), a == b, "{a:?} == {b:?}");
        }
    }
}

#[test]
fn starts_with_is_that_of_strings() {
    let samples = ["", "/", "/docs", "/docs/", "/docs/api", "/doc", "/other/docs/"];
    for a in samples {
        for b in samples {
            assert_eq!(starts_with(&chars(a), &chars(b)), a.starts_with(b), "{a:?} {b:?}");
        }
    }
}

#[test]
fn contains_finds_substrings() {
    assert!(contains("HTTP 429 Too Many Requests", "429"));
    assert!(contains("HTTP 429 Too Many Requests", "Too Many Requests"));
    assert!(contains("HTTP 429 Too Many Requests", ""));
    assert!(contains("", ""));
    assert!(contains("abc", "abc"));
    assert!(contains("abc", "c"));
    assert!(!contains("abc", "abcd"));
    assert!(!contains("HTTP 500 Internal Server Error", "429"));
    assert!(!contains("", "a"));
    assert!(!contains("aab", "aba"));
}
