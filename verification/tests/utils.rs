use web2md::page_url::Url;
use web2md::text::trim_slashes;
use web2md::utils::{filename_stem, gen_filename, with_extension};

fn url(text: &str) -> Url {
    Url::parse(text).unwrap()
}

#[test]
fn the_stem_is_host_and_path() {
    assert_eq!(filename_stem(&url("https://example.com/docs/intro/")), "example.com_docs/intro");
    assert_eq!(filename_stem(&url("https://example.com/")), "example.com");
    assert_eq!(filename_stem(&url("https://example.com")), "example.com");
    assert_eq!(filename_stem(&url("https://example.com/a/b?x=1#y")), "example.com_a/b");
    assert_eq!(filename_stem(&url("https://example.com//")), "example.com");
}

#[test]
fn a_url_without_host_is_named_output() {
    assert_eq!(filename_stem(&url("file:///tmp/x.html")), "output_tmp/x.html");
    assert_eq!(filename_stem(&url("data:text/plain,hello")), "output_text/plain,hello");
}

#[test]
fn the_extension_follows_the_name() {
    assert_eq!(with_extension("example.com"), "example.com.md");
    assert_eq!(with_extension(""), ".md");
}

#[test]
fn the_file_name_is_sanitized() {
    for windows in [false, true] {
        assert_eq!(gen_filename(&url("https://example.com/docs/intro/"), windows), "example.com_docsintro.md");
        assert_eq!(gen_filename(&url("https://example.com/"), windows), "example.com.md");
        assert_eq!(gen_filename(&url("https://example.com/a:b*c"), windows), "example.com_abc.md");
        assert_eq!(gen_filename(&url("file:///tmp/x.html"), windows), "output_tmpx.html.md");
    }
}

#[test]
fn the_file_name_is_that_of_the_sanitizer() {
    for address in ["https://example.com/docs/intro/", "https://con/", "https://example.com/a./", "https://nul/x?y"] {
        for windows in [false, true] {
            let first = url(address);
            let stem = filename_stem(&first);
            let options = sanitize_filename::Options { windows, truncate: true, replacement: "" };
            let expected = sanitize_filename::sanitize_with_options(&stem, options);
            assert_eq!(gen_filename(&first, windows), format!("{expected}.md"));
        }
    }
}

#[test]
fn windows_has_rules_of_its_own() {
    assert_eq!(gen_filename(&url("https://con/"), false), "con.md");
    assert_eq!(gen_filename(&url("https://con/"), true), ".md");
    assert_eq!(gen_filename(&url("https://example.com/a./"), false), "example.com_a..md");
    assert_eq!(gen_filename(&url("https://example.com/a./"), true), "example.com_a.md");
}

#[test]
fn a_long_name_is_cut() {
    let long = format!("https://example.com/{}", "a".repeat(400));
    let name = gen_filename(&url(&long), false);
    assert_eq!(name.len(), 255 + 3);
    assert!(name.starts_with("example.com_aaaa"));
    assert!(name.ends_with("a.md"));
}

#[test]
fn slashes_are_trimmed_as_strings_trim_them() {
    for text in ["", "/", "//", "/a", "a/", "/a/b/", "//a//b//", "a"] {
        let chars: Vec<char> = text.chars().collect();
        let trimmed: String = trim_slashes(&chars).into_iter().collect();
        assert_eq!(trimmed, text.trim_matches('/'), "{text:?}");
    }
}
