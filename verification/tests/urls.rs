use web2md::page_url::Url;

#[test]
fn parse_drops_the_fragment() {
    let url = Url::parse("https://example.com/docs/intro#setup").unwrap();
    assert_eq!(url.as_str(), "https://example.com/docs/intro");
    assert_eq!(url.host_str(), Some("example.com"));
    assert_eq!(url.path(), "/docs/intro");
}

#[test]
fn parse_refuses_a_relative_reference() {
    assert!(Url::parse("docs/intro").is_none());
}

#[test]
fn join_resolves_against_the_base() {
    let base = Url::parse("https://example.com/docs/intro").unwrap();
    let joined = base.join("../api/v2?x=1#top").unwrap();
    assert_eq!(joined.as_str(), "https://example.com/api/v2?x=1");
    assert_eq!(joined.path(), "/api/v2");
    assert!(joined.same_host(&base));
    assert!(!joined.same_as(&base));
}

#[test]
fn parse_normalizes_the_text() {
    let url = Url::parse("HTTPS://Example.COM:443/a/./b/../c d?q=1 2#frag ment").unwrap();
    assert_eq!(url.as_str(), "https://example.com/a/c%20d?q=1%202");
    assert_eq!(url.host_str(), Some("example.com"));
    assert_eq!(url.path(), "/a/c%20d");
    let bare = Url::parse("https://example.com").unwrap();
    assert_eq!(bare.as_str(), "https://example.com/");
    assert_eq!(bare.path(), "/");
}

#[test]
fn a_url_without_host_has_none() {
    let url = Url::parse("mailto:someone@example.com").unwrap();
    assert_eq!(url.host_str(), None);
    assert_eq!(url.path(), "someone@example.com");
    let file = Url::parse("file:///tmp/page.html#top").unwrap();
    assert_eq!(file.as_str(), "file:///tmp/page.html");
    assert_eq!(file.host_str(), None);
}

#[test]
fn join_drops_the_fragment_and_refuses_nothing_relative() {
    let base = Url::parse("https://example.com/docs/intro?lang=en").unwrap();
    assert_eq!(base.join("#only").unwrap().as_str(), "https://example.com/docs/intro?lang=en");
    assert_eq!(base.join("").unwrap().as_str(), "https://example.com/docs/intro?lang=en");
    assert_eq!(base.join("//other.example/x#y").unwrap().as_str(), "https://other.example/x");
    assert_eq!(base.join("?page=2").unwrap().as_str(), "https://example.com/docs/intro?page=2");
    assert!(base.join("https://[bad").is_none());
    let opaque = Url::parse("mailto:someone@example.com").unwrap();
    assert!(opaque.join("relative").is_none());
}

#[test]
fn equal_texts_make_the_same_url() {
    let one = Url::parse("https://example.com/a#x").unwrap();
    let other = Url::parse("https://EXAMPLE.com/a#y").unwrap();
    assert!(one.same_as(&other));
    assert_eq!(one, other);
    assert_eq!(one.clone(), one);
}
