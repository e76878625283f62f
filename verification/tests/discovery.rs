use web2md::discovery::{discover_links, extract_and_sort_links, select_links, sort_by_text};
use web2md::fetch::HttpStatus;
use web2md::models::FetchError;
use web2md::page_url::Url;

fn url(text: &str) -> Url {
    Url::parse(text).unwrap()
}

fn texts(urls: &[Url]) -> Vec<String> {
    urls.iter().map(|u| u.as_str().to_string()).collect()
}

fn page(links: &[&str]) -> String {
    let mut html = String::from("<html><head><title>t</title></head><body>");
    for link in links {
        html.push_str(&format!("<p><a href=\"{link}\">link</a></p>"));
    }
    html.push_str("<a>no target</a><a name=\"anchor\">named</a></body></html>");
    html
}

#[test]
fn fragments_do_not_tell_urls_apart() {
    let seed = url("https://example.com/");
    let html = page(&["a#frag1", "a#frag2", "a"]);
    let found = extract_and_sort_links(&seed, &html);
    assert_eq!(texts(&found), vec!["https://example.com/", "https://example.com/a"]);
}

#[test]
fn a_link_to_the_seed_is_not_kept_twice() {
    let seed = url("https://example.com/start");
    let html = page(&["#top", "/start#end", "start", "https://example.com/start"]);
    let found = extract_and_sort_links(&seed, &html);
    assert_eq!(texts(&found), vec!["https://example.com/start"]);
}

#[test]
fn links_to_other_hosts_are_dropped() {
    let seed = url("https://example.com/");
    let html = page(&[
        "/one",
        "https://example.com/two",
        "https://other.example/three",
        "https://sub.example.com/four",
        "http://example.com/five",
        "mailto:someone@example.com",
        "//cdn.example.net/six",
    ]);
    let found = extract_and_sort_links(&seed, &html);
    assert_eq!(
        texts(&found),
        vec![
            "http://example.com/five",
            "https://example.com/",
            "https://example.com/one",
            "https://example.com/two",
        ]
    );
    for found_url in &found {
        assert_eq!(found_url.host_str(), Some("example.com"));
    }
}

#[test]
fn seven_of_ten_links_make_a_section() {
    let seed = url("https://example.com/");
    let html = page(&[
        "/docs/a", "/blog/x", "/docs/b", "/docs/c", "/about", "/docs/d", "/docs/e", "/contact",
        "/docs/f", "/docs/g",
    ]);
    let found = extract_and_sort_links(&seed, &html);
    assert_eq!(
        texts(&found),
        vec![
            "https://example.com/",
            "https://example.com/docs/a",
            "https://example.com/docs/b",
            "https://example.com/docs/c",
            "https://example.com/docs/d",
            "https://example.com/docs/e",
            "https://example.com/docs/f",
            "https://example.com/docs/g",
        ]
    );
}

#[test]
fn five_of_ten_links_make_no_section() {
    let seed = url("https://example.com/");
    let html = page(&[
        "/docs/a", "/docs/b", "/docs/c", "/docs/d", "/docs/e", "/blog/x", "/about", "/contact",
        "/team", "/jobs",
    ]);
    let found = extract_and_sort_links(&seed, &html);
    assert_eq!(
        texts(&found),
        vec![
            "https://example.com/",
            "https://example.com/about",
            "https://example.com/blog/x",
            "https://example.com/contact",
            "https://example.com/docs/a",
            "https://example.com/docs/b",
            "https://example.com/docs/c",
            "https://example.com/docs/d",
            "https://example.com/docs/e",
            "https://example.com/jobs",
            "https://example.com/team",
        ]
    );
}

#[test]
fn a_page_without_links_gives_the_seed_alone() {
    let seed = url("https://example.com/docs/");
    assert_eq!(texts(&extract_and_sort_links(&seed, "")), vec!["https://example.com/docs/"]);
    assert_eq!(
        texts(&extract_and_sort_links(&seed, "<p>no links here</p>")),
        vec!["https://example.com/docs/"]
    );
}

#[test]
fn the_section_page_itself_is_outside_its_prefix() {
    let seed = url("https://example.com/");
    let html = page(&["/docs", "/docs/a", "/docs/b"]);
    let found = extract_and_sort_links(&seed, &html);
    assert_eq!(
        texts(&found),
        vec!["https://example.com/", "https://example.com/docs/a", "https://example.com/docs/b"]
    );
}

#[test]
fn select_links_counts_each_url_once() {
    let seed = url("https://example.com/");
    let candidates = vec![
        url("https://example.com/docs/a"),
        url("https://example.com/docs/a"),
        url("https://example.com/docs/a"),
        url("https://example.com/x"),
        url("https://example.com/y"),
    ];
    let found = select_links(&seed, &candidates);
    assert_eq!(
        texts(&found),
        vec![
            "https://example.com/",
            "https://example.com/docs/a",
            "https://example.com/x",
            "https://example.com/y",
        ]
    );
}

#[test]
fn select_links_keeps_the_seed_of_another_section() {
    let seed = url("https://example.com/start/here");
    let candidates = vec![
        url("https://example.com/docs/a"),
        url("https://example.com/docs/b"),
        url("https://elsewhere.example/docs/c"),
    ];
    let found = select_links(&seed, &candidates);
    assert_eq!(
        texts(&found),
        vec![
            "https://example.com/docs/a",
            "https://example.com/docs/b",
            "https://example.com/start/here",
        ]
    );
}

#[test]
fn sort_by_text_orders_by_the_text() {
    let urls = vec![
        url("https://example.com/b"),
        url("https://example.com/a/z"),
        url("https://example.com/a"),
        url("http://example.com/c"),
        url("https://example.com/B"),
    ];
    let sorted = sort_by_text(urls);
    assert_eq!(
        texts(&sorted),
        vec![
            "http://example.com/c",
            "https://example.com/B",
            "https://example.com/a",
            "https://example.com/a/z",
            "https://example.com/b",
        ]
    );
    assert_eq!(sort_by_text(Vec::new()), Vec::<Url>::new());
}

fn status(code: u16, phrase: &str) -> Result<HttpStatus, String> {
    Ok(HttpStatus { code, phrase: phrase.to_string() })
}

#[test]
fn a_seed_that_is_not_found_ends_discovery() {
    let seed = url("https://example.com/");
    let body = Ok("<a href='/a'>a</a><a href='/b'>b</a>".to_string());
    let found = discover_links(seed.clone(), status(404, "Not Found"), body);
    assert_eq!(found, Err(FetchError { url: seed, reason: "HTTP 404 Not Found".to_string() }));
}

#[test]
fn a_seed_that_cannot_be_reached_or_read_ends_discovery() {
    let seed = url("https://example.com/");
    let found = discover_links(seed.clone(), Err("dns error".to_string()), Ok(String::new()));
    assert_eq!(found, Err(FetchError { url: seed.clone(), reason: "network: dns error".to_string() }));
    let found = discover_links(seed.clone(), status(200, "OK"), Err("reset".to_string()));
    assert_eq!(found, Err(FetchError { url: seed, reason: "read body: reset".to_string() }));
}

#[test]
fn a_seed_that_is_retrieved_gives_its_links() {
    let seed = url("https://example.com/");
    let body = Ok("<a href='/a'>a</a><a href='/b#x'>b</a>".to_string());
    let found = discover_links(seed, status(200, "OK"), body).unwrap();
    assert_eq!(
        texts(&found),
        vec!["https://example.com/", "https://example.com/a", "https://example.com/b"]
    );
}
