use web2md::page_url::Url;
use web2md::prefix::{find_best_prefix, prefixes_of, threshold_of};

fn url(text: &str) -> Url {
    Url::parse(text).unwrap()
}

fn strings(rows: Vec<Vec<char>>) -> Vec<String> {
    rows.into_iter().map(|row| row.into_iter().collect()).collect()
}

#[test]
fn prefixes_of_a_path() {
    assert_eq!(strings(prefixes_of("/docs/api/v2")), vec!["/docs/", "/docs/api/", "/docs/api/v2/"]);
    assert_eq!(strings(prefixes_of("/docs/")), vec!["/docs/"]);
    assert_eq!(strings(prefixes_of("/docs")), vec!["/docs/"]);
    assert_eq!(strings(prefixes_of("/")), Vec::<String>::new());
    assert_eq!(strings(prefixes_of("")), Vec::<String>::new());
    assert_eq!(strings(prefixes_of("//a///b")), vec!["/a/", "/a/b/"]);
    assert_eq!(strings(prefixes_of("a/b")), vec!["/a/", "/a/b/"]);
}

#[test]
fn threshold_is_seven_tenths_rounded_up_and_at_least_two() {
    assert_eq!(threshold_of(0), 2);
    assert_eq!(threshold_of(1), 2);
    assert_eq!(threshold_of(2), 2);
    assert_eq!(threshold_of(3), 3);
    assert_eq!(threshold_of(4), 3);
    assert_eq!(threshold_of(5), 4);
    assert_eq!(threshold_of(10), 7);
    assert_eq!(threshold_of(11), 8);
    assert_eq!(threshold_of(20), 14);
    assert_eq!(threshold_of(1000), 700);
    assert_eq!(threshold_of(1001), 701);
}

#[test]
fn threshold_agrees_with_the_rounded_product() {
    let mut n: usize = 0;
    while n < 100_000 {
        let expected = ((n as f64 * 0.7).ceil() as usize).max(2);
        assert_eq!(threshold_of(n), expected, "{n}");
        n += 1;
    }
}

#[test]
fn best_prefix_needs_seven_of_ten() {
    let mut urls: Vec<Url> = Vec::new();
    for i in 0..7 {
        urls.push(url(&format!("https://example.com/docs/page{i}")));
    }
    for i in 0..3 {
        urls.push(url(&format!("https://example.com/blog/post{i}")));
    }
    assert_eq!(find_best_prefix(&urls), Some("/docs/".to_string()));
}

#[test]
fn no_best_prefix_below_the_threshold() {
    let mut urls: Vec<Url> = Vec::new();
    for i in 0..5 {
        urls.push(url(&format!("https://example.com/docs/page{i}")));
    }
    for i in 0..5 {
        urls.push(url(&format!("https://example.com/blog{i}/post")));
    }
    assert_eq!(find_best_prefix(&urls), None);
}

#[test]
fn no_best_prefix_without_urls() {
    assert_eq!(find_best_prefix(&[]), None);
    assert_eq!(find_best_prefix(&[url("https://example.com/")]), None);
    assert_eq!(find_best_prefix(&[url("https://example.com/docs/a")]), None);
}

#[test]
fn two_pages_of_one_section_are_enough() {
    let urls = vec![url("https://example.com/docs/a"), url("https://example.com/docs/b")];
    assert_eq!(find_best_prefix(&urls), Some("/docs/".to_string()));
}

#[test]
fn the_more_frequent_prefix_wins() {
    let urls = vec![
        url("https://example.com/docs/api/a"),
        url("https://example.com/docs/api/b"),
        url("https://example.com/docs/api/c"),
        url("https://example.com/docs/guide"),
    ];
    assert_eq!(find_best_prefix(&urls), Some("/docs/".to_string()));
}

#[test]
fn among_equally_frequent_prefixes_the_first_in_order_wins() {
    let urls = vec![
        url("https://example.com/docs/api/a"),
        url("https://example.com/docs/api/b"),
        url("https://example.com/docs/api/c"),
    ];
    assert_eq!(find_best_prefix(&urls), Some("/docs/".to_string()));
    let same_page_twice = vec![url("https://example.com/b/a/x"), url("https://example.com/b/a/x")];
    assert_eq!(find_best_prefix(&same_page_twice), Some("/b/".to_string()));
}
