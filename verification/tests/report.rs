use web2md::fetch::{fetch_page, HttpStatus};
use web2md::models::FetchError;
use web2md::page_url::Url;
use web2md::report::{failure_line, is_rate_limited, progress_message};

fn url(text: &str) -> Url {
    Url::parse(text).unwrap()
}

fn failure(address: &str, reason: &str) -> FetchError {
    FetchError { url: url(address), reason: reason.to_string() }
}

#[test]
fn rate_limits_show_in_the_reasons() {
    assert!(!is_rate_limited(&[]));
    assert!(!is_rate_limited(&[
        failure("https://e.com/a", "HTTP 500 Internal Server Error"),
        failure("https://e.com/b", "network: timed out"),
    ]));
    assert!(is_rate_limited(&[
        failure("https://e.com/a", "HTTP 500 Internal Server Error"),
        failure("https://e.com/b", "HTTP 429 Too Many Requests"),
    ]));
    assert!(is_rate_limited(&[failure("https://e.com/a", "HTTP 429")]));
    assert!(is_rate_limited(&[failure("https://e.com/a", "read body: Too Many Requests")]));
    assert!(!is_rate_limited(&[failure("https://e.com/429", "HTTP 404 Not Found")]));
}

#[test]
fn a_short_url_is_shown_whole() {
    assert_eq!(progress_message(&url("https://e.com/a")), "Downloading https://e.com/a");
    let eighty = format!("https://e.com/{}", "a".repeat(66));
    assert_eq!(eighty.len(), 80);
    assert_eq!(progress_message(&url(&eighty)), format!("Downloading {eighty}"));
}

#[test]
fn a_long_url_is_cut() {
    let long = format!("https://e.com/{}", "a".repeat(67));
    assert_eq!(long.len(), 81);
    assert_eq!(progress_message(&url(&long)), format!("Downloading {}...", &long[..77]));
    let longer = format!("https://e.com/{}?q={}", "a".repeat(100), "b".repeat(100));
    assert_eq!(progress_message(&url(&longer)), format!("Downloading {}...", &longer[..77]));
}

#[test]
fn a_failure_is_told_with_url_and_reason() {
    assert_eq!(
        failure_line(&failure("https://e.com/a", "HTTP 404 Not Found")),
        "   - https://e.com/a: HTTP 404 Not Found"
    );
}

#[test]
fn a_status_of_429_is_told_whatever_its_phrase() {
    for phrase in ["Too Many Requests", "", "Slow Down"] {
        let status = HttpStatus { code: 429, phrase: phrase.to_string() };
        let error = fetch_page(url("https://e.com/a"), Ok(status), Err(String::new())).unwrap_err();
        assert!(is_rate_limited(&[error]), "{phrase:?}");
    }
}
