use web2md::fetch::{after_body, after_send, fetch_page, is_success, FetchStep, HttpStatus};
use web2md::models::{FetchError, PageData};
use web2md::page_url::Url;

fn url(text: &str) -> Url {
    Url::parse(text).unwrap()
}

fn status(code: u16, phrase: &str) -> HttpStatus {
    HttpStatus { code, phrase: phrase.to_string() }
}

fn failure(address: &str, reason: &str) -> FetchError {
    FetchError { url: url(address), reason: reason.to_string() }
}

#[test]
fn the_codes_of_success() {
    assert!(!is_success(0));
    assert!(!is_success(199));
    assert!(is_success(200));
    assert!(is_success(204));
    assert!(is_success(299));
    assert!(!is_success(300));
    assert!(!is_success(404));
    assert!(!is_success(429));
    assert!(!is_success(u16::MAX));
}

#[test]
fn a_success_has_its_body_read() {
    let step = after_send(url("https://e.com/a"), Ok(status(200, "OK")));
    assert_eq!(step, FetchStep::ReadBody(url("https://e.com/a")));
}

#[test]
fn another_status_ends_the_fetch() {
    let step = after_send(url("https://e.com/a"), Ok(status(429, "Too Many Requests")));
    assert_eq!(step, FetchStep::Failed(failure("https://e.com/a", "HTTP 429 Too Many Requests")));
    let step = after_send(url("https://e.com/a"), Ok(status(301, "Moved Permanently")));
    assert_eq!(step, FetchStep::Failed(failure("https://e.com/a", "HTTP 301 Moved Permanently")));
}

#[test]
fn a_request_without_response_ends_the_fetch() {
    let step = after_send(url("https://e.com/a"), Err("connection refused".to_string()));
    assert_eq!(step, FetchStep::Failed(failure("https://e.com/a", "network: connection refused")));
}

#[test]
fn a_body_makes_the_page() {
    let made = after_body(url("https://e.com/a"), Ok("<p>hi</p>".to_string()));
    assert_eq!(made, Ok(PageData { url: url("https://e.com/a"), html: "<p>hi</p>".to_string() }));
    let made = after_body(url("https://e.com/a"), Ok(String::new()));
    assert_eq!(made, Ok(PageData { url: url("https://e.com/a"), html: String::new() }));
}

#[test]
fn an_unreadable_body_ends_the_fetch() {
    let made = after_body(url("https://e.com/a"), Err("error decoding response body".to_string()));
    assert_eq!(made, Err(failure("https://e.com/a", "read body: error decoding response body")));
}

#[test]
fn a_whole_exchange_gives_page_or_failure() {
    let address = "https://e.com/a";
    let body = || Ok::<String, String>("<p>hi</p>".to_string());
    assert_eq!(
        fetch_page(url(address), Ok(status(200, "OK")), body()),
        Ok(PageData { url: url(address), html: "<p>hi</p>".to_string() })
    );
    assert_eq!(
        fetch_page(url(address), Ok(status(404, "Not Found")), body()),
        Err(failure(address, "HTTP 404 Not Found"))
    );
    assert_eq!(
        fetch_page(url(address), Err("dns error".to_string()), body()),
        Err(failure(address, "network: dns error"))
    );
    assert_eq!(
        fetch_page(url(address), Ok(status(200, "OK")), Err("reset".to_string())),
        Err(failure(address, "read body: reset"))
    );
    assert_eq!(
        fetch_page(url(address), Ok(status(500, "Internal Server Error")), Err("reset".to_string())),
        Err(failure(address, "HTTP 500 Internal Server Error"))
    );
}

#[test]
fn the_reason_shows_the_code_in_digits() {
    let told = |code: u16, phrase: &str| match after_send(url("https://e.com/a"), Ok(status(code, phrase))) {
        FetchStep::Failed(error) => error.reason,
        FetchStep::ReadBody(_) => String::from("read"),
    };
    assert_eq!(told(429, ""), "HTTP 429 ");
    assert_eq!(told(0, "x"), "HTTP 0 x");
    assert_eq!(told(7, "x"), "HTTP 7 x");
    assert_eq!(told(100, "Continue"), "HTTP 100 Continue");
    assert_eq!(told(199, "x"), "HTTP 199 x");
    assert_eq!(told(300, "Multiple Choices"), "HTTP 300 Multiple Choices");
    assert_eq!(told(999, "<unknown status code>"), "HTTP 999 <unknown status code>");
    assert_eq!(told(65535, "x"), "HTTP 65535 x");
    assert_eq!(told(250, "x"), "read");
}
