use web2md::fetch::{after_body, after_send, FetchStep, HttpStatus};
use web2md::models::{FetchError, PageData};
use web2md::page_url::Url;
use web2md::processor::sort_pages_by_url_order;
use web2md::render::{prepare_page, render_document, Conversion, RenderMode};
use web2md::scheduler::{FetchScheduler, TaskOutcome};

fn url(text: &str) -> Url {
    Url::parse(text).unwrap()
}

fn fetched(address: &str, html: &str) -> TaskOutcome {
    TaskOutcome::Fetched(PageData { url: url(address), html: html.to_string() })
}

fn failed(address: &str, reason: &str) -> TaskOutcome {
    TaskOutcome::Failed(FetchError { url: url(address), reason: reason.to_string() })
}

#[test]
fn no_more_requests_run_than_the_limit_allows() {
    let urls = vec![url("https://e.com/1"), url("https://e.com/2"), url("https://e.com/3")];
    let mut batch = FetchScheduler::new(urls, 2);
    assert!(!batch.is_finished());
    assert_eq!(batch.next_request(), Some(url("https://e.com/1")));
    assert_eq!(batch.next_request(), Some(url("https://e.com/2")));
    assert_eq!(batch.next_request(), None);
    assert_eq!(batch.in_flight(), 2);
    assert_eq!(batch.completed(), 0);
    assert!(batch.record(fetched("https://e.com/2", "two")));
    assert_eq!(batch.in_flight(), 1);
    assert_eq!(batch.next_request(), Some(url("https://e.com/3")));
    assert_eq!(batch.next_request(), None);
    assert!(!batch.is_finished());
    batch.record(fetched("https://e.com/3", "three"));
    batch.record(fetched("https://e.com/1", "one"));
    assert_eq!(batch.next_request(), None);
    assert!(batch.is_finished());
    assert_eq!(batch.completed(), 3);
    let (pages, failures) = batch.into_results();
    let htmls: Vec<&str> = pages.iter().map(|p| p.html.as_str()).collect();
    assert_eq!(htmls, vec!["two", "three", "one"]);
    assert!(failures.is_empty());
}

#[test]
fn an_empty_batch_is_finished_at_once() {
    let mut batch = FetchScheduler::new(Vec::new(), 4);
    assert!(batch.is_finished());
    assert_eq!(batch.next_request(), None);
    let (pages, failures) = batch.into_results();
    assert!(pages.is_empty());
    assert!(failures.is_empty());
}

#[test]
fn a_fault_is_neither_page_nor_failure() {
    let mut batch = FetchScheduler::new(vec![url("https://e.com/1"), url("https://e.com/2")], 1);
    assert_eq!(batch.next_request(), Some(url("https://e.com/1")));
    assert_eq!(batch.next_request(), None);
    batch.record(TaskOutcome::Fault);
    assert_eq!(batch.faults(), 1);
    assert_eq!(batch.next_request(), Some(url("https://e.com/2")));
    batch.record(failed("https://e.com/2", "network: reset"));
    assert!(batch.is_finished());
    assert_eq!(batch.completed(), 2);
    let (pages, failures) = batch.into_results();
    assert!(pages.is_empty());
    assert_eq!(failures.len(), 1);
}

#[test]
fn one_failure_leaves_the_other_pages_in_their_order() {
    let ok1 = url("https://e.com/ok1");
    let fail1 = url("https://e.com/fail1");
    let ok2 = url("https://e.com/ok2");
    let order = vec![ok1.clone(), fail1.clone(), ok2.clone()];
    let mut batch = FetchScheduler::new(order.clone(), 3);
    let first = batch.next_request().unwrap();
    let second = batch.next_request().unwrap();
    let third = batch.next_request().unwrap();
    assert_eq!((&first, &second, &third), (&ok1, &fail1, &ok2));

    let answer_third = match after_send(third, Ok(HttpStatus { code: 200, phrase: "OK".to_string() })) {
        FetchStep::ReadBody(url) => after_body(url, Ok("<html><body><p>second page</p></body></html>".to_string())),
        FetchStep::Failed(error) => Err(error),
    };
    batch.record(match answer_third {
        Ok(page) => TaskOutcome::Fetched(page),
        Err(error) => TaskOutcome::Failed(error),
    });
    let answer_second = match after_send(second, Ok(HttpStatus { code: 503, phrase: "Service Unavailable".to_string() })) {
        FetchStep::ReadBody(url) => after_body(url, Ok("<p>never read</p>".to_string())),
        FetchStep::Failed(error) => Err(error),
    };
    batch.record(match answer_second {
        Ok(page) => TaskOutcome::Fetched(page),
        Err(error) => TaskOutcome::Failed(error),
    });
    let answer_first = match after_send(first, Ok(HttpStatus { code: 200, phrase: "OK".to_string() })) {
        FetchStep::ReadBody(url) => after_body(url, Ok("<html><body><p>first page</p></body></html>".to_string())),
        FetchStep::Failed(error) => Err(error),
    };
    batch.record(match answer_first {
        Ok(page) => TaskOutcome::Fetched(page),
        Err(error) => TaskOutcome::Failed(error),
    });

    assert!(batch.is_finished());
    let (pages, failures) = batch.into_results();
    assert_eq!(pages.len(), 2);
    assert_eq!(failures.len(), 1);
    assert_eq!(failures[0], FetchError { url: fail1, reason: "HTTP 503 Service Unavailable".to_string() });
    assert_eq!(pages[0].url, ok2);

    let sorted = sort_pages_by_url_order(pages, &order);
    assert_eq!(sorted[0].url, ok1);
    assert_eq!(sorted[1].url, ok2);
    let converted: Vec<Option<String>> = sorted
        .iter()
        .map(|page| match prepare_page(page, RenderMode::BodyOnly) {
            Conversion::Markdown { html } => Some(html2md::parse_html(&html)),
            Conversion::Article { .. } => None,
        })
        .collect();
    let document = render_document(&sorted, &converted, RenderMode::BodyOnly);
    assert_eq!(
        document,
        "--- https://e.com/ok1 ---\n\nfirst page\n\n\n--- https://e.com/ok2 ---\n\nsecond page"
    );
    assert!(!document.contains("fail1"));
    assert!(!document.contains("never read"));
}

#[test]
fn an_outcome_without_a_running_request_is_turned_away() {
    let mut batch = FetchScheduler::new(vec![url("https://e.com/1")], 2);
    assert!(!batch.record(fetched("https://e.com/1", "early")));
    assert_eq!(batch.completed(), 0);
    assert_eq!(batch.next_request(), Some(url("https://e.com/1")));
    assert!(batch.record(fetched("https://e.com/1", "one")));
    assert!(!batch.record(failed("https://e.com/1", "network: again")));
    assert!(!batch.record(TaskOutcome::Fault));
    assert!(batch.is_finished());
    assert_eq!(batch.completed(), 1);
    assert_eq!(batch.faults(), 0);
    let (pages, failures) = batch.into_results();
    assert_eq!(pages, vec![PageData { url: url("https://e.com/1"), html: "one".to_string() }]);
    assert!(failures.is_empty());
}
