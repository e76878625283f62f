//! What becomes of one page request: a page, or a failure with its reason.
//!
//! The request itself is sent elsewhere. This module decides, from what the
//! client reports after each step, how the fetch goes on and how it ends.

use crate::models::{FetchError, PageData};
use crate::page_url::Url;
use crate::text::{decimal, decimal_of, string_of};
use vstd::prelude::*;
use vstd::string::StringExecFns;

verus! {

/// What starts the reason of a response with a status other than success.
pub const STATUS_REASON: &'static str = "HTTP ";

/// What starts the reason of a request that got no response.
pub const NETWORK_REASON: &'static str = "network: ";

/// What starts the reason of a response whose body could not be read.
pub const BODY_REASON: &'static str = "read body: ";

/// What parts the code of a status from its phrase.
pub const STATUS_JOINT: &'static str = " ";

/// The status of a response: its code, and the phrase that says what the
/// code means, such as `Too Many Requests`.
#[derive(Debug, PartialEq, Eq)]
pub struct HttpStatus {
    pub code: u16,
    pub phrase: String,
}

/// How a fetch goes on once the request was sent.
#[derive(Debug, PartialEq, Eq)]
pub enum FetchStep {
    /// The response is a success: its body is to be read.
    ReadBody(Url),
    /// The fetch has failed.
    Failed(FetchError),
}

/// The codes of success are those from 200 to 299.
pub open spec fn success_code(code: u16) -> bool {
    200 <= code <= 299
}

/// The reason made of a label and a detail.
pub open spec fn reason_of(label: Seq<char>, detail: Seq<char>) -> Seq<char> {
    label + detail
}

/// The status as a reason shows it: the code in decimal digits, then the
/// phrase.
pub open spec fn status_text(code: u16, phrase: Seq<char>) -> Seq<char> {
    decimal(code as nat) + STATUS_JOINT@ + phrase
}

/// Whether `code` is a code of success.
pub fn is_success(code: u16) -> (out: bool)
    ensures
        out == success_code(code),
{
    200 <= code && code <= 299
}

/// The failure of the request for `url`, with the reason made of `label`
/// and `detail`.
fn failure(url: Url, label: &str, detail: &str) -> (out: FetchError)
    ensures
        out.url == url,
        out.reason@ == reason_of(label@, detail@),
{
    let mut reason = String::new();
    reason.append(label);
    reason.append(detail);
    assert(reason@ =~= label@ + detail@);
    FetchError { url, reason }
}

/// Decides how the fetch of `url` goes on once the request was sent. `sent`
/// is the status of the response, or what went wrong on the way. A response
/// of success has its body read; any other ends the fetch with the status
/// as the reason, and a request without a response with a network reason.
pub fn after_send(url: Url, sent: Result<HttpStatus, String>) -> (out: FetchStep)
    ensures
        match sent {
            Ok(status) => if success_code(status.code) {
                out == FetchStep::ReadBody(url)
            } else {
                out matches FetchStep::Failed(error) && error.url == url && error.reason@
                    == reason_of(STATUS_REASON@, status_text(status.code, status.phrase@))
            },
            Err(detail) => out matches FetchStep::Failed(error) && error.url == url
                && error.reason@ == reason_of(NETWORK_REASON@, detail@),
        },
{
    match sent {
        Ok(status) => {
            if is_success(status.code) {
                FetchStep::ReadBody(url)
            } else {
                let mut shown = string_of(&decimal_of(status.code as u64));
                shown.append(STATUS_JOINT);
                shown.append(status.phrase.as_str());
                assert(shown@ =~= status_text(status.code, status.phrase@));
                FetchStep::Failed(failure(url, STATUS_REASON, shown.as_str()))
            }
        },
        Err(detail) => FetchStep::Failed(failure(url, NETWORK_REASON, detail.as_str())),
    }
}

/// Ends the fetch of `url` once its body was read. `body` is the text of the
/// body, or what went wrong while reading it.
pub fn after_body(url: Url, body: Result<String, String>) -> (out: Result<PageData, FetchError>)
    ensures
        match body {
            Ok(html) => out == Ok::<PageData, FetchError>(PageData { url, html }),
            Err(detail) => out matches Err(error) && error.url == url && error.reason@
                == reason_of(BODY_REASON@, detail@),
        },
{
    match body {
        Ok(html) => Ok(PageData { url, html }),
        Err(detail) => Err(failure(url, BODY_REASON, detail.as_str())),
    }
}

/// What a whole exchange comes to: `sent` is the status of the response, or
/// what went wrong on the way, and `body` what reading the body gives. The
/// body counts only for a response of success.
pub open spec fn exchange_gives(
    url: Url,
    sent: Result<HttpStatus, String>,
    body: Result<String, String>,
    out: Result<PageData, FetchError>,
) -> bool {
    match sent {
        Err(detail) => out matches Err(error) && error.url == url && error.reason@ == reason_of(
            NETWORK_REASON@,
            detail@,
        ),
        Ok(status) => if !success_code(status.code) {
            out matches Err(error) && error.url == url && error.reason@ == reason_of(
                STATUS_REASON@,
                status_text(status.code, status.phrase@),
            )
        } else {
            match body {
                Ok(html) => out == Ok::<PageData, FetchError>(PageData { url, html }),
                Err(detail) => out matches Err(error) && error.url == url && error.reason@
                    == reason_of(BODY_REASON@, detail@),
            }
        },
    }
}

/// The outcome of the fetch of `url` from a whole exchange: the page, or
/// the failure with its reason. Page and failure carry the URL that was
/// asked for.
pub fn fetch_page(url: Url, sent: Result<HttpStatus, String>, body: Result<String, String>) -> (out:
    Result<PageData, FetchError>)
    ensures
        exchange_gives(url, sent, body, out),
{
    match after_send(url, sent) {
        FetchStep::ReadBody(url) => after_body(url, body),
        FetchStep::Failed(error) => Err(error),
    }
}

} // verus!
