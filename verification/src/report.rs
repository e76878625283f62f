//! What a run tells of its progress and of the pages it could not fetch.

use crate::models::FetchError;
use crate::page_url::Url;
use crate::fetch::{reason_of, status_text, STATUS_REASON};
use crate::text::{chars_of, contains, decimal, occurs_at, occurs_in, string_of};
use vstd::prelude::*;
use vstd::string::StringExecFns;

verus! {

/// The status code of a rate-limited request, as it shows in a reason.
pub const RATE_LIMIT_CODE: &'static str = "429";

/// The status text of a rate-limited request.
pub const RATE_LIMIT_TEXT: &'static str = "Too Many Requests";

/// What starts the message on a page that has arrived.
pub const PROGRESS_LABEL: &'static str = "Downloading ";

/// What stands for the rest of a URL that was cut.
pub const ELLIPSIS: &'static str = "...";

/// What starts the line on a failure.
pub const FAILURE_MARK: &'static str = "   - ";

/// What parts URL and reason in the line on a failure.
pub const FAILURE_JOINT: &'static str = ": ";

/// The longest URL that a message shows whole.
pub const SHOWN_WHOLE: usize = 80;

/// How much a message shows of a longer URL.
pub const SHOWN_CUT: usize = 77;

/// The message on a page that has arrived: its URL, cut to its first 77
/// characters and an ellipsis where it is longer than 80.
pub open spec fn progress_text(url: Seq<char>) -> Seq<char> {
    if url.len() > SHOWN_WHOLE {
        PROGRESS_LABEL@ + url.take(SHOWN_CUT as int) + ELLIPSIS@
    } else {
        PROGRESS_LABEL@ + url
    }
}

/// The message on the page of `url`, which has arrived.
pub fn progress_message(url: &Url) -> (out: String)
    ensures
        out@ == progress_text(url@.text),
{
    let text = chars_of(url.as_str());
    let mut out = String::new();
    out.append(PROGRESS_LABEL);
    if text.len() > SHOWN_WHOLE {
        let mut shown: Vec<char> = Vec::new();
        let mut i: usize = 0;
        while i < SHOWN_CUT
            invariant
                i <= SHOWN_CUT,
                SHOWN_CUT < text.len(),
                shown@ == text@.take(i as int),
            decreases SHOWN_CUT - i,
        {
            shown.push(text[i]);
            assert(text@.take(i + 1) =~= text@.take(i as int).push(text@[i as int]));
            i += 1;
        }
        let shown = string_of(&shown);
        out.append(shown.as_str());
        out.append(ELLIPSIS);
        assert(out@ =~= PROGRESS_LABEL@ + text@.take(SHOWN_CUT as int) + ELLIPSIS@);
    } else {
        out.append(url.as_str());
        assert(out@ =~= PROGRESS_LABEL@ + text@);
    }
    out
}

/// The line on a failure: the URL and the reason.
pub open spec fn failure_text(url: Seq<char>, reason: Seq<char>) -> Seq<char> {
    FAILURE_MARK@ + url + FAILURE_JOINT@ + reason
}

/// The line that tells of `error`.
pub fn failure_line(error: &FetchError) -> (out: String)
    ensures
        out@ == failure_text(error.url@.text, error.reason@),
{
    let mut out = String::new();
    out.append(FAILURE_MARK);
    out.append(error.url.as_str());
    out.append(FAILURE_JOINT);
    out.append(error.reason.as_str());
    assert(out@ =~= FAILURE_MARK@ + error.url@.text + FAILURE_JOINT@ + error.reason@);
    out
}

/// The reason tells of a rate limit: it holds the code 429 or the words
/// `Too Many Requests`.
pub open spec fn tells_rate_limit(reason: Seq<char>) -> bool {
    occurs_in(reason, RATE_LIMIT_CODE@) || occurs_in(reason, RATE_LIMIT_TEXT@)
}

/// Whether one of the failures tells of a rate limit, so that the run can
/// advise to fetch fewer pages at a time.
pub fn is_rate_limited(errors: &[FetchError]) -> (out: bool)
    ensures
        out == exists|i: int|
            0 <= i < errors.len() && tells_rate_limit(#[trigger] errors[i].reason@),
{
    let mut i: usize = 0;
    while i < errors.len()
        invariant
            i <= errors.len(),
            forall|k: int| 0 <= k < i ==> !tells_rate_limit(#[trigger] errors[k].reason@),
        decreases errors.len() - i,
    {
        let reason = errors[i].reason.as_str();
        if contains(reason, RATE_LIMIT_CODE) || contains(reason, RATE_LIMIT_TEXT) {
            return true;
        }
        i += 1;
    }
    false
}

/// A request that was answered with the status 429 is told as a rate limit,
/// whatever phrase came with the code: the reason of its failure holds the
/// code.
pub proof fn lemma_rate_limit_is_told(phrase: Seq<char>)
    ensures
        tells_rate_limit(reason_of(STATUS_REASON@, status_text(429, phrase))),
{
    reveal_strlit("429");
    let code = "429"@;
    let reason = reason_of(STATUS_REASON@, status_text(429, phrase));
    let at = STATUS_REASON@.len() as int;
    assert(decimal(429) =~= code) by {
        reveal_with_fuel(decimal, 3);
        assert(decimal(4) =~= seq!['4']);
        assert(decimal(42) =~= seq!['4', '2']);
        assert(decimal(429) =~= seq!['4', '2', '9']);
    }
    assert(reason.subrange(at, at + code.len()) =~= code);
    assert(occurs_at(reason, RATE_LIMIT_CODE@, at));
}

} // verus!
