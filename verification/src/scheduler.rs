//! The book of a batch of fetches that run a bounded number at a time.
//!
//! The scheduler hands out the URLs in their order, never more at a time
//! than the limit allows, and takes in what became of each request. The
//! requests themselves run elsewhere; whoever runs them asks for the next
//! URL whenever a request has ended.

use crate::models::{FetchError, PageData};
use crate::page_url::Url;
use vstd::prelude::*;

verus! {

/// What became of one request.
#[derive(Debug, PartialEq, Eq)]
pub enum TaskOutcome {
    /// The page was fetched.
    Fetched(PageData),
    /// The fetch failed.
    Failed(FetchError),
    /// The task that ran the fetch broke down before it had an answer.
    Fault,
}

/// The state of a batch.
pub struct FetchScheduler {
    urls: Vec<Url>,
    limit: usize,
    started: usize,
    in_flight: usize,
    pages: Vec<PageData>,
    failures: Vec<FetchError>,
    faults: usize,
}

/// What a scheduler stands for.
pub struct SchedulerView {
    /// The URLs of the batch, in the order they are handed out.
    pub urls: Seq<Url>,
    /// How many requests may run at a time.
    pub limit: nat,
    /// How many URLs have been handed out.
    pub started: nat,
    /// How many requests are running.
    pub in_flight: nat,
    /// The pages fetched so far, in the order they arrived.
    pub pages: Seq<PageData>,
    /// The failures so far, in the order they arrived.
    pub failures: Seq<FetchError>,
    /// How many tasks broke down.
    pub faults: nat,
}

impl View for FetchScheduler {
    type V = SchedulerView;

    closed spec fn view(&self) -> SchedulerView {
        SchedulerView {
            urls: self.urls@,
            limit: self.limit as nat,
            started: self.started as nat,
            in_flight: self.in_flight as nat,
            pages: self.pages@,
            failures: self.failures@,
            faults: self.faults as nat,
        }
    }
}

/// The batch is in order: no more requests run than the limit allows, and
/// every URL handed out is either running or has had exactly one outcome.
pub open spec fn in_order(s: SchedulerView) -> bool {
    &&& s.limit >= 1
    &&& s.in_flight <= s.limit
    &&& s.started <= s.urls.len()
    &&& s.pages.len() + s.failures.len() + s.faults + s.in_flight == s.started
}

/// Every URL of the batch was handed out and no request is running.
pub open spec fn finished(s: SchedulerView) -> bool {
    s.started == s.urls.len() && s.in_flight == 0
}

/// A request may be started: one more may run, and a URL is left.
pub open spec fn may_start(s: SchedulerView) -> bool {
    s.in_flight < s.limit && s.started < s.urls.len()
}

/// The state after the next URL was handed out.
pub open spec fn after_start(s: SchedulerView) -> SchedulerView {
    SchedulerView { started: s.started + 1, in_flight: (s.in_flight + 1) as nat, ..s }
}

/// The state after a request has ended with `outcome`.
pub open spec fn after_outcome(s: SchedulerView, outcome: TaskOutcome) -> SchedulerView {
    let running = (s.in_flight - 1) as nat;
    match outcome {
        TaskOutcome::Fetched(page) => SchedulerView {
            pages: s.pages.push(page),
            in_flight: running,
            ..s
        },
        TaskOutcome::Failed(error) => SchedulerView {
            failures: s.failures.push(error),
            in_flight: running,
            ..s
        },
        TaskOutcome::Fault => SchedulerView { faults: s.faults + 1, in_flight: running, ..s },
    }
}

impl FetchScheduler {
    /// The scheduler's state is in order.
    pub open spec fn wf(&self) -> bool {
        in_order(self@)
    }

    /// A batch of `urls` of which at most `concurrency` are fetched at a
    /// time.
    pub fn new(urls: Vec<Url>, concurrency: usize) -> (out: Self)
        requires
            concurrency >= 1,
        ensures
            out.wf(),
            out@ == (SchedulerView {
                urls: urls@,
                limit: concurrency as nat,
                started: 0,
                in_flight: 0,
                pages: Seq::empty(),
                failures: Seq::empty(),
                faults: 0,
            }),
    {
        FetchScheduler {
            urls,
            limit: concurrency,
            started: 0,
            in_flight: 0,
            pages: Vec::new(),
            failures: Vec::new(),
            faults: 0,
        }
    }

    /// Hands out the next URL to fetch, if a request may be started: `None`
    /// while as many requests run as the limit allows, and once every URL
    /// was handed out.
    pub fn next_request(&mut self) -> (out: Option<Url>)
        requires
            old(self).wf(),
        ensures
            final(self).wf(),
            may_start(old(self)@) ==> out == Some(old(self)@.urls[old(self)@.started as int])
                && final(self)@ == after_start(old(self)@),
            !may_start(old(self)@) ==> out is None && final(self)@ == old(self)@,
    {
        if self.in_flight < self.limit && self.started < self.urls.len() {
            let url = self.urls[self.started].clone();
            self.started = self.started + 1;
            self.in_flight = self.in_flight + 1;
            Some(url)
        } else {
            None
        }
    }

    /// Takes in what became of one running request, and says whether it
    /// did: while no request is running there is none to end, and the
    /// outcome is turned away.
    pub fn record(&mut self, outcome: TaskOutcome) -> (taken: bool)
        requires
            old(self).wf(),
        ensures
            final(self).wf(),
            taken == (old(self)@.in_flight >= 1),
            taken ==> final(self)@ == after_outcome(old(self)@, outcome),
            !taken ==> final(self)@ == old(self)@,
    {
        if self.in_flight == 0 {
            return false;
        }
        self.in_flight = self.in_flight - 1;
        match outcome {
            TaskOutcome::Fetched(page) => {
                self.pages.push(page);
            },
            TaskOutcome::Failed(error) => {
                self.failures.push(error);
            },
            TaskOutcome::Fault => {
                self.faults = self.faults + 1;
            },
        }
        true
    }

    /// How many requests are running.
    pub fn in_flight(&self) -> (out: usize)
        ensures
            out == self@.in_flight,
    {
        self.in_flight
    }

    /// How many tasks broke down.
    pub fn faults(&self) -> (out: usize)
        ensures
            out == self@.faults,
    {
        self.faults
    }

    /// How many requests have ended, in whatever way.
    pub fn completed(&self) -> (out: usize)
        requires
            self.wf(),
        ensures
            out == self@.pages.len() + self@.failures.len() + self@.faults,
            out + self@.in_flight == self@.started,
    {
        self.started - self.in_flight
    }

    /// Whether the batch is done: every URL was handed out and no request
    /// is running. Every URL has then had exactly one outcome.
    pub fn is_finished(&self) -> (out: bool)
        requires
            self.wf(),
        ensures
            out == finished(self@),
            out ==> self@.pages.len() + self@.failures.len() + self@.faults == self@.urls.len(),
    {
        self.started == self.urls.len() && self.in_flight == 0
    }

    /// The pages and the failures of the batch, each in the order they
    /// arrived.
    pub fn into_results(self) -> (out: (Vec<PageData>, Vec<FetchError>))
        ensures
            out.0@ == self@.pages,
            out.1@ == self@.failures,
    {
        (self.pages, self.failures)
    }
}

/// The pages among the outcomes, in their order.
pub open spec fn fetched_of(outcomes: Seq<TaskOutcome>) -> Seq<PageData>
    decreases outcomes.len(),
{
    if outcomes.len() == 0 {
        Seq::empty()
    } else {
        let before = fetched_of(outcomes.drop_last());
        match outcomes.last() {
            TaskOutcome::Fetched(page) => before.push(page),
            _ => before,
        }
    }
}

/// The failures among the outcomes, in their order.
pub open spec fn failed_of(outcomes: Seq<TaskOutcome>) -> Seq<FetchError>
    decreases outcomes.len(),
{
    if outcomes.len() == 0 {
        Seq::empty()
    } else {
        let before = failed_of(outcomes.drop_last());
        match outcomes.last() {
            TaskOutcome::Failed(error) => before.push(error),
            _ => before,
        }
    }
}

/// How many of the outcomes are faults.
pub open spec fn faults_of(outcomes: Seq<TaskOutcome>) -> nat
    decreases outcomes.len(),
{
    if outcomes.len() == 0 {
        0
    } else {
        faults_of(outcomes.drop_last()) + if outcomes.last() is Fault {
            1nat
        } else {
            0nat
        }
    }
}

/// The state after the requests have ended with `outcomes`, one after the
/// other.
pub open spec fn after_outcomes(s: SchedulerView, outcomes: Seq<TaskOutcome>) -> SchedulerView
    decreases outcomes.len(),
{
    if outcomes.len() == 0 {
        s
    } else {
        after_outcome(after_outcomes(s, outcomes.drop_last()), outcomes.last())
    }
}

/// Failures stay apart from the pages: of the outcomes of a batch the pages
/// are exactly the fetched ones and the failures exactly the failed ones,
/// each in the order of arrival, and every outcome is counted once. No
/// failure and no fault changes the pages, nor a page the failures.
pub proof fn lemma_outcomes_stay_apart(s: SchedulerView, outcomes: Seq<TaskOutcome>)
    ensures
        after_outcomes(s, outcomes).pages == s.pages + fetched_of(outcomes),
        after_outcomes(s, outcomes).failures == s.failures + failed_of(outcomes),
        after_outcomes(s, outcomes).faults == s.faults + faults_of(outcomes),
        after_outcomes(s, outcomes).urls == s.urls,
        fetched_of(outcomes).len() + failed_of(outcomes).len() + faults_of(outcomes)
            == outcomes.len(),
    decreases outcomes.len(),
{
    if outcomes.len() == 0 {
        assert(s.pages + fetched_of(outcomes) =~= s.pages);
        assert(s.failures + failed_of(outcomes) =~= s.failures);
    } else {
        let before = outcomes.drop_last();
        lemma_outcomes_stay_apart(s, before);
        let earlier = after_outcomes(s, before);
        match outcomes.last() {
            TaskOutcome::Fetched(page) => {
                assert(earlier.pages.push(page) =~= s.pages + fetched_of(before).push(page));
            },
            TaskOutcome::Failed(error) => {
                assert(earlier.failures.push(error) =~= s.failures + failed_of(before).push(
                    error,
                ));
            },
            TaskOutcome::Fault => {},
        }
    }
}

} // verus!
