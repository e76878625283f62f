//! Absolute, normalized URLs without a fragment, as the pipeline compares,
//! orders and deduplicates them.
//!
//! Parsing and reference resolution are the work of the `url` crate. A
//! [`Url`] of this module keeps what the pipeline reads of the outcome as
//! plain text: the normalized form, the host and the path.

use crate::text::chars_of;
use vstd::prelude::*;

verus! {

/// The normalized form of `reference` resolved against the URL `base` by
/// `url::Url::join`; `None` where `base` is no URL or the reference is
/// refused.
pub uninterp spec fn url_joined(base: Seq<char>, reference: Seq<char>) -> Option<Seq<char>>;

/// The normalized form of the URL that `url::Url::parse` makes of `input`,
/// once `url::Url::set_fragment` has taken its fragment away; `None` where
/// `input` is no absolute URL.
pub uninterp spec fn url_without_fragment(input: Seq<char>) -> Option<Seq<char>>;

/// What `url::Url::host_str` gives for the URL `url`; `None` where `url` is
/// no URL or has no host.
pub uninterp spec fn url_host(url: Seq<char>) -> Option<Seq<char>>;

/// What `url::Url::path` gives for the URL `url`; `None` where `url` is no
/// URL.
pub uninterp spec fn url_path(url: Seq<char>) -> Option<Seq<char>>;

/// Calls `url::Url::join` on the URL that `base` parses to and hands back
/// the normalized form of the resolved URL. The result is a function of
/// `base` and `reference`.
#[verifier::external_body]
fn join_text(base: &str, reference: &str) -> (out: Option<String>)
    ensures
        match out {
            Some(text) => url_joined(base@, reference@) == Some(text@),
            None => url_joined(base@, reference@) is None,
        },
{
    match ::url::Url::parse(base) {
        Ok(parsed) => match parsed.join(reference) {
            Ok(joined) => Some(joined.as_str().to_string()),
            Err(_) => None,
        },
        Err(_) => None,
    }
}

/// Calls `url::Url::set_fragment` with `None` on the URL that `input` parses
/// to and hands back the normalized form of what is left, as
/// `url::Url::as_str` gives it. The result is a function of `input`.
#[verifier::external_body]
fn defragment_text(input: &str) -> (out: Option<String>)
    ensures
        match out {
            Some(text) => url_without_fragment(input@) == Some(text@),
            None => url_without_fragment(input@) is None,
        },
{
    match ::url::Url::parse(input) {
        Ok(mut parsed) => {
            parsed.set_fragment(None);
            Some(parsed.as_str().to_string())
        },
        Err(_) => None,
    }
}

/// Calls `url::Url::host_str` on the URL that `url` parses to. The result is
/// a function of `url`.
#[verifier::external_body]
fn host_text(url: &str) -> (out: Option<String>)
    ensures
        match out {
            Some(host) => url_host(url@) == Some(host@),
            None => url_host(url@) is None,
        },
{
    match ::url::Url::parse(url) {
        Ok(parsed) => match parsed.host_str() {
            Some(host) => Some(host.to_string()),
            None => None,
        },
        Err(_) => None,
    }
}

/// Calls `url::Url::path` on the URL that `url` parses to. The result is a
/// function of `url`.
#[verifier::external_body]
fn path_text(url: &str) -> (out: Option<String>)
    ensures
        match out {
            Some(path) => url_path(url@) == Some(path@),
            None => url_path(url@) is None,
        },
{
    match ::url::Url::parse(url) {
        Ok(parsed) => Some(parsed.path().to_string()),
        Err(_) => None,
    }
}

/// What a [`Url`] stands for: its normalized text, its host and its path.
pub struct UrlView {
    pub text: Seq<char>,
    pub host: Option<Seq<char>>,
    pub path: Seq<char>,
}

/// The URL that the fragment-free normalized text `text` describes: `None`
/// where the text still holds a `#` or is no URL.
pub open spec fn describe(text: Seq<char>) -> Option<UrlView> {
    if text.contains('#') {
        None
    } else {
        match url_path(text) {
            Some(path) => Some(UrlView { text, host: url_host(text), path }),
            None => None,
        }
    }
}

/// The URL that `input` stands for, its fragment removed: `None` where
/// `input` is no absolute URL.
pub open spec fn parsed(input: Seq<char>) -> Option<UrlView> {
    match url_without_fragment(input) {
        Some(bare) => describe(bare),
        None => None,
    }
}

/// The URL that comes of the reference `reference` resolved against the URL
/// `base`, its fragment removed: `None` where the reference does not
/// resolve.
pub open spec fn joined(base: Seq<char>, reference: Seq<char>) -> Option<UrlView> {
    match url_joined(base, reference) {
        Some(full) => parsed(full),
        None => None,
    }
}

/// An absolute, normalized URL without a fragment. Two URLs are the same
/// when their texts are equal, and URLs are ordered by their texts.
#[derive(Debug, PartialEq, Eq)]
pub struct Url {
    text: String,
    host: Option<String>,
    path: String,
}

impl View for Url {
    type V = UrlView;

    closed spec fn view(&self) -> UrlView {
        UrlView {
            text: self.text@,
            host: match self.host {
                Some(h) => Some(h@),
                None => None,
            },
            path: self.path@,
        }
    }
}

impl Clone for Url {
    fn clone(&self) -> (out: Self)
        ensures
            out == *self,
    {
        proof {
            use_type_invariant(self);
        }
        let host = match &self.host {
            Some(h) => Some(h.clone()),
            None => None,
        };
        Url { text: self.text.clone(), host, path: self.path.clone() }
    }
}

impl Url {
    /// What holds of every URL: the text is free of `#`, and host and path
    /// are those of the text.
    #[verifier::type_invariant]
    pub open spec fn wf(&self) -> bool {
        describe(self@.text) == Some(self@)
    }

    /// The URL that `bare` describes, a normalized text without a fragment.
    fn from_bare(bare: String) -> (out: Option<Url>)
        ensures
            match out {
                Some(u) => describe(bare@) == Some(u@) && u.wf(),
                None => describe(bare@) is None,
            },
    {
        let chars = chars_of(bare.as_str());
        let mut i: usize = 0;
        while i < chars.len()
            invariant
                i <= chars.len(),
                chars@ == bare@,
                forall|k: int| 0 <= k < i ==> chars@[k] != '#',
            decreases chars.len() - i,
        {
            if chars[i] == '#' {
                return None;
            }
            i += 1;
        }
        match path_text(bare.as_str()) {
            Some(path) => {
                let host = host_text(bare.as_str());
                Some(Url { text: bare, host, path })
            },
            None => None,
        }
    }

    /// The URL that `input` stands for, its fragment removed.
    fn from_text(input: &str) -> (out: Option<Url>)
        ensures
            match out {
                Some(u) => parsed(input@) == Some(u@) && u.wf(),
                None => parsed(input@) is None,
            },
    {
        match defragment_text(input) {
            Some(bare) => Url::from_bare(bare),
            None => None,
        }
    }

    /// Parses an absolute URL and drops its fragment. `None` where `input`
    /// is no absolute URL.
    pub fn parse(input: &str) -> (out: Option<Url>)
        ensures
            match out {
                Some(u) => parsed(input@) == Some(u@) && u.wf(),
                None => parsed(input@) is None,
            },
    {
        Url::from_text(input)
    }

    /// Resolves `reference` against this URL and drops the fragment of the
    /// outcome. `None` where the reference cannot be resolved.
    pub fn join(&self, reference: &str) -> (out: Option<Url>)
        ensures
            match out {
                Some(u) => joined(self@.text, reference@) == Some(u@) && u.wf(),
                None => joined(self@.text, reference@) is None,
            },
    {
        match join_text(self.text.as_str(), reference) {
            Some(full) => Url::from_text(full.as_str()),
            None => None,
        }
    }

    /// The normalized text.
    pub fn as_str(&self) -> (out: &str)
        ensures
            out@ == self@.text,
    {
        self.text.as_str()
    }

    /// The host, if the URL has one.
    pub fn host_str(&self) -> (out: Option<&str>)
        ensures
            option_str(out) == self@.host,
    {
        match &self.host {
            Some(h) => Some(h.as_str()),
            None => None,
        }
    }

    /// The path.
    pub fn path(&self) -> (out: &str)
        ensures
            out@ == self@.path,
    {
        self.path.as_str()
    }

    /// Whether this URL and `other` are the same URL.
    pub fn same_as(&self, other: &Url) -> (out: bool)
        ensures
            out == (self@.text == other@.text),
    {
        self.text == other.text
    }

    /// Whether this URL and `other` have the same host, or both none.
    pub fn same_host(&self, other: &Url) -> (out: bool)
        ensures
            out == (self@.host == other@.host),
    {
        match (&self.host, &other.host) {
            (Some(a), Some(b)) => *a == *b,
            (None, None) => true,
            _ => false,
        }
    }
}

/// What the URLs stand for, in their order.
pub open spec fn views(urls: Seq<Url>) -> Seq<UrlView> {
    Seq::new(urls.len(), |i: int| urls[i]@)
}

/// One of `urls` has the text `text`.
pub open spec fn has_text(urls: Seq<UrlView>, text: Seq<char>) -> bool {
    exists|i: int| 0 <= i < urls.len() && urls[i].text == text
}

/// The text of an optional string.
pub open spec fn option_text(s: Option<String>) -> Option<Seq<char>> {
    match s {
        Some(t) => Some(t@),
        None => None,
    }
}

/// The text of an optional string slice.
pub open spec fn option_str(s: Option<&str>) -> Option<Seq<char>> {
    match s {
        Some(t) => Some(t@),
        None => None,
    }
}

/// A well-formed URL has no fragment: its text holds no `#`.
pub proof fn lemma_no_fragment(url: Url)
    ensures
        url.wf() ==> !url@.text.contains('#'),
{
}

/// Well-formed URLs with the same text are the same in every part.
pub proof fn lemma_text_decides(a: Url, b: Url)
    ensures
        a.wf() && b.wf() && a@.text == b@.text ==> a@ == b@,
{
}

} // verus!
