//! What the stages hand to each other: fetched pages and fetch failures.

use crate::page_url::Url;
use vstd::prelude::*;

verus! {

/// A page as it was fetched: the URL it was requested with and its HTML.
#[derive(Debug, PartialEq, Eq)]
pub struct PageData {
    pub url: Url,
    pub html: String,
}

/// A page that could not be fetched: the URL it was requested with and a
/// short reason.
#[derive(Debug, PartialEq, Eq)]
pub struct FetchError {
    pub url: Url,
    pub reason: String,
}

impl Clone for PageData {
    fn clone(&self) -> (out: Self)
        ensures
            out == *self,
    {
        PageData { url: self.url.clone(), html: self.html.clone() }
    }
}

impl Clone for FetchError {
    fn clone(&self) -> (out: Self)
        ensures
            out == *self,
    {
        FetchError { url: self.url.clone(), reason: self.reason.clone() }
    }
}

} // verus!
