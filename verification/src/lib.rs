//! Turns a set of web pages into one ordered Markdown document.
//!
//! A run starts from URLs ([`input`]), may discover the pages that belong
//! with a seed page ([`discovery`], [`prefix`]), fetches the pages a bounded
//! number at a time ([`scheduler`], [`fetch`]), puts them back into the order
//! of the URL list ([`processor`]) and renders them into one document
//! ([`render`]); what it tells of all this is worded in [`report`]. Sending
//! requests, converting HTML to Markdown and writing files is left to the
//! caller; this crate decides and computes.

pub mod discovery;
pub mod fetch;
pub mod input;
pub mod models;
pub mod page_url;
pub mod prefix;
pub mod processor;
pub mod render;
pub mod report;
pub mod scheduler;
pub mod stable;
pub mod text;
pub mod utils;
