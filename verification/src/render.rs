//! Turns fetched pages into the text of the final document.
//!
//! A page becomes a fragment in three steps. [`prepare_page`] narrows its
//! HTML to what the mode asks for and says what is left to convert. The
//! conversion to Markdown is not done here: it is work that may break down
//! on a page, and whoever does it hands back the text, or nothing.
//! [`compose_fragment`] then makes the fragment of the page. The fragments
//! may be made in any order, each carries the place of its page, and the
//! document is made of those that hold text, in the order of the pages.

use crate::models::PageData;
use crate::page_url::{option_str, option_text, Url};
use crate::processor::{lemma_order_preserved, page_rank, reordered};
use crate::stable::{
    distinct_keys, key_decides, lemma_sorted_distinct_is_strict, lemma_sorted_permutes,
    lemma_strictly_ascending_unique, sort_by_keys, stable_sorted, strictly_ascending,
};
use crate::text::{blank, is_blank, occurs_at};
use vstd::prelude::*;
use vstd::seq_lib::to_multiset_contains;
use vstd::string::StringExecFns;

verus! {

/// The CSS selector of the document body.
pub const BODY_SELECTOR: &'static str = "body";

/// The regular expression of a script block: from an opening `script` tag to
/// the nearest closing one, in any letter case, over line breaks.
pub const SCRIPT_BLOCK: &'static str = "(?is)<script.*?</script>";

/// What stands between two pages of the document.
pub const PAGE_GAP: &'static str = "\n\n\n";

/// What stands before the URL in the line that introduces a page.
pub const SEPARATOR_OPEN: &'static str = "--- ";

/// What stands behind the URL in the line that introduces a page, with the
/// blank line that follows it.
pub const SEPARATOR_CLOSE: &'static str = " ---\n\n";

/// The least number of characters an extracted article must have.
pub const ARTICLE_THRESHOLD: usize = 500;

/// How much of a page goes into the document.
#[derive(Debug, Clone, Copy, PartialEq, Eq)]
pub enum RenderMode {
    /// The whole HTML, as it is.
    Raw,
    /// The document body without its script blocks.
    BodyOnly,
    /// The main content, as a readability heuristic finds it.
    ReadabilityExtracted,
}

/// What is left to do with a page before its fragment can be made.
#[derive(Debug, PartialEq, Eq)]
pub enum Conversion {
    /// This HTML is to be converted to Markdown.
    Markdown { html: String },
    /// The main content of this HTML, the page of the address `url`, is to be
    /// extracted, asked for at least `threshold` characters, and converted to
    /// Markdown.
    Article { html: String, url: String, threshold: usize },
}

/// The text made of one page, with the place the page has among the pages.
#[derive(Debug, PartialEq, Eq)]
pub struct RenderedFragment {
    pub original_index: usize,
    pub text: String,
}

/// The inner HTML, as `scraper::ElementRef::inner_html` gives it, of the
/// first element that `scraper::Html::select` yields for the document `html`
/// and the CSS selector `selector`: `None` where `scraper::Selector::parse`
/// refuses the selector, `Some(None)` where no element matches.
pub uninterp spec fn inner_html_of(html: Seq<char>, selector: Seq<char>) -> Option<
    Option<Seq<char>>,
>;

/// `text` after `regex::Regex::replace_all` has put `replacement` in place of
/// every match of `pattern`; `None` where `regex::Regex::new` refuses the
/// pattern.
pub uninterp spec fn regex_replaced(
    pattern: Seq<char>,
    text: Seq<char>,
    replacement: Seq<char>,
) -> Option<Seq<char>>;

/// Parses `selector` with `scraper::Selector::parse` and `html` with
/// `scraper::Html::parse_document`, and hands back the
/// `scraper::ElementRef::inner_html` of the first element that
/// `scraper::Html::select` yields. The result is a function of `html` and
/// `selector`.
#[verifier::external_body]
fn first_inner_html(html: &str, selector: &str) -> (out: Option<Option<String>>)
    ensures
        match out {
            Some(Some(inner)) => inner_html_of(html@, selector@) == Some(Some(inner@)),
            Some(None) => inner_html_of(html@, selector@) == Some(None::<Seq<char>>),
            None => inner_html_of(html@, selector@) is None,
        },
{
    match ::scraper::Selector::parse(selector) {
        Ok(parsed) => {
            let document = ::scraper::Html::parse_document(html);
            match document.select(&parsed).next() {
                Some(element) => Some(Some(element.inner_html())),
                None => Some(None),
            }
        },
        Err(_) => None,
    }
}

/// Compiles `pattern` with `regex::Regex::new` and calls
/// `regex::Regex::replace_all` on `text`. The result is a function of the
/// three arguments.
#[verifier::external_body]
fn replace_all(pattern: &str, text: &str, replacement: &str) -> (out: Option<String>)
    ensures
        match out {
            Some(replaced) => regex_replaced(pattern@, text@, replacement@) == Some(replaced@),
            None => regex_replaced(pattern@, text@, replacement@) is None,
        },
{
    match ::regex::Regex::new(pattern) {
        Ok(compiled) => Some(compiled.replace_all(text, replacement).into_owned()),
        Err(_) => None,
    }
}

/// The body region of a document: the inner HTML of its first `body`
/// element, and the whole document where none is found.
pub open spec fn body_of(html: Seq<char>) -> Seq<char> {
    match inner_html_of(html, BODY_SELECTOR@) {
        Some(Some(inner)) => inner,
        _ => html,
    }
}

/// `html` without its script blocks.
pub open spec fn without_scripts(html: Seq<char>) -> Seq<char> {
    match regex_replaced(SCRIPT_BLOCK@, html, ""@) {
        Some(cleaned) => cleaned,
        None => html,
    }
}

/// `conversion` is what is left to do with `page` in the mode `mode`: the
/// raw page is converted whole, the body without its scripts, and of the
/// page that is to be read the article is extracted first.
pub open spec fn prepares(page: PageData, mode: RenderMode, conversion: Conversion) -> bool {
    match mode {
        RenderMode::Raw => conversion matches Conversion::Markdown { html } && html@
            == page.html@,
        RenderMode::BodyOnly => conversion matches Conversion::Markdown { html } && html@
            == without_scripts(body_of(page.html@)),
        RenderMode::ReadabilityExtracted => conversion matches Conversion::Article {
            html,
            url,
            threshold,
        } && html@ == page.html@ && url@ == page.url@.text && threshold == ARTICLE_THRESHOLD,
    }
}

/// The line that introduces a page by its URL. Extracted articles get none.
pub open spec fn separator(url: Seq<char>, mode: RenderMode) -> Seq<char> {
    match mode {
        RenderMode::ReadabilityExtracted => Seq::empty(),
        _ => SEPARATOR_OPEN@ + url + SEPARATOR_CLOSE@,
    }
}

/// The conversion gave no text: it gave nothing, or white space only.
pub open spec fn without_text(converted: Option<Seq<char>>) -> bool {
    match converted {
        Some(body) => is_blank(body),
        None => true,
    }
}

/// The fragment of a page whose conversion gave `converted`: the separator
/// and the text; and nothing at all where the conversion gave no text.
pub open spec fn fragment_text(
    url: Seq<char>,
    converted: Option<Seq<char>>,
    mode: RenderMode,
) -> Seq<char> {
    match converted {
        Some(body) => if is_blank(body) {
            Seq::empty()
        } else {
            separator(url, mode) + body
        },
        None => Seq::empty(),
    }
}

/// The document made of the texts of the fragments, taken in their order:
/// the texts that are not empty, with a gap between each two of them. An
/// empty text adds nothing, wherever it stands.
pub open spec fn document_of(texts: Seq<Seq<char>>) -> Seq<char>
    decreases texts.len(),
{
    if texts.len() == 0 {
        Seq::empty()
    } else {
        let before = document_of(texts.drop_last());
        if texts.last().len() == 0 {
            before
        } else if before.len() == 0 {
            texts.last()
        } else {
            before + PAGE_GAP@ + texts.last()
        }
    }
}

/// The pieces in which the document is written: one for each text that is
/// not empty, each but the first with the gap before it.
pub open spec fn chunks_of(texts: Seq<Seq<char>>) -> Seq<Seq<char>>
    decreases texts.len(),
{
    if texts.len() == 0 {
        Seq::empty()
    } else {
        let before = chunks_of(texts.drop_last());
        if texts.last().len() == 0 {
            before
        } else if document_of(texts.drop_last()).len() == 0 {
            before.push(texts.last())
        } else {
            before.push(PAGE_GAP@ + texts.last())
        }
    }
}

/// The texts one after the other.
pub open spec fn joined(texts: Seq<Seq<char>>) -> Seq<char>
    decreases texts.len(),
{
    if texts.len() == 0 {
        Seq::empty()
    } else {
        joined(texts.drop_last()) + texts.last()
    }
}

/// The texts of the fragments, in their order.
pub open spec fn texts_of(fragments: Seq<RenderedFragment>) -> Seq<Seq<char>> {
    Seq::new(fragments.len(), |i: int| fragments[i].text@)
}

/// The texts of the strings, in their order.
pub open spec fn string_texts(strings: Seq<String>) -> Seq<Seq<char>> {
    Seq::new(strings.len(), |i: int| strings[i]@)
}

/// The texts of the conversions, in their order.
pub open spec fn conversions_of(converted: Seq<Option<String>>) -> Seq<Option<Seq<char>>> {
    Seq::new(converted.len(), |i: int| option_text(converted[i]))
}

/// What the conversion of the page at `i` gave: nothing where none is
/// listed for it.
pub open spec fn conversion_at(conversions: Seq<Option<Seq<char>>>, i: int) -> Option<Seq<char>> {
    if 0 <= i < conversions.len() {
        conversions[i]
    } else {
        None
    }
}

/// The texts of the fragments of `pages`, where `conversions` holds what the
/// conversion of each page gave.
pub open spec fn page_texts(
    pages: Seq<PageData>,
    conversions: Seq<Option<Seq<char>>>,
    mode: RenderMode,
) -> Seq<Seq<char>> {
    Seq::new(
        pages.len(),
        |i: int| fragment_text(pages[i].url@.text, conversion_at(conversions, i), mode),
    )
}

/// The document of `pages`: the fragments of the pages that have text, in
/// the order of the pages.
pub open spec fn document_text(
    pages: Seq<PageData>,
    conversions: Seq<Option<Seq<char>>>,
    mode: RenderMode,
) -> Seq<char> {
    document_of(page_texts(pages, conversions, mode))
}

/// The place of a fragment's page.
pub open spec fn fragment_place() -> spec_fn(RenderedFragment) -> int {
    |fragment: RenderedFragment| fragment.original_index as int
}

/// The fragments in the order of their pages; fragments of one place in the
/// order they came in.
pub open spec fn in_page_order(fragments: Seq<RenderedFragment>) -> Seq<RenderedFragment> {
    stable_sorted(fragments, fragment_place())
}

/// Says what is left to do with `page` before its fragment can be made.
pub fn prepare_page(page: &PageData, mode: RenderMode) -> (out: Conversion)
    ensures
        prepares(*page, mode, out),
{
    match mode {
        RenderMode::Raw => Conversion::Markdown { html: page.html.clone() },
        RenderMode::BodyOnly => {
            let body = match first_inner_html(page.html.as_str(), BODY_SELECTOR) {
                Some(Some(inner)) => inner,
                _ => page.html.clone(),
            };
            let cleaned = match replace_all(SCRIPT_BLOCK, body.as_str(), "") {
                Some(cleaned) => cleaned,
                None => body,
            };
            Conversion::Markdown { html: cleaned }
        },
        RenderMode::ReadabilityExtracted => Conversion::Article {
            html: page.html.clone(),
            url: page.url.as_str().to_owned(),
            threshold: ARTICLE_THRESHOLD,
        },
    }
}

/// Makes the fragment of the page at `index` from what its conversion gave:
/// `None` where the conversion broke down or found nothing. A page without
/// text contributes nothing: no text, no separator.
pub fn compose_fragment(
    index: usize,
    url: &Url,
    converted: Option<&str>,
    mode: RenderMode,
) -> (out: RenderedFragment)
    ensures
        out.original_index == index,
        out.text@ == fragment_text(url@.text, option_str(converted), mode),
        without_text(option_str(converted)) <==> out.text@.len() == 0,
{
    let mut text = String::new();
    match converted {
        Some(body) => {
            if !blank(body) {
                match mode {
                    RenderMode::ReadabilityExtracted => {},
                    _ => {
                        text.append(SEPARATOR_OPEN);
                        text.append(url.as_str());
                        text.append(SEPARATOR_CLOSE);
                    },
                }
                text.append(body);
                proof {
                    assert(text@ =~= separator(url@.text, mode) + body@);
                    assert(body@.len() > 0) by {
                        if body@.len() == 0 {
                            assert(is_blank(body@));
                        }
                    }
                }
            }
        },
        None => {},
    }
    RenderedFragment { original_index: index, text }
}

/// The fragments of `pages`, each with its place, where `converted` holds
/// what the conversion of each page gave. A page for which it holds nothing
/// has an empty fragment.
pub fn render_pages(pages: &[PageData], converted: &[Option<String>], mode: RenderMode) -> (out:
    Vec<RenderedFragment>)
    ensures
        out.len() == pages.len(),
        forall|i: int| 0 <= i < pages.len() ==> (#[trigger] out[i]).original_index == i,
        texts_of(out@) == page_texts(pages@, conversions_of(converted@), mode),
{
    let mut out: Vec<RenderedFragment> = Vec::new();
    let mut i: usize = 0;
    while i < pages.len()
        invariant
            i <= pages.len(),
            out.len() == i,
            forall|j: int| 0 <= j < i ==> (#[trigger] out[j]).original_index == j,
            forall|j: int|
                0 <= j < i ==> (#[trigger] out[j]).text@ == fragment_text(
                    pages[j].url@.text,
                    conversion_at(conversions_of(converted@), j),
                    mode,
                ),
        decreases pages.len() - i,
    {
        let given: Option<&str> = if i < converted.len() {
            match &converted[i] {
                Some(text) => Some(text.as_str()),
                None => None,
            }
        } else {
            None
        };
        assert(option_str(given) == conversion_at(conversions_of(converted@), i as int));
        out.push(compose_fragment(i, &pages[i].url, given, mode));
        i += 1;
    }
    assert(texts_of(out@) =~= page_texts(pages@, conversions_of(converted@), mode));
    out
}

/// The document of the fragments, taken in the order they stand in.
pub fn join_fragments(fragments: &[RenderedFragment]) -> (out: String)
    ensures
        out@ == document_of(texts_of(fragments@)),
{
    let mut out = String::new();
    let mut written = false;
    let mut i: usize = 0;
    assert(texts_of(fragments@.take(0)) =~= Seq::<Seq<char>>::empty());
    while i < fragments.len()
        invariant
            i <= fragments.len(),
            out@ == document_of(texts_of(fragments@.take(i as int))),
            written == (out@.len() > 0),
        decreases fragments.len() - i,
    {
        proof {
            let next = texts_of(fragments@.take(i + 1));
            assert(next.drop_last() =~= texts_of(fragments@.take(i as int)));
            assert(next.last() == fragments@[i as int].text@);
        }
        let text = fragments[i].text.as_str();
        if !text.is_empty() {
            let ghost before = out@;
            if written {
                out.append(PAGE_GAP);
            }
            out.append(text);
            written = true;
            assert(out@ =~= if before.len() == 0 {
                text@
            } else {
                before + PAGE_GAP@ + text@
            });
        }
        i += 1;
    }
    assert(fragments@.take(i as int) =~= fragments@);
    out
}

/// Puts fragments that were made in any order into the order of their
/// pages.
pub fn order_fragments(fragments: Vec<RenderedFragment>) -> (out: Vec<RenderedFragment>)
    ensures
        out@ == in_page_order(fragments@),
{
    let mut keys: Vec<usize> = Vec::new();
    let mut i: usize = 0;
    while i < fragments.len()
        invariant
            i <= fragments.len(),
            keys.len() == i,
            forall|j: int| 0 <= j < i ==> keys[j] as int == fragment_place()(fragments[j]),
        decreases fragments.len() - i,
    {
        keys.push(fragments[i].original_index);
        i += 1;
    }
    sort_by_keys(fragments, &keys, Ghost(fragment_place()))
}

/// The document of fragments that were made in any order: those that hold
/// text, in the order of their pages.
pub fn assemble(fragments: Vec<RenderedFragment>) -> (out: String)
    ensures
        out@ == document_of(texts_of(in_page_order(fragments@))),
{
    let ordered = order_fragments(fragments);
    join_fragments(ordered.as_slice())
}

/// What is to be written of fragments that were made in any order: a piece
/// for each fragment that holds text, in the order of their pages, each but
/// the first with the gap before it; and beside them the whole document in
/// one text, where it is to be kept.
pub fn document_chunks(fragments: Vec<RenderedFragment>, keep_in_memory: bool) -> (out: (
    Vec<String>,
    Option<String>,
))
    ensures
        string_texts(out.0@) == chunks_of(texts_of(in_page_order(fragments@))),
        joined(string_texts(out.0@)) == document_of(texts_of(in_page_order(fragments@))),
        match out.1 {
            Some(document) => keep_in_memory && document@ == document_of(
                texts_of(in_page_order(fragments@)),
            ),
            None => !keep_in_memory,
        },
{
    let ordered = order_fragments(fragments);
    let document = if keep_in_memory {
        Some(join_fragments(ordered.as_slice()))
    } else {
        None
    };
    let mut chunks: Vec<String> = Vec::new();
    let mut written = false;
    let mut i: usize = 0;
    proof {
        assert(texts_of(ordered@.take(0)) =~= Seq::<Seq<char>>::empty());
        assert(string_texts(chunks@) =~= chunks_of(texts_of(ordered@.take(0))));
    }
    while i < ordered.len()
        invariant
            i <= ordered.len(),
            string_texts(chunks@) == chunks_of(texts_of(ordered@.take(i as int))),
            written == (document_of(texts_of(ordered@.take(i as int))).len() > 0),
        decreases ordered.len() - i,
    {
        proof {
            let next = texts_of(ordered@.take(i + 1));
            assert(next.drop_last() =~= texts_of(ordered@.take(i as int)));
            assert(next.last() == ordered@[i as int].text@);
        }
        let text = ordered[i].text.as_str();
        if !text.is_empty() {
            let ghost earlier = chunks@;
            let mut chunk = String::new();
            if written {
                chunk.append(PAGE_GAP);
            }
            chunk.append(text);
            proof {
                if written {
                    assert(chunk@ =~= PAGE_GAP@ + text@);
                } else {
                    assert(chunk@ =~= text@);
                }
            }
            chunks.push(chunk);
            written = true;
            assert(string_texts(chunks@) =~= string_texts(earlier).push(chunk@));
        }
        i += 1;
    }
    proof {
        assert(ordered@.take(i as int) =~= ordered@);
        lemma_chunks_make_the_document(texts_of(ordered@));
    }
    (chunks, document)
}

/// The document of `pages`, where `converted` holds what the conversion of
/// each page gave: the fragments of the pages that have text, in the order
/// of the pages.
pub fn render_document(pages: &[PageData], converted: &[Option<String>], mode: RenderMode) -> (out:
    String)
    ensures
        out@ == document_text(pages@, conversions_of(converted@), mode),
{
    let fragments = render_pages(pages, converted, mode);
    join_fragments(fragments.as_slice())
}

/// The pieces written one after the other are the document.
pub proof fn lemma_chunks_make_the_document(texts: Seq<Seq<char>>)
    ensures
        joined(chunks_of(texts)) == document_of(texts),
    decreases texts.len(),
{
    if texts.len() > 0 {
        let before = texts.drop_last();
        lemma_chunks_make_the_document(before);
        let chunks = chunks_of(before);
        if texts.last().len() > 0 {
            if document_of(before).len() == 0 {
                assert(chunks.push(texts.last()).drop_last() =~= chunks);
                assert(joined(chunks) + texts.last() =~= texts.last());
            } else {
                assert(chunks.push(PAGE_GAP@ + texts.last()).drop_last() =~= chunks);
                assert(joined(chunks) + (PAGE_GAP@ + texts.last()) =~= document_of(before)
                    + PAGE_GAP@ + texts.last());
            }
        }
    }
}

/// What stands in the document before the last text stands in the document
/// at the same place.
proof fn lemma_earlier_text_stays(texts: Seq<Seq<char>>, text: Seq<char>, at: int)
    requires
        texts.len() > 0,
        occurs_at(document_of(texts.drop_last()), text, at),
    ensures
        occurs_at(document_of(texts), text, at),
        document_of(texts.drop_last()).len() <= document_of(texts).len(),
{
    let before = document_of(texts.drop_last());
    let whole = document_of(texts);
    if texts.last().len() > 0 {
        if before.len() == 0 {
            assert(text.len() == 0);
            assert(whole.subrange(0, 0) =~= text);
        } else {
            assert(whole =~= before + (PAGE_GAP@ + texts.last()));
            assert(whole.subrange(at, at + text.len()) =~= before.subrange(at, at + text.len()));
        }
    }
}

/// Every text stands in the document, and of two texts the one of the
/// earlier place stands before the other: there are places `p` and `q` of
/// the document where the two stand, the first ending before the second
/// begins.
pub proof fn lemma_texts_stand_in_order(texts: Seq<Seq<char>>, i: int, j: int) -> (places: (
    int,
    int,
))
    requires
        0 <= i < j < texts.len(),
    ensures
        occurs_at(document_of(texts), texts[i], places.0),
        occurs_at(document_of(texts), texts[j], places.1),
        places.0 + texts[i].len() <= places.1,
    decreases texts.len(),
{
    let earlier = texts.drop_last();
    let before = document_of(earlier);
    let whole = document_of(texts);
    if j == texts.len() - 1 {
        let p = lemma_text_stands(earlier, i);
        lemma_earlier_text_stays(texts, earlier[i], p);
        let last = texts.last();
        let q = whole.len() - last.len();
        if last.len() == 0 {
            assert(whole.subrange(q, q + 0) =~= last);
        } else if before.len() == 0 {
            assert(whole.subrange(q, q + last.len()) =~= last);
        } else {
            assert(whole =~= before + PAGE_GAP@ + last);
            assert(whole.subrange(q, q + last.len()) =~= last);
        }
        (p, q)
    } else {
        let (p, q) = lemma_texts_stand_in_order(earlier, i, j);
        lemma_earlier_text_stays(texts, earlier[i], p);
        lemma_earlier_text_stays(texts, earlier[j], q);
        (p, q)
    }
}

/// Every text stands in the document.
pub proof fn lemma_text_stands(texts: Seq<Seq<char>>, i: int) -> (place: int)
    requires
        0 <= i < texts.len(),
    ensures
        occurs_at(document_of(texts), texts[i], place),
    decreases texts.len(),
{
    let earlier = texts.drop_last();
    let before = document_of(earlier);
    let whole = document_of(texts);
    if i == texts.len() - 1 {
        let last = texts.last();
        let q = whole.len() - last.len();
        if last.len() == 0 {
            assert(whole.subrange(q, q + 0) =~= last);
        } else if before.len() == 0 {
            assert(whole.subrange(q, q + last.len()) =~= last);
        } else {
            assert(whole =~= before + PAGE_GAP@ + last);
            assert(whole.subrange(q, q + last.len()) =~= last);
        }
        q
    } else {
        let p = lemma_text_stands(earlier, i);
        lemma_earlier_text_stays(texts, earlier[i], p);
        p
    }
}

/// An empty text contributes nothing to the document, wherever it stands:
/// no character and no gap.
pub proof fn lemma_empty_text_contributes_nothing(texts: Seq<Seq<char>>, at: int)
    requires
        0 <= at <= texts.len(),
    ensures
        document_of(texts.insert(at, Seq::empty())) == document_of(texts),
        chunks_of(texts.insert(at, Seq::empty())) == chunks_of(texts),
    decreases texts.len(),
{
    let longer = texts.insert(at, Seq::empty());
    if at == texts.len() {
        assert(longer.drop_last() =~= texts);
    } else {
        assert(longer.drop_last() =~= texts.drop_last().insert(at, Seq::empty()));
        assert(longer.last() == texts.last());
        lemma_empty_text_contributes_nothing(texts.drop_last(), at);
    }
}

/// A page without text contributes nothing to the document, wherever it
/// stands among the pages: the document of the pages with such a page put
/// in is the document of the pages without it.
pub proof fn lemma_page_without_text_contributes_nothing(
    pages: Seq<PageData>,
    conversions: Seq<Option<Seq<char>>>,
    mode: RenderMode,
    at: int,
    page: PageData,
    converted: Option<Seq<char>>,
)
    requires
        conversions.len() == pages.len(),
        0 <= at <= pages.len(),
        without_text(converted),
    ensures
        document_text(pages.insert(at, page), conversions.insert(at, converted), mode)
            == document_text(pages, conversions, mode),
{
    let texts = page_texts(pages, conversions, mode);
    let longer = page_texts(pages.insert(at, page), conversions.insert(at, converted), mode);
    assert(longer =~= texts.insert(at, Seq::empty())) by {
        assert forall|i: int| 0 <= i < longer.len() implies longer[i] == texts.insert(
            at,
            Seq::empty(),
        )[i] by {
            if i < at {
                assert(pages.insert(at, page)[i] == pages[i]);
                assert(conversions.insert(at, converted)[i] == conversions[i]);
            } else if i > at {
                assert(pages.insert(at, page)[i] == pages[i - 1]);
                assert(conversions.insert(at, converted)[i] == conversions[i - 1]);
            } else {
                assert(conversions.insert(at, converted)[i] == converted);
            }
        }
    }
    lemma_empty_text_contributes_nothing(texts, at);
}

/// Fragments that each carry their own place in `fragments` come back to
/// exactly that sequence, in whatever order `arrived` holds them: the order
/// in which the pages were rendered never shows in the document.
pub proof fn lemma_rendering_order_is_irrelevant(
    fragments: Seq<RenderedFragment>,
    arrived: Seq<RenderedFragment>,
)
    requires
        forall|i: int| 0 <= i < fragments.len() ==> (#[trigger] fragments[i]).original_index == i,
        arrived.to_multiset() == fragments.to_multiset(),
    ensures
        in_page_order(arrived) == fragments,
        document_of(texts_of(in_page_order(arrived))) == document_of(texts_of(fragments)),
{
    let key = fragment_place();
    assert(strictly_ascending(fragments, key));
    assert(fragments.no_duplicates());
    fragments.lemma_multiset_has_no_duplicates();
    arrived.lemma_multiset_has_no_duplicates_conv();
    assert forall|i: int, j: int| 0 <= i < j < arrived.len() implies key(arrived[i]) != key(
        arrived[j],
    ) by {
        assert(arrived[i] != arrived[j]);
        assert(arrived.contains(arrived[i]) && arrived.contains(arrived[j]));
        to_multiset_contains(arrived, arrived[i]);
        to_multiset_contains(arrived, arrived[j]);
        to_multiset_contains(fragments, arrived[i]);
        to_multiset_contains(fragments, arrived[j]);
        let p = choose|p: int| 0 <= p < fragments.len() && fragments[p] == arrived[i];
        let q = choose|q: int| 0 <= q < fragments.len() && fragments[q] == arrived[j];
        assert(p != q);
    }
    assert(distinct_keys(arrived, key));
    lemma_sorted_distinct_is_strict(arrived, key);
    lemma_sorted_permutes(arrived, key);
    let sorted = stable_sorted(arrived, key);
    assert forall|x: RenderedFragment| sorted.contains(x) <==> fragments.contains(x) by {
        to_multiset_contains(sorted, x);
        to_multiset_contains(fragments, x);
    }
    lemma_strictly_ascending_unique(sorted, fragments, key);
}

/// The document made of the pages that were fetched, where `convert` says
/// what the conversion of each page gives.
pub open spec fn document_by(
    pages: Seq<PageData>,
    convert: spec_fn(PageData) -> Option<Seq<char>>,
    mode: RenderMode,
) -> Seq<char> {
    document_text(pages, Seq::new(pages.len(), |i: int| convert(pages[i])), mode)
}

/// The document of the pages that were fetched does not depend on the order
/// in which their fetches completed: where `first` and `second` hold the
/// same pages, and pages of one rank are one and the same page, the
/// documents made of them once they are reordered are the same text.
pub proof fn lemma_document_ignores_completion_order(
    order: Seq<Url>,
    first: Seq<PageData>,
    second: Seq<PageData>,
    convert: spec_fn(PageData) -> Option<Seq<char>>,
    mode: RenderMode,
)
    requires
        first.to_multiset() == second.to_multiset(),
        key_decides(first, page_rank(order)),
    ensures
        document_by(reordered(first, order), convert, mode) == document_by(
            reordered(second, order),
            convert,
            mode,
        ),
{
    lemma_order_preserved(order, first, second);
}

} // verus!
