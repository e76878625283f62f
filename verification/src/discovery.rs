//! Link discovery: which pages of a site belong with a seed page.
//!
//! The links of the seed page are resolved against its URL. Those of the
//! seed's own host are kept, each URL once; where most of them share a path
//! prefix, only the pages under that prefix stay. The seed itself always
//! does. The outcome is ordered by the text of the URLs.

use crate::fetch::{exchange_gives, fetch_page, success_code, HttpStatus};
use crate::models::FetchError;
use crate::page_url::{has_text, joined, lemma_text_decides, views, Url, UrlView};
use crate::prefix::{best_prefix, find_best_prefix, paths_of};
use crate::text::{
    chars_of, lemma_lex_asymmetric, lemma_lex_total, lemma_lex_transitive, less, lex_lt,
    starts_with,
};
use vstd::prelude::*;
use vstd::seq_lib::{to_multiset_contains, to_multiset_insert};

verus! {

/// The CSS selector of the hyperlinks that have a target.
pub const LINK_SELECTOR: &'static str = "a[href]";

/// The attribute that holds the target of a hyperlink.
pub const LINK_ATTRIBUTE: &'static str = "href";

/// For each element of the document `html` that the CSS selector `selector`
/// matches, in the order in which `scraper::Html::select` yields them, what
/// `scraper::node::Element::attr` gives for the attribute `name`; `None`
/// where `scraper::Selector::parse` refuses the selector.
pub uninterp spec fn attribute_values(
    html: Seq<char>,
    selector: Seq<char>,
    name: Seq<char>,
) -> Option<Seq<Option<Seq<char>>>>;

/// The texts of optional strings, in their order.
pub open spec fn option_texts(values: Seq<Option<String>>) -> Seq<Option<Seq<char>>> {
    Seq::new(
        values.len(),
        |i: int|
            match values[i] {
                Some(value) => Some(value@),
                None => None,
            },
    )
}

/// Parses `selector` with `scraper::Selector::parse` and `html` with
/// `scraper::Html::parse_document`, and hands back, for each element that
/// `scraper::Html::select` yields, the value that
/// `scraper::node::Element::attr` gives for `name`. The result is a function
/// of the three arguments.
#[verifier::external_body]
fn select_attributes(html: &str, selector: &str, name: &str) -> (out: Option<Vec<Option<String>>>)
    ensures
        match out {
            Some(values) => attribute_values(html@, selector@, name@) == Some(
                option_texts(values@),
            ),
            None => attribute_values(html@, selector@, name@) is None,
        },
{
    match ::scraper::Selector::parse(selector) {
        Ok(parsed) => {
            let document = ::scraper::Html::parse_document(html);
            let mut values = Vec::new();
            for element in document.select(&parsed) {
                values.push(element.value().attr(name).map(String::from));
            }
            Some(values)
        },
        Err(_) => None,
    }
}

/// The paths of the URLs, in their order.
pub open spec fn view_paths(urls: Seq<UrlView>) -> Seq<Seq<char>> {
    Seq::new(urls.len(), |i: int| urls[i].path)
}

/// The targets of the hyperlinks of a page, in the order the page yields
/// them.
pub open spec fn link_targets(html: Seq<char>) -> Seq<Option<Seq<char>>> {
    match attribute_values(html, LINK_SELECTOR@, LINK_ATTRIBUTE@) {
        Some(values) => values,
        None => Seq::empty(),
    }
}

/// The URLs that the targets resolve to against the URL `base`, fragments
/// dropped, in the order of the targets. A missing target and one that does
/// not resolve give none.
pub open spec fn resolved(base: Seq<char>, targets: Seq<Option<Seq<char>>>) -> Seq<UrlView>
    decreases targets.len(),
{
    if targets.len() == 0 {
        Seq::empty()
    } else {
        let before = resolved(base, targets.drop_last());
        match targets.last() {
            Some(target) => match joined(base, target) {
                Some(url) => before.push(url),
                None => before,
            },
            None => before,
        }
    }
}

/// The internal links among `candidates`: those of the seed's host, each
/// URL once, where it first occurs.
pub open spec fn pooled(seed: UrlView, candidates: Seq<UrlView>) -> Seq<UrlView>
    decreases candidates.len(),
{
    if candidates.len() == 0 {
        Seq::empty()
    } else {
        let pool = pooled(seed, candidates.drop_last());
        let next = candidates.last();
        if next.host == seed.host && !has_text(pool, next.text) {
            pool.push(next)
        } else {
            pool
        }
    }
}

/// `url` lies in the section: its path starts with the section's prefix.
/// Without a section every URL does.
pub open spec fn in_section(section: Option<Seq<char>>, url: UrlView) -> bool {
    match section {
        Some(prefix) => prefix.is_prefix_of(url.path),
        None => true,
    }
}

/// `result` is what discovery keeps of `candidates` for `seed`: the seed
/// and the internal links that lie in the section their paths point to, each
/// once, in ascending order of their texts.
pub open spec fn is_selection(
    seed: UrlView,
    candidates: Seq<UrlView>,
    result: Seq<UrlView>,
) -> bool {
    let pool = pooled(seed, candidates);
    let section = best_prefix(view_paths(pool));
    &&& forall|i: int, j: int|
        0 <= i < j < result.len() ==> lex_lt(result[i].text, result[j].text)
    &&& forall|u: UrlView| #[trigger]
        result.contains(u) <==> u == seed || (pool.contains(u) && in_section(section, u))
}

/// The internal links are candidates of the seed's host, no two of one
/// text.
pub proof fn lemma_pooled(seed: UrlView, candidates: Seq<UrlView>)
    ensures
        forall|i: int|
            0 <= i < pooled(seed, candidates).len() ==> (#[trigger] pooled(
                seed,
                candidates,
            )[i]).host == seed.host && candidates.contains(pooled(seed, candidates)[i]),
        forall|i: int, j: int|
            0 <= i < j < pooled(seed, candidates).len() ==> pooled(seed, candidates)[i].text
                != pooled(seed, candidates)[j].text,
    decreases candidates.len(),
{
    if candidates.len() > 0 {
        let before = pooled(seed, candidates.drop_last());
        let pool = pooled(seed, candidates);
        lemma_pooled(seed, candidates.drop_last());
        assert forall|i: int| 0 <= i < pool.len() implies (#[trigger] pool[i]).host == seed.host
            && candidates.contains(pool[i]) by {
            if i < before.len() {
                assert(pool[i] == before[i]);
                let k = choose|k: int|
                    0 <= k < candidates.drop_last().len() && candidates.drop_last()[k]
                        == before[i];
                assert(candidates[k] == pool[i]);
            } else {
                assert(candidates[candidates.len() - 1] == pool[i]);
            }
        }
        assert forall|i: int, j: int| 0 <= i < j < pool.len() implies pool[i].text
            != pool[j].text by {
            assert(pool[i] == before[i]);
            if j < before.len() {
                assert(pool[j] == before[j]);
            }
        }
    }
}

/// Whether one of `urls` has the text of `url`.
fn holds(urls: &Vec<Url>, url: &Url) -> (out: bool)
    ensures
        out == has_text(views(urls@), url@.text),
{
    let mut i: usize = 0;
    while i < urls.len()
        invariant
            i <= urls.len(),
            forall|k: int| 0 <= k < i ==> views(urls@)[k].text != url@.text,
        decreases urls.len() - i,
    {
        if urls[i].same_as(url) {
            assert(views(urls@)[i as int].text == url@.text);
            return true;
        }
        i += 1;
    }
    false
}

/// The texts of the URLs ascend strictly.
pub open spec fn ascending_texts(urls: Seq<UrlView>) -> bool {
    forall|i: int, j: int| 0 <= i < j < urls.len() ==> lex_lt(urls[i].text, urls[j].text)
}

/// No two of the URLs have the same text.
pub open spec fn distinct_texts(urls: Seq<UrlView>) -> bool {
    forall|i: int, j: int| 0 <= i < j < urls.len() ==> urls[i].text != urls[j].text
}

/// Sorts URLs of different texts by their texts.
pub fn sort_by_text(urls: Vec<Url>) -> (out: Vec<Url>)
    requires
        distinct_texts(views(urls@)),
    ensures
        ascending_texts(views(out@)),
        out@.to_multiset() == urls@.to_multiset(),
{
    let ghost given = urls@;
    let mut items = urls;
    let mut out: Vec<Url> = Vec::new();
    let mut keys: Vec<Vec<char>> = Vec::new();
    assert(given.skip(given.len() as int) =~= Seq::<Url>::empty());
    while items.len() > 0
        invariant
            items@ == given.take(items.len() as int),
            items.len() <= given.len(),
            distinct_texts(views(given)),
            out@.to_multiset() == given.skip(items.len() as int).to_multiset(),
            ascending_texts(views(out@)),
            keys.len() == out.len(),
            forall|j: int| 0 <= j < out.len() ==> (#[trigger] keys[j]@) == out[j]@.text,
        decreases items.len(),
    {
        let n: usize = items.len();
        let url = items.pop().unwrap();
        let key = chars_of(url.as_str());
        assert(url == given[n - 1]);
        let mut pos: usize = 0;
        while pos < keys.len() && less(&keys[pos], &key)
            invariant
                pos <= keys.len(),
                keys.len() == out.len(),
                forall|j: int| 0 <= j < out.len() ==> (#[trigger] keys[j]@) == out[j]@.text,
                forall|j: int| 0 <= j < pos ==> lex_lt(#[trigger] keys[j]@, key@),
            decreases keys.len() - pos,
        {
            pos += 1;
        }
        proof {
            let ghost old_out = out@;
            assert forall|j: int| pos <= j < out.len() implies lex_lt(
                key@,
                #[trigger] keys[j]@,
            ) by {
                assert(out@.contains(out[j]));
                to_multiset_contains(out@, out[j]);
                to_multiset_contains(given.skip(n as int), out[j]);
                let m = choose|m: int|
                    0 <= m < given.skip(n as int).len() && given.skip(n as int)[m]
                        == out[j];
                assert(given[n + m] == out[j]);
                assert(views(given)[n - 1].text != views(given)[n + m].text);
                assert(views(out@)[j].text == keys[j]@);
                lemma_lex_total(key@, keys[pos as int]@);
                if j == pos {
                    assert(keys[j]@ != key@);
                } else {
                    assert(lex_lt(views(out@)[pos as int].text, views(out@)[j].text));
                    assert(out@.contains(out[pos as int]));
                    to_multiset_contains(out@, out[pos as int]);
                    to_multiset_contains(given.skip(n as int), out[pos as int]);
                    let q = choose|q: int|
                        0 <= q < given.skip(n as int).len() && given.skip(n as int)[q]
                            == out[pos as int];
                    assert(given[n + q] == out[pos as int]);
                    assert(views(given)[n - 1].text != views(given)[n + q].text);
                    assert(views(out@)[pos as int].text == keys[pos as int]@);
                    lemma_lex_transitive(key@, keys[pos as int]@, keys[j]@);
                }
            }
            to_multiset_insert(out@, pos as int, url);
            to_multiset_insert(given.skip(n as int), 0, url);
            assert(given.skip(n as int).insert(0, url) =~= given.skip(n - 1));
            assert(items@ =~= given.take(n - 1));
        }
        let ghost before = out@;
        let ghost before_keys = keys@;
        out.insert(pos, url);
        keys.insert(pos, key);
        proof {
            before.insert_ensures(pos as int, url);
            before_keys.insert_ensures(pos as int, key);
            assert forall|j: int| 0 <= j < out.len() implies (#[trigger] keys[j]@)
                == out[j]@.text by {
                if j < pos {
                    assert(keys[j] == before_keys[j] && out[j] == before[j]);
                } else if j > pos {
                    assert(keys[j] == before_keys[j - 1] && out[j] == before[j - 1]);
                }
            }
            assert forall|a: int, b: int| 0 <= a < b < out.len() implies lex_lt(
                views(out@)[a].text,
                views(out@)[b].text,
            ) by {
                let ta = keys[a]@;
                let tb = keys[b]@;
                if a < pos {
                    assert(keys[a] == before_keys[a]);
                    assert(lex_lt(before_keys[a]@, key@));
                }
                if a > pos {
                    assert(keys[a] == before_keys[a - 1]);
                }
                if b < pos {
                    assert(keys[b] == before_keys[b]);
                }
                if b > pos {
                    assert(keys[b] == before_keys[b - 1]);
                    assert(lex_lt(key@, before_keys[b - 1]@));
                }
                if a < pos && b > pos {
                    lemma_lex_transitive(ta, key@, tb);
                } else if a < pos && b < pos {
                    assert(lex_lt(views(before)[a].text, views(before)[b].text));
                } else if a > pos && b > pos {
                    assert(lex_lt(views(before)[a - 1].text, views(before)[b - 1].text));
                }
            }
        }
    }
    assert(given.skip(0) =~= given);
    out
}

/// The text of an optional character vector.
pub open spec fn section_text(section: Option<Vec<char>>) -> Option<Seq<char>> {
    match section {
        Some(prefix) => Some(prefix@),
        None => None,
    }
}

/// Every one of the URLs is well-formed.
pub open spec fn all_wf(urls: Seq<Url>) -> bool {
    forall|i: int| 0 <= i < urls.len() ==> (#[trigger] urls[i]).wf()
}

/// Sequences that hold the same URLs, each as often as the other, stand for
/// the same URLs.
proof fn lemma_same_members(a: Seq<Url>, b: Seq<Url>)
    requires
        a.to_multiset() == b.to_multiset(),
    ensures
        forall|u: UrlView| views(a).contains(u) <==> views(b).contains(u),
        all_wf(a) ==> all_wf(b),
{
    assert forall|u: UrlView| views(a).contains(u) implies views(b).contains(u) by {
        let i = choose|i: int| 0 <= i < a.len() && views(a)[i] == u;
        assert(a.contains(a[i]));
        to_multiset_contains(a, a[i]);
        to_multiset_contains(b, a[i]);
        let j = choose|j: int| 0 <= j < b.len() && b[j] == a[i];
        assert(views(b)[j] == u);
    }
    assert forall|u: UrlView| views(b).contains(u) implies views(a).contains(u) by {
        let j = choose|j: int| 0 <= j < b.len() && views(b)[j] == u;
        assert(b.contains(b[j]));
        to_multiset_contains(b, b[j]);
        to_multiset_contains(a, b[j]);
        let i = choose|i: int| 0 <= i < a.len() && a[i] == b[j];
        assert(views(a)[i] == u);
    }
    if all_wf(a) {
        assert forall|j: int| 0 <= j < b.len() implies (#[trigger] b[j]).wf() by {
            assert(b.contains(b[j]));
            to_multiset_contains(b, b[j]);
            to_multiset_contains(a, b[j]);
            let i = choose|i: int| 0 <= i < a.len() && a[i] == b[j];
            assert(a[i].wf());
        }
    }
}

/// The internal links among `candidates`: those of the seed's host, each
/// URL once, where it first occurs.
pub fn internal_links(seed: &Url, candidates: &[Url]) -> (pool: Vec<Url>)
    ensures
        views(pool@) == pooled(seed@, views(candidates@)),
        all_wf(pool@),
{
    let mut pool: Vec<Url> = Vec::new();
    let mut i: usize = 0;
    assert(views(candidates@.take(0)) =~= Seq::<UrlView>::empty());
    while i < candidates.len()
        invariant
            i <= candidates.len(),
            views(pool@) == pooled(seed@, views(candidates@.take(i as int))),
            all_wf(pool@),
        decreases candidates.len() - i,
    {
        let candidate = &candidates[i];
        proof {
            use_type_invariant(candidate);
            let next = views(candidates@.take(i + 1));
            assert(next.drop_last() =~= views(candidates@.take(i as int)));
            assert(next.last() == candidate@);
        }
        if candidate.same_host(seed) && !holds(&pool, candidate) {
            let ghost before = pool@;
            pool.push(candidate.clone());
            assert(views(pool@) =~= views(before).push(candidate@));
        }
        i += 1;
    }
    assert(candidates@.take(i as int) =~= candidates@);
    pool
}

/// Whether `url` lies in the section.
fn within(section: &Option<Vec<char>>, url: &Url) -> (out: bool)
    ensures
        out == in_section(section_text(*section), url@),
{
    match section {
        Some(prefix) => {
            let path = chars_of(url.path());
            starts_with(&path, prefix)
        },
        None => true,
    }
}

/// The URLs of `pool` that lie in the section, in their order.
fn narrowed(pool: &Vec<Url>, section: &Option<Vec<char>>) -> (kept: Vec<Url>)
    requires
        distinct_texts(views(pool@)),
        all_wf(pool@),
    ensures
        distinct_texts(views(kept@)),
        all_wf(kept@),
        forall|u: UrlView| #[trigger]
            views(kept@).contains(u) <==> views(pool@).contains(u) && in_section(
                section_text(*section),
                u,
            ),
{
    let ghost all = views(pool@);
    let ghost chosen = section_text(*section);
    let mut kept: Vec<Url> = Vec::new();
    let mut k: usize = 0;
    while k < pool.len()
        invariant
            k <= pool.len(),
            all == views(pool@),
            chosen == section_text(*section),
            distinct_texts(all),
            all_wf(pool@),
            all_wf(kept@),
            distinct_texts(views(kept@)),
            forall|a: int|
                0 <= a < kept.len() ==> in_section(chosen, (#[trigger] kept[a])@) && exists|j: int|
                    0 <= j < k && all[j] == kept[a]@,
            forall|j: int|
                0 <= j < k && in_section(chosen, #[trigger] all[j]) ==> views(kept@).contains(
                    all[j],
                ),
        decreases pool.len() - k,
    {
        if within(section, &pool[k]) {
            let ghost before = kept@;
            kept.push(pool[k].clone());
            proof {
                assert(views(kept@) =~= views(before).push(all[k as int]));
                assert forall|j: int|
                    0 <= j < k + 1 && in_section(chosen, #[trigger] all[j]) implies views(
                    kept@,
                ).contains(all[j]) by {
                    if j < k {
                        let a = choose|a: int|
                            0 <= a < views(before).len() && views(before)[a] == all[j];
                        assert(views(kept@)[a] == all[j]);
                    } else {
                        assert(views(kept@)[kept.len() - 1] == all[j]);
                    }
                }
                assert forall|a: int| 0 <= a < kept.len() implies in_section(
                    chosen,
                    (#[trigger] kept[a])@,
                ) && exists|j: int| 0 <= j < k + 1 && all[j] == kept[a]@ by {
                    if a < before.len() {
                        assert(kept[a] == before[a]);
                        let j = choose|j: int| 0 <= j < k && all[j] == before[a]@;
                        assert(all[j] == kept[a]@);
                    } else {
                        assert(all[k as int] == kept[a]@);
                    }
                }
                assert forall|a: int, b: int| 0 <= a < b < kept.len() implies views(
                    kept@,
                )[a].text != views(kept@)[b].text by {
                    assert(kept[a] == before[a]);
                    if b < before.len() {
                        assert(kept[b] == before[b]);
                        assert(views(before)[a].text != views(before)[b].text);
                    } else {
                        let j = choose|j: int| 0 <= j < k && all[j] == before[a]@;
                        assert(all[j].text != all[k as int].text);
                    }
                }
            }
        }
        k += 1;
    }
    proof {
        assert forall|u: UrlView| #[trigger]
            views(kept@).contains(u) <==> all.contains(u) && in_section(chosen, u) by {
            if views(kept@).contains(u) {
                let a = choose|a: int| 0 <= a < kept.len() && views(kept@)[a] == u;
                let j = choose|j: int| 0 <= j < pool.len() && all[j] == kept[a]@;
                assert(all[j] == u);
            }
            if all.contains(u) && in_section(chosen, u) {
                let j = choose|j: int| 0 <= j < all.len() && all[j] == u;
                assert(views(kept@).contains(all[j]));
            }
        }
    }
    kept
}

/// `urls` with the seed among them: added at the end unless it is there.
fn with_seed(urls: Vec<Url>, seed: &Url) -> (out: Vec<Url>)
    requires
        distinct_texts(views(urls@)),
        all_wf(urls@),
        seed.wf(),
    ensures
        distinct_texts(views(out@)),
        all_wf(out@),
        forall|u: UrlView| #[trigger]
            views(out@).contains(u) <==> u == seed@ || views(urls@).contains(u),
{
    let ghost before = urls@;
    let mut out = urls;
    let present = holds(&out, seed);
    if present {
        proof {
            let a = choose|a: int| 0 <= a < before.len() && views(before)[a].text == seed@.text;
            lemma_text_decides(before[a], *seed);
            assert(views(before)[a] == seed@);
        }
    } else {
        out.push(seed.clone());
        proof {
            assert(views(out@) =~= views(before).push(seed@));
            assert forall|a: int, b: int| 0 <= a < b < out.len() implies views(out@)[a].text
                != views(out@)[b].text by {
                assert(views(out@)[a] == views(before)[a]);
                if b < before.len() {
                    assert(views(out@)[b] == views(before)[b]);
                    assert(views(before)[a].text != views(before)[b].text);
                }
            }
            assert forall|u: UrlView| #[trigger]
                views(out@).contains(u) <==> u == seed@ || views(before).contains(u) by {
                if views(out@).contains(u) {
                    let a = choose|a: int| 0 <= a < out.len() && views(out@)[a] == u;
                    if a < before.len() {
                        assert(views(before)[a] == u);
                    }
                }
                if u == seed@ {
                    assert(views(out@)[out.len() - 1] == u);
                }
                if views(before).contains(u) {
                    let a = choose|a: int| 0 <= a < before.len() && views(before)[a] == u;
                    assert(views(out@)[a] == u);
                }
            }
        }
    }
    out
}

/// Chooses among the links that a seed page holds the pages that belong with
/// it: those of the seed's host, each URL once, narrowed to the path prefix
/// that most of them share, if one is shared by enough of them; and the seed
/// itself. They come back in ascending order of their texts.
pub fn select_links(seed: &Url, candidates: &[Url]) -> (out: Vec<Url>)
    ensures
        is_selection(seed@, views(candidates@), views(out@)),
        all_wf(out@),
        views(out@).contains(seed@),
        forall|i: int|
            0 <= i < out.len() ==> (#[trigger] out[i])@ == seed@ || out[i]@.host == seed@.host,
{
    let pool = internal_links(seed, candidates);
    proof {
        use_type_invariant(seed);
        lemma_pooled(seed@, views(candidates@));
        assert(paths_of(pool@) =~= view_paths(views(pool@)));
    }
    let section: Option<Vec<char>> = match find_best_prefix(pool.as_slice()) {
        Some(prefix) => Some(chars_of(prefix.as_str())),
        None => None,
    };
    let kept = narrowed(&pool, &section);
    let chosen = with_seed(kept, seed);
    let out = sort_by_text(chosen);
    proof {
        lemma_same_members(chosen@, out@);
        assert forall|u: UrlView| #[trigger]
            views(out@).contains(u) <==> u == seed@ || (views(pool@).contains(u) && in_section(
                section_text(section),
                u,
            )) by {
            assert(views(out@).contains(u) <==> views(chosen@).contains(u));
            assert(views(chosen@).contains(u) <==> u == seed@ || views(kept@).contains(u));
        }
        assert forall|i: int| 0 <= i < out.len() implies (#[trigger] out[i])@ == seed@
            || out[i]@.host == seed@.host by {
            assert(views(out@)[i] == out[i]@);
            assert(views(out@).contains(out[i]@));
            if out[i]@ != seed@ {
                let j = choose|j: int| 0 <= j < pool.len() && views(pool@)[j] == out[i]@;
                assert(views(pool@)[j].host == seed@.host);
            }
        }
    }
    out
}

/// Resolves the link targets against `base`. Missing targets and targets
/// that do not resolve are passed over.
fn resolve_targets(base: &Url, targets: &Vec<Option<String>>) -> (out: Vec<Url>)
    ensures
        views(out@) == resolved(base@.text, option_texts(targets@)),
        all_wf(out@),
{
    let mut out: Vec<Url> = Vec::new();
    let mut i: usize = 0;
    let ghost wanted = option_texts(targets@);
    assert(wanted.take(0) =~= Seq::<Option<Seq<char>>>::empty());
    while i < targets.len()
        invariant
            i <= targets.len(),
            wanted == option_texts(targets@),
            views(out@) == resolved(base@.text, wanted.take(i as int)),
            all_wf(out@),
        decreases targets.len() - i,
    {
        proof {
            assert(wanted.take(i + 1).drop_last() =~= wanted.take(i as int));
            assert(wanted.take(i + 1).last() == wanted[i as int]);
        }
        match &targets[i] {
            Some(target) => {
                match base.join(target.as_str()) {
                    Some(url) => {
                        let ghost before = out@;
                        out.push(url);
                        assert(views(out@) =~= views(before).push(url@));
                    },
                    None => {},
                }
            },
            None => {},
        }
        i += 1;
    }
    assert(wanted.take(i as int) =~= wanted);
    out
}

/// Discovers the pages that belong with the page `html` of the address
/// `base_url`: extracts the targets of its hyperlinks, resolves them against
/// `base_url`, drops their fragments, and keeps the internal links as
/// [`select_links`] chooses them, `base_url` among them, sorted by their
/// texts.
pub fn extract_and_sort_links(base_url: &Url, html: &str) -> (out: Vec<Url>)
    ensures
        is_selection(base_url@, resolved(base_url@.text, link_targets(html@)), views(out@)),
        all_wf(out@),
        views(out@).contains(base_url@),
        forall|i: int|
            0 <= i < out.len() ==> (#[trigger] out[i])@ == base_url@ || out[i]@.host
                == base_url@.host,
{
    let targets = match select_attributes(html, LINK_SELECTOR, LINK_ATTRIBUTE) {
        Some(values) => values,
        None => Vec::new(),
    };
    assert(option_texts(targets@) =~= link_targets(html@));
    let candidates = resolve_targets(base_url, &targets);
    select_links(base_url, candidates.as_slice())
}

/// What discovery comes to from the whole exchange with the seed page:
/// `sent` is the status of the response, or what went wrong on the way, and
/// `body` what reading the body gives. A seed that cannot be retrieved ends
/// discovery with the failure of its fetch; the page of a seed that can
/// gives the links it selects.
pub open spec fn discovery_gives(
    seed: Url,
    sent: Result<HttpStatus, String>,
    body: Result<String, String>,
    out: Result<Vec<Url>, FetchError>,
) -> bool {
    match out {
        Ok(links) => {
            &&& sent matches Ok(status) && success_code(status.code)
            &&& body matches Ok(html) && is_selection(
                seed@,
                resolved(seed@.text, link_targets(html@)),
                views(links@),
            )
        },
        Err(error) => {
            &&& !(sent matches Ok(status) && success_code(status.code) && body is Ok)
            &&& exchange_gives(seed, sent, body, Err(error))
        },
    }
}

/// Discovers the pages that belong with the seed from the exchange with the
/// seed page. Discovery fails where the seed page was not retrieved: where
/// no response came, where the response has another status than success,
/// and where its body could not be read.
pub fn discover_links(
    seed: Url,
    sent: Result<HttpStatus, String>,
    body: Result<String, String>,
) -> (out: Result<Vec<Url>, FetchError>)
    ensures
        discovery_gives(seed, sent, body, out),
        out matches Ok(links) ==> all_wf(links@) && views(links@).contains(seed@),
{
    match fetch_page(seed, sent, body) {
        Ok(page) => Ok(extract_and_sort_links(&page.url, page.html.as_str())),
        Err(error) => Err(error),
    }
}

/// What discovery keeps is decided by the seed and the candidates: two
/// selections of the same are the same sequence.
pub proof fn lemma_selection_unique(
    seed: UrlView,
    candidates: Seq<UrlView>,
    a: Seq<UrlView>,
    b: Seq<UrlView>,
)
    requires
        is_selection(seed, candidates, a),
        is_selection(seed, candidates, b),
    ensures
        a == b,
{
    assert forall|u: UrlView| a.contains(u) <==> b.contains(u) by {}
    lemma_ascending_texts_unique(a, b);
}

/// Two sequences of URLs in ascending order of their texts that hold the
/// same URLs are equal.
pub proof fn lemma_ascending_texts_unique(a: Seq<UrlView>, b: Seq<UrlView>)
    requires
        ascending_texts(a),
        ascending_texts(b),
        forall|u: UrlView| a.contains(u) <==> b.contains(u),
    ensures
        a == b,
    decreases a.len(),
{
    if a.len() == 0 {
        if b.len() > 0 {
            assert(b.contains(b[0]));
        }
        assert(a =~= b);
    } else {
        assert(a.contains(a.last()));
        assert(b.contains(a.last()));
        let j = choose|j: int| 0 <= j < b.len() && b[j] == a.last();
        assert(b.contains(b.last()));
        assert(a.contains(b.last()));
        let i = choose|i: int| 0 <= i < a.len() && a[i] == b.last();
        if j < b.len() - 1 {
            assert(lex_lt(b[j].text, b.last().text));
            if i < a.len() - 1 {
                assert(lex_lt(a[i].text, a.last().text));
                lemma_lex_asymmetric(a[i].text, a.last().text);
            } else {
                lemma_lex_asymmetric(b[j].text, b.last().text);
            }
        }
        let a0 = a.drop_last();
        let b0 = b.drop_last();
        assert forall|u: UrlView| a0.contains(u) <==> b0.contains(u) by {
            if a0.contains(u) {
                let p = choose|p: int| 0 <= p < a0.len() && a0[p] == u;
                assert(a[p] == u);
                assert(a.contains(u));
                let q = choose|q: int| 0 <= q < b.len() && b[q] == u;
                assert(lex_lt(a[p].text, a.last().text));
                lemma_lex_asymmetric(a[p].text, a.last().text);
                assert(b0[q] == u);
            }
            if b0.contains(u) {
                let q = choose|q: int| 0 <= q < b0.len() && b0[q] == u;
                assert(b[q] == u);
                assert(b.contains(u));
                let p = choose|p: int| 0 <= p < a.len() && a[p] == u;
                assert(lex_lt(b[q].text, b.last().text));
                lemma_lex_asymmetric(b[q].text, b.last().text);
                assert(a0[p] == u);
            }
        }
        lemma_ascending_texts_unique(a0, b0);
        assert(a =~= a0.push(a.last()));
        assert(b =~= b0.push(b.last()));
    }
}

} // verus!
