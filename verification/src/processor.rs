//! Puts fetched pages, which arrive in the order their fetches completed,
//! back into the order of the URL list they were fetched from.

use crate::models::PageData;
use crate::page_url::Url;
use crate::stable::{
    ascending, distinct_keys, key_decides, lemma_sorted_ascends, lemma_sorted_distinct_is_strict,
    lemma_sorted_ignores_order, lemma_sorted_permutes, sort_by_keys, stable_sorted,
    strictly_ascending,
};
use vstd::prelude::*;

verus! {

/// The URL `text` stands in `order` at `i` and nowhere behind it.
pub open spec fn last_at(order: Seq<Url>, text: Seq<char>, i: int) -> bool {
    &&& 0 <= i < order.len()
    &&& order[i]@.text == text
    &&& forall|j: int| i < j < order.len() ==> order[j]@.text != text
}

/// The URL `text` stands in `order`.
pub open spec fn listed(order: Seq<Url>, text: Seq<char>) -> bool {
    exists|i: int| 0 <= i < order.len() && order[i]@.text == text
}

/// The rank of the URL `text`: the last place it has in `order`, and
/// `order.len()`, behind every place, where it has none.
pub open spec fn rank_in(order: Seq<Url>, text: Seq<char>) -> int {
    if exists|i: int| last_at(order, text, i) {
        choose|i: int| last_at(order, text, i)
    } else {
        order.len() as int
    }
}

/// The rank of a page: that of its URL.
pub open spec fn page_rank(order: Seq<Url>) -> spec_fn(PageData) -> int {
    |page: PageData| rank_in(order, page.url@.text)
}

/// The pages in the order of `order`: by ascending rank, pages of one rank in
/// the order they came in.
pub open spec fn reordered(pages: Seq<PageData>, order: Seq<Url>) -> Seq<PageData> {
    stable_sorted(pages, page_rank(order))
}

/// The rank of `url` in `order`.
pub fn rank_of(order: &[Url], url: &Url) -> (rank: usize)
    ensures
        rank as int == rank_in(order@, url@.text),
        rank <= order.len(),
        rank < order.len() <==> listed(order@, url@.text),
{
    let mut i: usize = order.len();
    while i > 0
        invariant
            i <= order.len(),
            forall|j: int| i <= j < order.len() ==> order@[j]@.text != url@.text,
        decreases i,
    {
        if order[i - 1].same_as(url) {
            assert(last_at(order@, url@.text, i - 1));
            assert forall|k: int| last_at(order@, url@.text, k) implies k == i - 1 by {}
            return i - 1;
        }
        i -= 1;
    }
    order.len()
}

/// Sorts `pages` by the place their URLs have in `url_order`. A page whose
/// URL is not in the list goes behind all that are; pages of one URL keep
/// their order.
pub fn sort_pages_by_url_order(pages: Vec<PageData>, url_order: &[Url]) -> (out: Vec<PageData>)
    ensures
        out@ == reordered(pages@, url_order@),
{
    let mut keys: Vec<usize> = Vec::new();
    let mut i: usize = 0;
    while i < pages.len()
        invariant
            i <= pages.len(),
            keys.len() == i,
            forall|j: int| 0 <= j < i ==> keys[j] as int == page_rank(url_order@)(pages[j]),
        decreases pages.len() - i,
    {
        keys.push(rank_of(url_order, &pages[i].url));
        i += 1;
    }
    sort_by_keys(pages, &keys, Ghost(page_rank(url_order@)))
}

/// Ranks tell the listed URLs apart.
pub proof fn lemma_rank_decides(order: Seq<Url>, a: Seq<char>, b: Seq<char>)
    requires
        listed(order, a),
        rank_in(order, a) == rank_in(order, b),
    ensures
        a == b,
{
    lemma_rank_of_listed(order, a);
    if listed(order, b) {
        lemma_rank_of_listed(order, b);
    }
}

/// A listed URL has its rank at the last place that holds it.
pub proof fn lemma_rank_of_listed(order: Seq<Url>, text: Seq<char>)
    requires
        listed(order, text),
    ensures
        last_at(order, text, rank_in(order, text)),
{
    lemma_last_exists(order, text, order.len() as int);
}

proof fn lemma_last_exists(order: Seq<Url>, text: Seq<char>, from: int)
    requires
        0 <= from <= order.len(),
        exists|i: int| 0 <= i < from && order[i]@.text == text,
        forall|j: int| from <= j < order.len() ==> order[j]@.text != text,
    ensures
        exists|i: int| last_at(order, text, i),
    decreases from,
{
    if order[from - 1]@.text == text {
        assert(last_at(order, text, from - 1));
    } else {
        lemma_last_exists(order, text, from - 1);
    }
}

/// The pages come out in the order of the URL list, whatever the order in
/// which their fetches completed: where `first` and `second` hold the same
/// pages, both are reordered to one and the same sequence. It holds exactly
/// those pages, and no page stands before one whose URL has an earlier place
/// in `order`. This is so where pages of one rank are one and the same page,
/// as the pages of different URLs of `order` are.
pub proof fn lemma_order_preserved(order: Seq<Url>, first: Seq<PageData>, second: Seq<PageData>)
    requires
        first.to_multiset() == second.to_multiset(),
        key_decides(first, page_rank(order)),
    ensures
        reordered(first, order) == reordered(second, order),
        reordered(first, order).to_multiset() == first.to_multiset(),
        ascending(reordered(first, order), page_rank(order)),
{
    let key = page_rank(order);
    lemma_sorted_ignores_order(first, second, key);
    lemma_sorted_permutes(first, key);
    lemma_sorted_ascends(first, key);
}

/// Pages of different URLs of `order` have different ranks: each is the
/// only page of its rank, and in the reordered sequence each stands before
/// every page whose URL has a later place in `order`.
pub proof fn lemma_listed_pages_have_their_own_rank(order: Seq<Url>, pages: Seq<PageData>)
    requires
        forall|i: int, j: int|
            0 <= i < j < pages.len() ==> pages[i].url@.text != pages[j].url@.text,
        forall|i: int| 0 <= i < pages.len() ==> listed(order, #[trigger] pages[i].url@.text),
    ensures
        key_decides(pages, page_rank(order)),
        strictly_ascending(reordered(pages, order), page_rank(order)),
{
    let key = page_rank(order);
    assert forall|i: int, j: int| 0 <= i < j < pages.len() implies key(pages[i]) != key(
        pages[j],
    ) by {
        if key(pages[i]) == key(pages[j]) {
            lemma_rank_decides(order, pages[i].url@.text, pages[j].url@.text);
        }
    }
    assert(distinct_keys(pages, key));
    lemma_sorted_distinct_is_strict(pages, key);
}

} // verus!
