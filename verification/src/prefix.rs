//! The prefix heuristic: which path prefix, if any, marks the content
//! section that most pages of a site share.

use crate::page_url::Url;
use crate::text::{
    chars_of, lemma_lex_asymmetric, lemma_lex_total, lemma_lex_transitive, less, lex_lt, same,
    string_of,
};
use rayon::iter::{IntoParallelRefIterator, ParallelIterator};
use vstd::prelude::*;

verus! {

/// `s` with every run of slashes collapsed to one slash.
pub open spec fn squeezed(s: Seq<char>) -> Seq<char>
    decreases s.len(),
{
    if s.len() == 0 {
        s
    } else {
        let head = squeezed(s.drop_last());
        if s.last() == '/' && head.len() > 0 && head.last() == '/' {
            head
        } else {
            head.push(s.last())
        }
    }
}

/// The segments of `path` between single slashes: a slash, then each
/// non-empty segment followed by a slash.
pub open spec fn framed(path: Seq<char>) -> Seq<char> {
    squeezed(seq!['/'] + path + seq!['/'])
}

/// The prefixes of `s` that end in a slash and are longer than one
/// character, the shortest first.
pub open spec fn slash_prefixes(s: Seq<char>) -> Seq<Seq<char>>
    decreases s.len(),
{
    if s.len() <= 1 {
        Seq::empty()
    } else if s.last() == '/' {
        slash_prefixes(s.drop_last()).push(s)
    } else {
        slash_prefixes(s.drop_last())
    }
}

/// The path prefixes of `path`, one for each of its non-empty segments:
/// `/docs/api/v2` has `/docs/`, `/docs/api/` and `/docs/api/v2/`.
pub open spec fn path_prefixes(path: Seq<char>) -> Seq<Seq<char>> {
    slash_prefixes(framed(path))
}

/// The path prefixes of all `paths`, those of the first path first.
pub open spec fn all_prefixes(paths: Seq<Seq<char>>) -> Seq<Seq<char>>
    decreases paths.len(),
{
    if paths.len() == 0 {
        Seq::empty()
    } else {
        all_prefixes(paths.drop_last()) + path_prefixes(paths.last())
    }
}

/// How often `item` stands in `list`.
pub open spec fn occurrences(list: Seq<Seq<char>>, item: Seq<char>) -> nat
    decreases list.len(),
{
    if list.len() == 0 {
        0
    } else {
        occurrences(list.drop_last(), item) + if list.last() == item {
            1nat
        } else {
            0nat
        }
    }
}

/// How often `prefix` occurs among the path prefixes of `paths`.
pub open spec fn prefix_count(paths: Seq<Seq<char>>, prefix: Seq<char>) -> nat {
    occurrences(all_prefixes(paths), prefix)
}

/// The count a prefix must reach among `total` pages: seven tenths of them,
/// rounded up, and never less than two.
pub open spec fn threshold(total: nat) -> nat {
    let share = (7 * total + 9) / 10;
    if share < 2 {
        2
    } else {
        share
    }
}

/// `best` reaches the threshold, no prefix occurs more often, and of the
/// prefixes that occur as often it is the first in lexicographic order.
pub open spec fn is_best_prefix(paths: Seq<Seq<char>>, best: Seq<char>) -> bool {
    &&& prefix_count(paths, best) >= threshold(paths.len())
    &&& forall|other: Seq<char>| prefix_count(paths, other) <= prefix_count(paths, best)
    &&& forall|other: Seq<char>|
        other != best && prefix_count(paths, other) == prefix_count(paths, best) ==> lex_lt(
            best,
            other,
        )
}

/// The prefix of the content section of `paths`, if any prefix reaches the
/// threshold.
pub open spec fn best_prefix(paths: Seq<Seq<char>>) -> Option<Seq<char>> {
    if exists|p: Seq<char>| is_best_prefix(paths, p) {
        Some(choose|p: Seq<char>| is_best_prefix(paths, p))
    } else {
        None
    }
}

/// The paths of the URLs, in their order.
pub open spec fn paths_of(urls: Seq<Url>) -> Seq<Seq<char>> {
    Seq::new(urls.len(), |i: int| urls[i]@.path)
}

/// The texts of the character vectors, in their order.
pub open spec fn texts(rows: Seq<Vec<char>>) -> Seq<Seq<char>> {
    Seq::new(rows.len(), |i: int| rows[i]@)
}

/// At most one prefix is the best.
pub proof fn lemma_best_prefix_unique(paths: Seq<Seq<char>>, a: Seq<char>, b: Seq<char>)
    requires
        is_best_prefix(paths, a),
        is_best_prefix(paths, b),
    ensures
        a == b,
{
    if a != b {
        assert(prefix_count(paths, a) <= prefix_count(paths, b));
        assert(prefix_count(paths, b) <= prefix_count(paths, a));
        lemma_lex_asymmetric(a, b);
    }
}

/// A prefix that reaches the threshold and occurs more often than any other
/// is the prefix of the content section.
pub proof fn lemma_most_frequent_is_best(paths: Seq<Seq<char>>, prefix: Seq<char>)
    requires
        prefix_count(paths, prefix) >= threshold(paths.len()),
        forall|other: Seq<char>|
            other != prefix ==> prefix_count(paths, other) < prefix_count(paths, prefix),
    ensures
        best_prefix(paths) == Some(prefix),
{
    assert(is_best_prefix(paths, prefix));
    lemma_best_prefix_unique(paths, prefix, choose|p: Seq<char>| is_best_prefix(paths, p));
}

/// Where no prefix reaches the threshold there is no content section.
pub proof fn lemma_below_threshold_is_none(paths: Seq<Seq<char>>)
    requires
        forall|prefix: Seq<char>| prefix_count(paths, prefix) < threshold(paths.len()),
    ensures
        best_prefix(paths) is None,
{
}

/// Where a prefix reaches the threshold there is a content section, and its
/// prefix reaches the threshold too.
pub proof fn lemma_section_reaches_threshold(paths: Seq<Seq<char>>)
    ensures
        match best_prefix(paths) {
            Some(best) => is_best_prefix(paths, best),
            None => true,
        },
{
}

/// An item occurs in a list at most as often as the list is long, and not
/// at all unless the list holds it.
pub proof fn lemma_occurrences_bounds(list: Seq<Seq<char>>, item: Seq<char>)
    ensures
        occurrences(list, item) <= list.len(),
        occurrences(list, item) > 0 <==> list.contains(item),
    decreases list.len(),
{
    if list.len() > 0 {
        lemma_occurrences_bounds(list.drop_last(), item);
        if list.drop_last().contains(item) {
            let i = choose|i: int| 0 <= i < list.drop_last().len() && list.drop_last()[i] == item;
            assert(list[i] == item);
        }
        if list.contains(item) {
            let i = choose|i: int| 0 <= i < list.len() && list[i] == item;
            if i < list.len() - 1 {
                assert(list.drop_last()[i] == item);
            }
        }
    }
}

/// Occurrences add up over a concatenation.
pub proof fn lemma_occurrences_add(a: Seq<Seq<char>>, b: Seq<Seq<char>>, item: Seq<char>)
    ensures
        occurrences(a + b, item) == occurrences(a, item) + occurrences(b, item),
    decreases b.len(),
{
    if b.len() == 0 {
        assert(a + b =~= a);
    } else {
        assert((a + b).drop_last() =~= a + b.drop_last());
        lemma_occurrences_add(a, b.drop_last(), item);
    }
}

/// The least count a prefix must reach among `total` pages.
pub fn threshold_of(total: usize) -> (out: usize)
    ensures
        out as nat == threshold(total as nat),
{
    let tens: usize = total / 10;
    let units: usize = total % 10;
    let share: usize = 7 * tens + (7 * units + 9) / 10;
    if share < 2 {
        2
    } else {
        share
    }
}

/// The path prefixes of `path`.
pub fn prefixes_of(path: &str) -> (out: Vec<Vec<char>>)
    ensures
        texts(out@) == path_prefixes(path@),
{
    let chars = chars_of(path);
    let ghost whole = seq!['/'] + path@ + seq!['/'];
    let mut frame: Vec<char> = Vec::new();
    frame.push('/');
    assert(frame@ =~= squeezed(whole.take(1))) by {
        assert(whole.take(1).drop_last() =~= Seq::<char>::empty());
        assert(squeezed(whole.take(1)) =~= seq!['/']) by {
            reveal_with_fuel(squeezed, 2);
        }
    }
    let mut i: usize = 0;
    while i < chars.len()
        invariant
            i <= chars.len(),
            chars@ == path@,
            whole == seq!['/'] + path@ + seq!['/'],
            frame@ == squeezed(whole.take(i + 1)),
            frame@.len() > 0,
        decreases chars.len() - i,
    {
        let c = chars[i];
        proof {
            assert(whole.take(i + 2).drop_last() =~= whole.take(i + 1));
            assert(whole.take(i + 2).last() == c);
        }
        if !(c == '/' && frame[frame.len() - 1] == '/') {
            frame.push(c);
        }
        i += 1;
    }
    proof {
        assert(whole.take(i + 2) =~= whole);
        assert(whole.drop_last() =~= whole.take(i + 1));
        assert(whole.last() == '/');
    }
    if frame[frame.len() - 1] != '/' {
        frame.push('/');
    }
    assert(frame@ == framed(path@));
    let mut out: Vec<Vec<char>> = Vec::new();
    let mut prefix: Vec<char> = Vec::new();
    let mut k: usize = 0;
    while k < frame.len()
        invariant
            k <= frame.len(),
            prefix@ == frame@.take(k as int),
            texts(out@) == slash_prefixes(frame@.take(k as int)),
        decreases frame.len() - k,
    {
        let c = frame[k];
        prefix.push(c);
        proof {
            assert(frame@.take(k + 1).drop_last() =~= frame@.take(k as int));
            assert(frame@.take(k + 1).last() == c);
            assert(prefix@ =~= frame@.take(k + 1));
        }
        if k >= 1 && c == '/' {
            let copy = copy_chars(&prefix);
            let ghost before = out@;
            out.push(copy);
            assert(texts(out@) =~= texts(before).push(prefix@));
        }
        k += 1;
    }
    assert(frame@.take(k as int) =~= frame@);
    out
}

/// A copy of `chars`.
pub fn copy_chars(chars: &Vec<char>) -> (out: Vec<char>)
    ensures
        out@ == chars@,
{
    let mut out: Vec<char> = Vec::new();
    let mut i: usize = 0;
    while i < chars.len()
        invariant
            i <= chars.len(),
            out@ == chars@.take(i as int),
        decreases chars.len() - i,
    {
        out.push(chars[i]);
        i += 1;
    }
    assert(chars@.take(i as int) =~= chars@);
    out
}

/// Hands the URLs to `rayon`'s parallel iterator, which calls
/// [`prefixes_of`] on the path of each, and collects what the calls return
/// into a vector: one list of prefixes for each URL, in the order of the
/// URLs.
#[verifier::external_body]
fn prefix_lists(urls: &[Url]) -> (out: Vec<Vec<Vec<char>>>)
    ensures
        out.len() == urls.len(),
        forall|i: int|
            0 <= i < urls.len() ==> texts((#[trigger] out[i])@) == path_prefixes(urls[i]@.path),
{
    urls.par_iter().map(|url| prefixes_of(url.path())).collect()
}

/// The prefixes of a text that end in a slash are beginnings of the text
/// that end in a slash, each longer than the one before.
pub proof fn lemma_slash_prefixes_grow(s: Seq<char>)
    ensures
        forall|a: int|
            0 <= a < slash_prefixes(s).len() ==> {
                let prefix = #[trigger] slash_prefixes(s)[a];
                &&& 2 <= prefix.len() <= s.len()
                &&& prefix == s.take(prefix.len() as int)
                &&& prefix.last() == '/'
            },
        forall|a: int, b: int|
            0 <= a < b < slash_prefixes(s).len() ==> slash_prefixes(s)[a].len() < slash_prefixes(
                s,
            )[b].len(),
    decreases s.len(),
{
    if s.len() > 1 {
        let shorter = slash_prefixes(s.drop_last());
        lemma_slash_prefixes_grow(s.drop_last());
        let list = slash_prefixes(s);
        assert forall|a: int| 0 <= a < list.len() implies {
            let prefix = #[trigger] list[a];
            &&& 2 <= prefix.len() <= s.len()
            &&& prefix == s.take(prefix.len() as int)
            &&& prefix.last() == '/'
        } by {
            if a < shorter.len() {
                assert(list[a] == shorter[a]);
                assert(s.drop_last().take(shorter[a].len() as int) =~= s.take(
                    shorter[a].len() as int,
                ));
            } else {
                assert(list[a] == s);
                assert(s.take(s.len() as int) =~= s);
            }
        }
        assert forall|a: int, b: int| 0 <= a < b < list.len() implies list[a].len()
            < list[b].len() by {
            assert(list[a] == shorter[a]);
            if b < shorter.len() {
                assert(list[b] == shorter[b]);
            }
        }
    }
}

/// The path prefixes of a path nest: each begins with a slash, ends with a
/// slash, and is the beginning of every later one.
pub proof fn lemma_path_prefixes_nest(path: Seq<char>)
    ensures
        forall|a: int|
            0 <= a < path_prefixes(path).len() ==> {
                let prefix = #[trigger] path_prefixes(path)[a];
                prefix.len() >= 2 && prefix[0] == '/' && prefix.last() == '/'
            },
        forall|a: int, b: int|
            0 <= a < b < path_prefixes(path).len() ==> path_prefixes(path)[a].is_prefix_of(
                path_prefixes(path)[b],
            ),
{
    let frame = framed(path);
    let list = path_prefixes(path);
    lemma_slash_prefixes_grow(frame);
    lemma_squeezed_first(seq!['/'] + path + seq!['/']);
    assert forall|a: int| 0 <= a < list.len() implies {
        let prefix = #[trigger] list[a];
        prefix.len() >= 2 && prefix[0] == '/' && prefix.last() == '/'
    } by {
        assert(list[a] == frame.take(list[a].len() as int));
    }
    assert forall|a: int, b: int| 0 <= a < b < list.len() implies list[a].is_prefix_of(
        list[b],
    ) by {
        assert(list[a] == frame.take(list[a].len() as int));
        assert(list[b] == frame.take(list[b].len() as int));
        assert(list[a] =~= list[b].subrange(0, list[a].len() as int));
    }
}

/// Collapsing the slashes of a text leaves its first character in place.
proof fn lemma_squeezed_first(s: Seq<char>)
    requires
        s.len() > 0,
    ensures
        squeezed(s).len() > 0,
        squeezed(s)[0] == s[0],
    decreases s.len(),
{
    if s.len() > 1 {
        lemma_squeezed_first(s.drop_last());
    } else {
        assert(squeezed(s.drop_last()).len() == 0);
    }
}

/// A text occurs at most once among the first `n` of the path prefixes of a
/// path.
pub proof fn lemma_prefix_once(path: Seq<char>, n: int, item: Seq<char>)
    requires
        0 <= n <= path_prefixes(path).len(),
    ensures
        occurrences(path_prefixes(path).take(n), item) <= 1,
    decreases n,
{
    let list = path_prefixes(path);
    if n > 0 {
        lemma_prefix_once(path, n - 1, item);
        assert(list.take(n).drop_last() =~= list.take(n - 1));
        if list.take(n).last() == item {
            lemma_slash_prefixes_grow(framed(path));
            lemma_occurrences_bounds(list.take(n - 1), item);
            let earlier = list.take(n - 1);
            if earlier.contains(item) {
                let i = choose|i: int| 0 <= i < earlier.len() && earlier[i] == item;
                assert(list[i].len() < list[n - 1].len());
            }
        }
    }
}

/// No prefix is counted more often than there are paths.
pub proof fn lemma_count_bounded(paths: Seq<Seq<char>>, prefix: Seq<char>)
    ensures
        prefix_count(paths, prefix) <= paths.len(),
    decreases paths.len(),
{
    if paths.len() > 0 {
        lemma_count_bounded(paths.drop_last(), prefix);
        lemma_occurrences_add(all_prefixes(paths.drop_last()), path_prefixes(paths.last()), prefix);
        let list = path_prefixes(paths.last());
        lemma_prefix_once(paths.last(), list.len() as int, prefix);
        assert(list.take(list.len() as int) =~= list);
    }
}

/// `prefixes` holds each text of `seen` once, and `counts` holds beside it
/// how often `seen` has it.
pub open spec fn tallies(
    prefixes: Seq<Vec<char>>,
    counts: Seq<usize>,
    seen: Seq<Seq<char>>,
) -> bool {
    &&& prefixes.len() == counts.len()
    &&& forall|e: int|
        0 <= e < prefixes.len() ==> counts[e] as nat == occurrences(seen, #[trigger] prefixes[e]@)
    &&& forall|e: int, f: int|
        0 <= e < f < prefixes.len() ==> (#[trigger] prefixes[e])@ != (#[trigger] prefixes[f])@
    &&& forall|q: Seq<char>| #[trigger]
        occurrences(seen, q) > 0 ==> exists|e: int|
            0 <= e < prefixes.len() && (#[trigger] prefixes[e])@ == q
}

/// Where `item` stands in `rows`.
fn position_of(rows: &Vec<Vec<char>>, item: &Vec<char>) -> (out: Option<usize>)
    ensures
        match out {
            Some(at) => at < rows.len() && rows[at as int]@ == item@,
            None => forall|i: int| 0 <= i < rows.len() ==> (#[trigger] rows[i])@ != item@,
        },
{
    let mut i: usize = 0;
    while i < rows.len()
        invariant
            i <= rows.len(),
            forall|k: int| 0 <= k < i ==> (#[trigger] rows[k])@ != item@,
        decreases rows.len() - i,
    {
        if same(&rows[i], item) {
            return Some(i);
        }
        i += 1;
    }
    None
}

/// Counts `item` once more in the tally.
fn count_in(
    prefixes: &mut Vec<Vec<char>>,
    counts: &mut Vec<usize>,
    item: &Vec<char>,
    Ghost(seen): Ghost<Seq<Seq<char>>>,
)
    requires
        tallies(old(prefixes)@, old(counts)@, seen),
        occurrences(seen, item@) < usize::MAX,
    ensures
        tallies(final(prefixes)@, final(counts)@, seen.push(item@)),
{
    let ghost next = seen.push(item@);
    assert(next.drop_last() =~= seen);
    match position_of(prefixes, item) {
        Some(at) => {
            let ghost before = counts@;
            let n: usize = counts[at];
            counts.set(at, n + 1);
            assert forall|q: Seq<char>| #[trigger] occurrences(next, q) > 0 implies exists|e: int|
                0 <= e < prefixes.len() && (#[trigger] prefixes[e])@ == q by {
                if q != item@ {
                    assert(occurrences(seen, q) > 0);
                }
            }
            assert forall|e: int| 0 <= e < prefixes.len() implies counts[e] as nat
                == occurrences(next, #[trigger] prefixes[e]@) by {
                if e != at {
                    assert(counts[e] == before[e]);
                    if e < at {
                        assert(prefixes[e]@ != prefixes[at as int]@);
                    } else {
                        assert(prefixes[at as int]@ != prefixes[e]@);
                    }
                }
            }
        },
        None => {
            let ghost old_prefixes = prefixes@;
            let ghost old_counts = counts@;
            assert(occurrences(seen, item@) == 0) by {
                if occurrences(seen, item@) > 0 {
                    let e = choose|e: int|
                        0 <= e < prefixes.len() && (#[trigger] prefixes[e])@ == item@;
                    assert(prefixes[e]@ != item@);
                }
            }
            prefixes.push(copy_chars(item));
            counts.push(1);
            assert forall|q: Seq<char>| #[trigger] occurrences(next, q) > 0 implies exists|e: int|
                0 <= e < prefixes.len() && (#[trigger] prefixes[e])@ == q by {
                if q != item@ {
                    assert(occurrences(seen, q) > 0);
                    let e = choose|e: int|
                        0 <= e < old_prefixes.len() && (#[trigger] old_prefixes[e])@ == q;
                    assert(prefixes[e]@ == q);
                } else {
                    assert(prefixes[prefixes.len() - 1]@ == q);
                }
            }
            assert forall|e: int| 0 <= e < prefixes.len() implies counts[e] as nat
                == occurrences(next, #[trigger] prefixes[e]@) by {
                if e < old_prefixes.len() {
                    assert(prefixes[e] == old_prefixes[e]);
                    assert(counts[e] == old_counts[e]);
                }
            }
            assert forall|e: int, f: int| 0 <= e < f < prefixes.len() implies (
            #[trigger] prefixes[e])@ != (#[trigger] prefixes[f])@ by {
                assert(prefixes[e] == old_prefixes[e]);
                if f < old_prefixes.len() {
                    assert(prefixes[f] == old_prefixes[f]);
                }
            }
        },
    }
}

/// The entry at `best` reaches `least`, and none of the first `upto`
/// entries is better: none has a greater count, and none of the same count
/// comes before it in lexicographic order.
pub open spec fn leads(
    prefixes: Seq<Vec<char>>,
    counts: Seq<usize>,
    least: usize,
    upto: int,
    best: int,
) -> bool {
    &&& 0 <= best < upto
    &&& counts[best] >= least
    &&& forall|e: int|
        0 <= e < upto && e != best ==> (#[trigger] counts[e]) < counts[best] || (counts[e]
            == counts[best] && lex_lt(prefixes[best]@, prefixes[e]@))
}

/// The entry of the tally that is the best prefix, if any reaches `least`.
fn best_entry(prefixes: &Vec<Vec<char>>, counts: &Vec<usize>, least: usize) -> (out: Option<usize>)
    requires
        prefixes.len() == counts.len(),
        forall|e: int, f: int|
            0 <= e < f < prefixes.len() ==> (#[trigger] prefixes[e])@ != (#[trigger] prefixes[f])@,
    ensures
        match out {
            Some(best) => leads(prefixes@, counts@, least, prefixes.len() as int, best as int),
            None => forall|e: int| 0 <= e < counts.len() ==> counts[e] < least,
        },
{
    let mut best: Option<usize> = None;
    let mut t: usize = 0;
    while t < prefixes.len()
        invariant
            t <= prefixes.len(),
            prefixes.len() == counts.len(),
            forall|e: int, f: int|
                0 <= e < f < prefixes.len() ==> (#[trigger] prefixes[e])@ != (
                #[trigger] prefixes[f])@,
            match best {
                Some(b) => leads(prefixes@, counts@, least, t as int, b as int),
                None => forall|e: int| 0 <= e < t ==> counts[e] < least,
            },
        decreases prefixes.len() - t,
    {
        if counts[t] >= least {
            match best {
                None => {
                    best = Some(t);
                },
                Some(b) => {
                    proof {
                        lemma_lex_total(prefixes[t as int]@, prefixes[b as int]@);
                    }
                    if counts[t] > counts[b] || (counts[t] == counts[b] && less(
                        &prefixes[t],
                        &prefixes[b],
                    )) {
                        proof {
                            assert forall|e: int|
                                0 <= e < t && e != b && #[trigger] counts[e]
                                    == counts[t as int] implies lex_lt(
                                prefixes[t as int]@,
                                prefixes[e]@,
                            ) by {
                                lemma_lex_transitive(
                                    prefixes[t as int]@,
                                    prefixes[b as int]@,
                                    prefixes[e]@,
                                );
                            }
                        }
                        best = Some(t);
                    }
                },
            }
        }
        t += 1;
    }
    best
}

/// The text of an optional string.
pub open spec fn prefix_text(prefix: Option<String>) -> Option<Seq<char>> {
    match prefix {
        Some(p) => Some(p@),
        None => None,
    }
}

/// Finds the path prefix that most of the URLs share: of the prefixes that
/// at least seven tenths of the URLs have, and at least two, the one that
/// occurs most often, the first in lexicographic order among equals. `None`
/// where no prefix occurs that often.
pub fn find_best_prefix(urls: &[Url]) -> (out: Option<String>)
    ensures
        prefix_text(out) == best_prefix(paths_of(urls@)),
        match out {
            Some(best) => is_best_prefix(paths_of(urls@), best@),
            None => forall|p: Seq<char>|
                prefix_count(paths_of(urls@), p) < threshold(urls@.len()),
        },
{
    let ghost paths = paths_of(urls@);
    let lists = prefix_lists(urls);
    let mut prefixes: Vec<Vec<char>> = Vec::new();
    let mut counts: Vec<usize> = Vec::new();
    let mut i: usize = 0;
    assert(paths.take(0) =~= Seq::<Seq<char>>::empty());
    while i < lists.len()
        invariant
            i <= lists.len(),
            lists.len() == urls.len(),
            paths == paths_of(urls@),
            forall|k: int|
                0 <= k < urls.len() ==> texts((#[trigger] lists[k])@) == path_prefixes(
                    urls[k]@.path,
                ),
            tallies(prefixes@, counts@, all_prefixes(paths.take(i as int))),
        decreases lists.len() - i,
    {
        let list = &lists[i];
        let ghost done = all_prefixes(paths.take(i as int));
        let ghost wanted = path_prefixes(paths[i as int]);
        let mut j: usize = 0;
        assert(done + wanted.take(0) =~= done);
        while j < list.len()
            invariant
                j <= list.len(),
                i < lists.len(),
                lists.len() == urls.len(),
                paths == paths_of(urls@),
                done == all_prefixes(paths.take(i as int)),
                wanted == path_prefixes(paths[i as int]),
                texts(list@) == wanted,
                tallies(prefixes@, counts@, done + wanted.take(j as int)),
            decreases list.len() - j,
        {
            let ghost seen = done + wanted.take(j as int);
            proof {
                lemma_occurrences_add(done, wanted.take(j as int), list[j as int]@);
                lemma_count_bounded(paths.take(i as int), list[j as int]@);
                lemma_prefix_once(paths[i as int], j + 1, list[j as int]@);
                assert(wanted[j as int] == list[j as int]@);
                assert(wanted.take(j + 1).drop_last() =~= wanted.take(j as int));
                assert(occurrences(wanted.take(j as int), list[j as int]@) == 0);
                assert(seen.push(list[j as int]@) =~= done + wanted.take(j + 1));
            }
            count_in(&mut prefixes, &mut counts, &list[j], Ghost(seen));
            j += 1;
        }
        proof {
            assert(wanted.take(j as int) =~= wanted);
            assert(paths.take(i + 1).drop_last() =~= paths.take(i as int));
            assert(paths.take(i + 1).last() == paths[i as int]);
        }
        i += 1;
    }
    assert(paths.take(i as int) =~= paths);
    let least = threshold_of(urls.len());
    let ghost all = all_prefixes(paths);
    match best_entry(&prefixes, &counts, least) {
        Some(b) => {
            let found = string_of(&prefixes[b]);
            proof {
                let best = prefixes[b as int]@;
                assert forall|other: Seq<char>| prefix_count(paths, other) <= prefix_count(
                    paths,
                    best,
                ) && (other != best && prefix_count(paths, other) == prefix_count(paths, best)
                    ==> lex_lt(best, other)) by {
                    if occurrences(all, other) > 0 {
                        let e = choose|e: int|
                            0 <= e < prefixes.len() && (#[trigger] prefixes[e])@ == other;
                        assert(counts[e] as nat == occurrences(all, prefixes[e]@));
                    }
                }
                assert(is_best_prefix(paths, best));
                let chosen = choose|p: Seq<char>| is_best_prefix(paths, p);
                lemma_best_prefix_unique(paths, best, chosen);
            }
            Some(found)
        },
        None => {
            proof {
                assert forall|p: Seq<char>| prefix_count(paths, p) < threshold(
                    urls@.len(),
                ) by {
                    if occurrences(all, p) > 0 {
                        let e = choose|e: int|
                            0 <= e < prefixes.len() && (#[trigger] prefixes[e])@ == p;
                        assert(counts[e] as nat == occurrences(all, prefixes[e]@));
                    }
                }
                assert(forall|p: Seq<char>| !is_best_prefix(paths, p));
            }
            None
        },
    }
}

} // verus!
