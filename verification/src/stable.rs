//! Stable sorting of a sequence by an integer key.
//!
//! [`stable_sorted`] says what the sorted sequence is; the lemmas state what
//! makes it a stable sort: it ascends, it holds the same items, and items of
//! equal key keep their order.

use vstd::prelude::*;
use vstd::seq_lib::{to_multiset_build, to_multiset_contains, to_multiset_insert, to_multiset_len};

verus! {

/// The items whose key lies below `bound`.
pub open spec fn key_below<T>(key: spec_fn(T) -> int, bound: int) -> spec_fn(T) -> bool {
    |x: T| key(x) < bound
}

/// The items whose key is `bound` or more.
pub open spec fn key_from<T>(key: spec_fn(T) -> int, bound: int) -> spec_fn(T) -> bool {
    |x: T| key(x) >= bound
}

/// The items whose key is `k`.
pub open spec fn key_is<T>(key: spec_fn(T) -> int, k: int) -> spec_fn(T) -> bool {
    |x: T| key(x) == k
}

/// `x` put into `sorted`: behind the items of smaller key, before all
/// others.
pub open spec fn placed<T>(x: T, sorted: Seq<T>, key: spec_fn(T) -> int) -> Seq<T> {
    sorted.filter(key_below(key, key(x))).push(x) + sorted.filter(key_from(key, key(x)))
}

/// The items of `s` in ascending order of their keys, items of equal key in
/// the order they have in `s`.
pub open spec fn stable_sorted<T>(s: Seq<T>, key: spec_fn(T) -> int) -> Seq<T>
    decreases s.len(),
{
    if s.len() == 0 {
        s
    } else {
        placed(s[0], stable_sorted(s.drop_first(), key), key)
    }
}

/// No item is followed by one of smaller key.
pub open spec fn ascending<T>(s: Seq<T>, key: spec_fn(T) -> int) -> bool {
    forall|i: int, j: int| 0 <= i < j < s.len() ==> key(s[i]) <= key(s[j])
}

/// Every item is followed by items of greater key only.
pub open spec fn strictly_ascending<T>(s: Seq<T>, key: spec_fn(T) -> int) -> bool {
    forall|i: int, j: int| 0 <= i < j < s.len() ==> key(s[i]) < key(s[j])
}

/// No two places of `s` hold items of the same key.
pub open spec fn distinct_keys<T>(s: Seq<T>, key: spec_fn(T) -> int) -> bool {
    forall|i: int, j: int| 0 <= i < j < s.len() ==> key(s[i]) != key(s[j])
}

proof fn lemma_filter_all<T>(s: Seq<T>, p: spec_fn(T) -> bool)
    requires
        forall|i: int| 0 <= i < s.len() ==> p(#[trigger] s[i]),
    ensures
        s.filter(p) == s,
    decreases s.len(),
{
    reveal(Seq::filter);
    if s.len() > 0 {
        lemma_filter_all(s.drop_last(), p);
        assert(s.drop_last().push(s.last()) =~= s);
    }
}

proof fn lemma_filter_none<T>(s: Seq<T>, p: spec_fn(T) -> bool)
    requires
        forall|i: int| 0 <= i < s.len() ==> !p(#[trigger] s[i]),
    ensures
        s.filter(p) == Seq::<T>::empty(),
    decreases s.len(),
{
    reveal(Seq::filter);
    if s.len() > 0 {
        lemma_filter_none(s.drop_last(), p);
    } else {
        assert(s =~= Seq::<T>::empty());
    }
}

/// Where the keys below `key(x)` fill exactly the first `pos` places of `s`,
/// placing `x` is inserting it at `pos`.
pub proof fn lemma_placed_is_insert<T>(x: T, s: Seq<T>, key: spec_fn(T) -> int, pos: int)
    requires
        0 <= pos <= s.len(),
        forall|i: int| 0 <= i < pos ==> key(#[trigger] s[i]) < key(x),
        forall|i: int| pos <= i < s.len() ==> key(#[trigger] s[i]) >= key(x),
    ensures
        placed(x, s, key) == s.insert(pos, x),
{
    let below = key_below(key, key(x));
    let from = key_from(key, key(x));
    let head = s.take(pos);
    let tail = s.skip(pos);
    assert(s =~= head + tail);
    Seq::filter_distributes_over_add(head, tail, below);
    Seq::filter_distributes_over_add(head, tail, from);
    lemma_filter_all(head, below);
    lemma_filter_none(tail, below);
    lemma_filter_none(head, from);
    lemma_filter_all(tail, from);
    assert(head + Seq::<T>::empty() =~= head);
    assert(Seq::<T>::empty() + tail =~= tail);
    assert(s.insert(pos, x) =~= head.push(x) + tail);
}

/// The number of leading items of `s` whose key lies below `bound`.
pub open spec fn lead<T>(s: Seq<T>, key: spec_fn(T) -> int, bound: int) -> int
    decreases s.len(),
{
    if s.len() == 0 || key(s[0]) >= bound {
        0
    } else {
        1 + lead(s.drop_first(), key, bound)
    }
}

proof fn lemma_lead<T>(s: Seq<T>, key: spec_fn(T) -> int, bound: int)
    requires
        ascending(s, key),
    ensures
        0 <= lead(s, key, bound) <= s.len(),
        forall|i: int| 0 <= i < lead(s, key, bound) ==> key(#[trigger] s[i]) < bound,
        forall|i: int| lead(s, key, bound) <= i < s.len() ==> key(#[trigger] s[i]) >= bound,
    decreases s.len(),
{
    if s.len() > 0 && key(s[0]) < bound {
        let rest = s.drop_first();
        assert forall|i: int, j: int| 0 <= i < j < rest.len() implies key(rest[i]) <= key(
            rest[j],
        ) by {
            assert(rest[i] == s[i + 1] && rest[j] == s[j + 1]);
        }
        lemma_lead(rest, key, bound);
        assert forall|i: int| 0 <= i < lead(s, key, bound) implies key(#[trigger] s[i])
            < bound by {
            if i > 0 {
                assert(s[i] == rest[i - 1]);
            }
        }
        assert forall|i: int| lead(s, key, bound) <= i < s.len() implies key(#[trigger] s[i])
            >= bound by {
            assert(s[i] == rest[i - 1]);
        }
    } else if s.len() > 0 {
        assert forall|i: int| 0 <= i < s.len() implies key(#[trigger] s[i]) >= bound by {
            if i > 0 {
                assert(key(s[0]) <= key(s[i]));
            }
        }
    }
}

proof fn lemma_insert_ascending<T>(x: T, s: Seq<T>, key: spec_fn(T) -> int, pos: int)
    requires
        ascending(s, key),
        0 <= pos <= s.len(),
        forall|i: int| 0 <= i < pos ==> key(#[trigger] s[i]) < key(x),
        forall|i: int| pos <= i < s.len() ==> key(#[trigger] s[i]) >= key(x),
    ensures
        ascending(s.insert(pos, x), key),
{
    let r = s.insert(pos, x);
    s.insert_ensures(pos, x);
    assert forall|i: int, j: int| 0 <= i < j < r.len() implies key(r[i]) <= key(r[j]) by {
        if i < pos {
            assert(r[i] == s[i]);
        } else if i > pos {
            assert(r[i] == s[i - 1]);
        }
        if j < pos {
            assert(r[j] == s[j]);
        } else if j > pos {
            assert(r[j] == s[j - 1]);
        }
    }
}

/// The sorted sequence ascends.
pub proof fn lemma_sorted_ascends<T>(s: Seq<T>, key: spec_fn(T) -> int)
    ensures
        ascending(stable_sorted(s, key), key),
    decreases s.len(),
{
    if s.len() > 0 {
        let rest = stable_sorted(s.drop_first(), key);
        lemma_sorted_ascends(s.drop_first(), key);
        let pos = lead(rest, key, key(s[0]));
        lemma_lead(rest, key, key(s[0]));
        lemma_placed_is_insert(s[0], rest, key, pos);
        lemma_insert_ascending(s[0], rest, key, pos);
    }
}

/// The sorted sequence holds the items of `s`, each as often as `s` holds
/// it.
pub proof fn lemma_sorted_permutes<T>(s: Seq<T>, key: spec_fn(T) -> int)
    ensures
        stable_sorted(s, key).to_multiset() == s.to_multiset(),
        stable_sorted(s, key).len() == s.len(),
    decreases s.len(),
{
    if s.len() > 0 {
        let rest = stable_sorted(s.drop_first(), key);
        lemma_sorted_permutes(s.drop_first(), key);
        lemma_sorted_ascends(s.drop_first(), key);
        let pos = lead(rest, key, key(s[0]));
        lemma_lead(rest, key, key(s[0]));
        lemma_placed_is_insert(s[0], rest, key, pos);
        to_multiset_insert(rest, pos, s[0]);
        to_multiset_insert(s.drop_first(), 0, s[0]);
        assert(s.drop_first().insert(0, s[0]) =~= s);
        rest.insert_ensures(pos, s[0]);
    }
}

/// Items of one key stand in the sorted sequence in the order they have in
/// `s`.
pub proof fn lemma_sorted_keeps_order_of_equals<T>(s: Seq<T>, key: spec_fn(T) -> int, k: int)
    ensures
        stable_sorted(s, key).filter(key_is(key, k)) == s.filter(key_is(key, k)),
    decreases s.len(),
{
    let is_k = key_is(key, k);
    if s.len() > 0 {
        let x = s[0];
        let rest = stable_sorted(s.drop_first(), key);
        lemma_sorted_keeps_order_of_equals(s.drop_first(), key, k);
        lemma_sorted_ascends(s.drop_first(), key);
        let pos = lead(rest, key, key(x));
        lemma_lead(rest, key, key(x));
        lemma_placed_is_insert(x, rest, key, pos);
        let head = rest.take(pos);
        let tail = rest.skip(pos);
        assert(rest =~= head + tail);
        assert(rest.insert(pos, x) =~= head.push(x) + tail);
        Seq::filter_distributes_over_add(head, tail, is_k);
        Seq::filter_distributes_over_add(head.push(x), tail, is_k);
        head.lemma_filter_push(x, is_k);
        assert(s =~= seq![x] + s.drop_first());
        Seq::filter_distributes_over_add(seq![x], s.drop_first(), is_k);
        Seq::<T>::empty().lemma_filter_push(x, is_k);
        assert(Seq::<T>::empty().push(x) =~= seq![x]);
        lemma_filter_none(Seq::<T>::empty(), is_k);
        if key(x) == k {
            lemma_filter_none(head, is_k);
            assert(seq![x] + s.drop_first().filter(is_k) =~= Seq::<T>::empty().push(x)
                + tail.filter(is_k)) by {
                assert(Seq::<T>::empty() + tail.filter(is_k) =~= tail.filter(is_k));
            }
        } else {
            assert(Seq::<T>::empty() + s.drop_first().filter(is_k) =~= s.drop_first().filter(
                is_k,
            ));
        }
    }
}

/// Two strictly ascending sequences that hold the same items are equal.
pub proof fn lemma_strictly_ascending_unique<T>(a: Seq<T>, b: Seq<T>, key: spec_fn(T) -> int)
    requires
        strictly_ascending(a, key),
        strictly_ascending(b, key),
        forall|x: T| a.contains(x) <==> b.contains(x),
    ensures
        a == b,
    decreases a.len(),
{
    if a.len() == 0 {
        if b.len() > 0 {
            assert(b.contains(b[0]));
        }
        assert(a =~= b);
    } else {
        assert(a.contains(a.last()));
        assert(b.contains(a.last()));
        let j = choose|j: int| 0 <= j < b.len() && b[j] == a.last();
        assert(b.contains(b.last()));
        assert(a.contains(b.last()));
        let i = choose|i: int| 0 <= i < a.len() && a[i] == b.last();
        assert(j == b.len() - 1);
        let a0 = a.drop_last();
        let b0 = b.drop_last();
        assert forall|x: T| a0.contains(x) <==> b0.contains(x) by {
            if a0.contains(x) {
                let p = choose|p: int| 0 <= p < a0.len() && a0[p] == x;
                assert(a[p] == x);
                assert(a.contains(x));
                let q = choose|q: int| 0 <= q < b.len() && b[q] == x;
                assert(key(a[p]) < key(a.last()));
                assert(b0[q] == x);
            }
            if b0.contains(x) {
                let q = choose|q: int| 0 <= q < b0.len() && b0[q] == x;
                assert(b[q] == x);
                assert(b.contains(x));
                let p = choose|p: int| 0 <= p < a.len() && a[p] == x;
                assert(key(b[q]) < key(b.last()));
                assert(a0[p] == x);
            }
        }
        lemma_strictly_ascending_unique(a0, b0, key);
        assert(a =~= a0.push(a.last()));
        assert(b =~= b0.push(b.last()));
    }
}

/// Sorting a sequence of distinct keys gives a strictly ascending one.
pub proof fn lemma_sorted_distinct_is_strict<T>(s: Seq<T>, key: spec_fn(T) -> int)
    requires
        distinct_keys(s, key),
    ensures
        strictly_ascending(stable_sorted(s, key), key),
{
    let r = stable_sorted(s, key);
    lemma_sorted_ascends(s, key);
    lemma_sorted_permutes(s, key);
    assert(s.no_duplicates());
    s.lemma_multiset_has_no_duplicates();
    r.lemma_multiset_has_no_duplicates_conv();
    assert forall|i: int, j: int| 0 <= i < j < r.len() implies key(r[i]) < key(r[j]) by {
        assert(r[i] != r[j]);
        assert(r.contains(r[i]) && r.contains(r[j]));
        to_multiset_contains(r, r[i]);
        to_multiset_contains(r, r[j]);
        to_multiset_contains(s, r[i]);
        to_multiset_contains(s, r[j]);
        let p = choose|p: int| 0 <= p < s.len() && s[p] == r[i];
        let q = choose|q: int| 0 <= q < s.len() && s[q] == r[j];
        assert(p != q);
        if p < q {
            assert(key(s[p]) != key(s[q]));
        } else {
            assert(key(s[q]) != key(s[p]));
        }
    }
}

/// Items of one key are one and the same item.
pub open spec fn key_decides<T>(s: Seq<T>, key: spec_fn(T) -> int) -> bool {
    forall|i: int, j: int|
        0 <= i < s.len() && 0 <= j < s.len() && key(s[i]) == key(s[j]) ==> s[i] == s[j]
}

/// Two ascending sequences that hold the same items, each as often as the
/// other, are equal where the key decides the item.
pub proof fn lemma_ascending_unique<T>(a: Seq<T>, b: Seq<T>, key: spec_fn(T) -> int)
    requires
        ascending(a, key),
        ascending(b, key),
        a.to_multiset() == b.to_multiset(),
        key_decides(a, key),
    ensures
        a == b,
    decreases a.len(),
{
    broadcast use vstd::multiset::group_multiset_axioms;

    to_multiset_len(a);
    to_multiset_len(b);
    if a.len() == 0 {
        assert(a =~= b);
    } else {
        let m = a.last();
        let n = b.last();
        assert(a.contains(m));
        to_multiset_contains(a, m);
        to_multiset_contains(b, m);
        let j = choose|j: int| 0 <= j < b.len() && b[j] == m;
        assert(key(m) <= key(n)) by {
            if j < b.len() - 1 {
                assert(key(b[j]) <= key(b[b.len() - 1]));
            }
        }
        assert(b.contains(n));
        to_multiset_contains(b, n);
        to_multiset_contains(a, n);
        let i = choose|i: int| 0 <= i < a.len() && a[i] == n;
        assert(key(n) <= key(m)) by {
            if i < a.len() - 1 {
                assert(key(a[i]) <= key(a[a.len() - 1]));
            }
        }
        assert(a[i] == a[a.len() - 1]);
        let a0 = a.drop_last();
        let b0 = b.drop_last();
        assert(a =~= a0.push(m));
        assert(b =~= b0.push(m));
        to_multiset_build(a0, m);
        to_multiset_build(b0, m);
        assert(a0.to_multiset() =~= b0.to_multiset()) by {
            assert forall|v: T| a0.to_multiset().count(v) == b0.to_multiset().count(v) by {
                assert(a0.to_multiset().insert(m).count(v) == b0.to_multiset().insert(m).count(
                    v,
                ));
            }
        }
        assert(key_decides(a0, key)) by {
            assert forall|p: int, q: int|
                0 <= p < a0.len() && 0 <= q < a0.len() && key(a0[p]) == key(
                    a0[q],
                ) implies a0[p] == a0[q] by {
                assert(a0[p] == a[p] && a0[q] == a[q]);
            }
        }
        assert(ascending(a0, key)) by {
            assert forall|p: int, q: int| 0 <= p < q < a0.len() implies key(a0[p]) <= key(
                a0[q],
            ) by {
                assert(a0[p] == a[p] && a0[q] == a[q]);
            }
        }
        assert(ascending(b0, key)) by {
            assert forall|p: int, q: int| 0 <= p < q < b0.len() implies key(b0[p]) <= key(
                b0[q],
            ) by {
                assert(b0[p] == b[p] && b0[q] == b[q]);
            }
        }
        lemma_ascending_unique(a0, b0, key);
    }
}

/// Sequences that hold the same items, each as often as the other, sort to
/// the same sequence, in whatever order each holds them, where the key
/// decides the item.
pub proof fn lemma_sorted_ignores_order<T>(a: Seq<T>, b: Seq<T>, key: spec_fn(T) -> int)
    requires
        key_decides(a, key),
        a.to_multiset() == b.to_multiset(),
    ensures
        stable_sorted(a, key) == stable_sorted(b, key),
{
    let ra = stable_sorted(a, key);
    let rb = stable_sorted(b, key);
    lemma_sorted_permutes(a, key);
    lemma_sorted_permutes(b, key);
    lemma_sorted_ascends(a, key);
    lemma_sorted_ascends(b, key);
    assert forall|i: int, j: int|
        0 <= i < ra.len() && 0 <= j < ra.len() && key(ra[i]) == key(ra[j]) implies ra[i]
        == ra[j] by {
        assert(ra.contains(ra[i]) && ra.contains(ra[j]));
        to_multiset_contains(ra, ra[i]);
        to_multiset_contains(ra, ra[j]);
        to_multiset_contains(a, ra[i]);
        to_multiset_contains(a, ra[j]);
        let p = choose|p: int| 0 <= p < a.len() && a[p] == ra[i];
        let q = choose|q: int| 0 <= q < a.len() && a[q] == ra[j];
        assert(a[p] == a[q]);
    }
    lemma_ascending_unique(ra, rb, key);
}

/// Sorts `items` by the keys that stand beside them in `keys`, items of
/// equal key staying in their order.
pub(crate) fn sort_by_keys<T>(
    items: Vec<T>,
    keys: &Vec<usize>,
    Ghost(key): Ghost<spec_fn(T) -> int>,
) -> (out: Vec<T>)
    requires
        keys.len() == items.len(),
        forall|i: int| 0 <= i < items.len() ==> keys[i] as int == key(#[trigger] items[i]),
    ensures
        out@ == stable_sorted(items@, key),
{
    let ghost given = items@;
    let mut items = items;
    let mut out: Vec<T> = Vec::new();
    let mut out_keys: Vec<usize> = Vec::new();
    assert(given.skip(given.len() as int) =~= Seq::<T>::empty());
    while items.len() > 0
        invariant
            items.len() <= given.len(),
            keys.len() == given.len(),
            items@ == given.take(items.len() as int),
            forall|i: int| 0 <= i < given.len() ==> keys[i] as int == key(#[trigger] given[i]),
            out@ == stable_sorted(given.skip(items.len() as int), key),
            out_keys.len() == out.len(),
            forall|i: int| 0 <= i < out.len() ==> out_keys[i] as int == key(#[trigger] out[i]),
        decreases items.len(),
    {
        let n: usize = items.len();
        let x = items.pop().unwrap();
        let k: usize = keys[n - 1];
        assert(x == given[n - 1]);
        let mut pos: usize = 0;
        while pos < out_keys.len() && out_keys[pos] < k
            invariant
                pos <= out_keys.len(),
                out_keys.len() == out.len(),
                forall|i: int| 0 <= i < pos ==> out_keys[i] < k,
            decreases out_keys.len() - pos,
        {
            pos += 1;
        }
        proof {
            let suffix = given.skip(n - 1);
            assert(suffix[0] == x);
            assert(suffix.drop_first() =~= given.skip(n as int));
            lemma_sorted_ascends(given.skip(n as int), key);
            assert forall|i: int| pos <= i < out.len() implies key(#[trigger] out[i]) >= key(
                x,
            ) by {
                if i > pos {
                    assert(key(out[pos as int]) <= key(out[i]));
                }
            }
            assert forall|i: int| 0 <= i < pos implies key(#[trigger] out[i]) < key(x) by {
                assert(out_keys[i] < k);
            }
            lemma_placed_is_insert(x, out@, key, pos as int);
            assert(items@ =~= given.take(n - 1));
        }
        out.insert(pos, x);
        out_keys.insert(pos, k);
        proof {
            assert forall|i: int| 0 <= i < out.len() implies out_keys[i] as int == key(
                #[trigger] out[i],
            ) by {
                if i < pos {
                } else if i > pos {
                }
            }
        }
    }
    assert(given.skip(0) =~= given);
    out
}

} // verus!
