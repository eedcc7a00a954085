//! Ascending lists of key-value pairs, the common model of the ordered maps of this crate.
//!
//! An ordered map is, to its users, a mathematical map; what it hands out when it is walked
//! is the one ascending list of the pairs of that map.

use crate::order::{
    lemma_same_rank_is_equal,
    lemma_transitive,
    lemma_trichotomy,
    less,
    total_order,
};
use vstd::prelude::*;

verus! {

/// `entries` lists the key-value pairs of `map`, each once, by strictly ascending key.
pub open spec fn lists_ascending<K: Ord, V>(entries: Seq<(K, V)>, map: Map<K, V>) -> bool {
    &&& ascending(entries)
    &&& forall|i: int|
        0 <= i < entries.len() ==> map.contains_pair((#[trigger] entries[i]).0, entries[i].1)
    &&& forall|k: K| #[trigger] map.contains_key(k) ==> has_key(entries, k)
}

/// The keys of `entries` are strictly ascending.
pub open spec fn ascending<K: Ord, V>(entries: Seq<(K, V)>) -> bool {
    forall|i: int, j: int|
        0 <= i < j < entries.len() ==> less((#[trigger] entries[i]).0, (#[trigger] entries[j]).0)
}

/// Some entry of `entries` has the key `key`.
pub open spec fn has_key<K, V>(entries: Seq<(K, V)>, key: K) -> bool {
    exists|i: int| 0 <= i < entries.len() && (#[trigger] entries[i]).0 == key
}

/// The keys that do not come before `key`.
pub open spec fn at_or_after<K: Ord>(key: K) -> Set<K> {
    Set::new(|k: K| !less(k, key))
}

/// The map that holds each pair of `entries`.
pub open spec fn map_of<K, V>(entries: Seq<(K, V)>) -> Map<K, V> {
    Map::new(
        |k: K| has_key(entries, k),
        |k: K| entries[choose|i: int| 0 <= i < entries.len() && (#[trigger] entries[i]).0 == k].1,
    )
}

/// Splitting an ascending list at one of its entries.
pub(crate) proof fn lemma_ascending_split<K: Ord, V>(a: Seq<(K, V)>, x: (K, V), b: Seq<(K, V)>)
    requires
        ascending(a + seq![x] + b),
    ensures
        ascending(a),
        ascending(b),
        forall|i: int| 0 <= i < a.len() ==> less((#[trigger] a[i]).0, x.0),
        forall|i: int| 0 <= i < b.len() ==> less(x.0, (#[trigger] b[i]).0),
{
    let s = a + seq![x] + b;
    assert(s[a.len() as int] == x);
    assert forall|i: int, j: int| 0 <= i < j < a.len() implies less(
        (#[trigger] a[i]).0,
        (#[trigger] a[j]).0,
    ) by {
        assert(s[i] == a[i] && s[j] == a[j]);
    }
    assert forall|i: int, j: int| 0 <= i < j < b.len() implies less(
        (#[trigger] b[i]).0,
        (#[trigger] b[j]).0,
    ) by {
        assert(s[a.len() + 1 + i] == b[i] && s[a.len() + 1 + j] == b[j]);
    }
    assert forall|i: int| 0 <= i < a.len() implies less((#[trigger] a[i]).0, x.0) by {
        assert(s[i] == a[i]);
    }
    assert forall|i: int| 0 <= i < b.len() implies less(x.0, (#[trigger] b[i]).0) by {
        assert(s[a.len() + 1 + i] == b[i]);
    }
}

/// Joining two ascending lists around an entry that lies between them.
pub(crate) proof fn lemma_ascending_join<K: Ord, V>(a: Seq<(K, V)>, x: (K, V), b: Seq<(K, V)>)
    requires
        total_order::<K>(),
        ascending(a),
        ascending(b),
        forall|i: int| 0 <= i < a.len() ==> less((#[trigger] a[i]).0, x.0),
        forall|i: int| 0 <= i < b.len() ==> less(x.0, (#[trigger] b[i]).0),
    ensures
        ascending(a + seq![x] + b),
{
    let s = a + seq![x] + b;
    assert forall|i: int, j: int| 0 <= i < j < s.len() implies less(
        (#[trigger] s[i]).0,
        (#[trigger] s[j]).0,
    ) by {
        if j < a.len() {
            assert(s[i] == a[i] && s[j] == a[j]);
        } else if j == a.len() {
            assert(s[i] == a[i]);
        } else if i < a.len() {
            assert(s[i] == a[i] && s[j] == b[j - a.len() - 1]);
            lemma_trichotomy(a[i].0, x.0);
            lemma_trichotomy(x.0, s[j].0);
            lemma_transitive(a[i].0, x.0, s[j].0);
        } else if i == a.len() {
            assert(s[j] == b[j - a.len() - 1]);
        } else {
            assert(s[i] == b[i - a.len() - 1] && s[j] == b[j - a.len() - 1]);
        }
    }
}

/// An ascending list holds each key once.
pub(crate) proof fn lemma_ascending_keys_differ<K: Ord, V>(entries: Seq<(K, V)>, i: int, j: int)
    requires
        total_order::<K>(),
        ascending(entries),
        0 <= i < entries.len(),
        0 <= j < entries.len(),
        entries[i].0 == entries[j].0,
    ensures
        i == j,
{
    lemma_trichotomy(entries[i].0, entries[j].0);
    lemma_trichotomy(entries[j].0, entries[i].0);
    if i < j {
        assert(less(entries[i].0, entries[j].0));
    }
    if j < i {
        assert(less(entries[j].0, entries[i].0));
    }
}

/// An ascending list lists the map made of it.
pub proof fn lemma_map_of_lists<K: Ord, V>(entries: Seq<(K, V)>)
    requires
        total_order::<K>(),
        ascending(entries),
    ensures
        lists_ascending(entries, map_of(entries)),
{
    let m = map_of(entries);
    assert forall|i: int| 0 <= i < entries.len() implies m.contains_pair(
        (#[trigger] entries[i]).0,
        entries[i].1,
    ) by {
        let k = entries[i].0;
        assert(has_key(entries, k));
        let j = choose|j: int| 0 <= j < entries.len() && (#[trigger] entries[j]).0 == k;
        lemma_ascending_keys_differ(entries, i, j);
    }
}

/// Two ascending lists of one map are the same list.
pub proof fn lemma_listing_is_unique<K: Ord, V>(a: Seq<(K, V)>, b: Seq<(K, V)>, map: Map<K, V>)
    requires
        total_order::<K>(),
        lists_ascending(a, map),
        lists_ascending(b, map),
    ensures
        a == b,
    decreases a.len(),
{
    if a.len() == 0 {
        if b.len() > 0 {
            assert(map.contains_pair(b[0].0, b[0].1));
            assert(map.contains_key(b[0].0));
            assert(has_key(a, b[0].0));
        }
        assert(a =~= b);
    } else {
        assert(map.contains_pair(a[0].0, a[0].1));
        assert(map.contains_key(a[0].0));
        assert(has_key(b, a[0].0));
        let j = choose|j: int| 0 <= j < b.len() && (#[trigger] b[j]).0 == a[0].0;
        assert(map.contains_pair(b[0].0, b[0].1));
        assert(map.contains_key(b[0].0));
        assert(has_key(a, b[0].0));
        let i = choose|i: int| 0 <= i < a.len() && (#[trigger] a[i]).0 == b[0].0;
        if j > 0 {
            assert(less(b[0].0, b[j].0));
            lemma_trichotomy(a[0].0, a[i].0);
            lemma_trichotomy(a[0].0, a[0].0);
            if i > 0 {
                assert(less(a[0].0, a[i].0));
            }
            assert(false);
        }
        assert(a[0] == b[0]);
        let a1 = a.drop_first();
        let b1 = b.drop_first();
        lemma_drop_first_lists(a, map);
        lemma_drop_first_lists(b, map);
        lemma_listing_is_unique(a1, b1, map.remove(a[0].0));
        assert(a =~= seq![a[0]] + a1);
        assert(b =~= seq![b[0]] + b1);
    }
}

pub(crate) proof fn lemma_drop_first_lists<K: Ord, V>(a: Seq<(K, V)>, map: Map<K, V>)
    requires
        total_order::<K>(),
        lists_ascending(a, map),
        a.len() > 0,
    ensures
        lists_ascending(a.drop_first(), map.remove(a[0].0)),
{
    let rest = a.drop_first();
    let smaller = map.remove(a[0].0);
    assert forall|i: int, j: int| 0 <= i < j < rest.len() implies less(
        (#[trigger] rest[i]).0,
        (#[trigger] rest[j]).0,
    ) by {
        assert(rest[i] == a[i + 1] && rest[j] == a[j + 1]);
    }
    assert forall|i: int| 0 <= i < rest.len() implies smaller.contains_pair(
        (#[trigger] rest[i]).0,
        rest[i].1,
    ) by {
        assert(rest[i] == a[i + 1]);
        assert(less(a[0].0, a[i + 1].0));
        lemma_trichotomy(a[0].0, a[i + 1].0);
        lemma_same_rank_is_equal(a[0].0, a[i + 1].0);
    }
    assert forall|k: K| smaller.contains_key(k) implies has_key(rest, k) by {
        assert(map.contains_key(k));
        assert(has_key(a, k));
        let i = choose|i: int| 0 <= i < a.len() && (#[trigger] a[i]).0 == k;
        assert(i > 0);
        assert(rest[i - 1] == a[i]);
    }
}

/// `after` holds the pair `(key, value)` and, for every other key, what `before` holds.
pub(crate) open spec fn after_put<K, V>(before: Seq<(K, V)>, after: Seq<(K, V)>, key: K, value: V) -> bool {
    forall|k: K, v: V| #[trigger]
        after.contains((k, v)) <==> (k == key && v == value) || (k != key && before.contains(
            (k, v),
        ))
}

pub(crate) proof fn lemma_join_contains<K, V>(a: Seq<(K, V)>, x: (K, V), b: Seq<(K, V)>, e: (K, V))
    ensures
        (a + seq![x] + b).contains(e) <==> a.contains(e) || e == x || b.contains(e),
{
    let s = a + seq![x] + b;
    if s.contains(e) {
        let i = choose|i: int| 0 <= i < s.len() && s[i] == e;
        if i < a.len() {
            assert(a[i] == e);
        } else if i > a.len() {
            assert(b[i - a.len() - 1] == e);
        }
    }
    if a.contains(e) {
        let i = choose|i: int| 0 <= i < a.len() && a[i] == e;
        assert(s[i] == e);
    }
    if e == x {
        assert(s[a.len() as int] == e);
    }
    if b.contains(e) {
        let i = choose|i: int| 0 <= i < b.len() && b[i] == e;
        assert(s[a.len() + 1 + i] == e);
    }
}

/// Putting a key that comes before `x` into the part left of `x`.
pub(crate) proof fn lemma_put_left<K: Ord, V>(
    a: Seq<(K, V)>,
    a2: Seq<(K, V)>,
    x: (K, V),
    b: Seq<(K, V)>,
    key: K,
    value: V,
)
    requires
        total_order::<K>(),
        ascending(a + seq![x] + b),
        ascending(a2),
        after_put(a, a2, key, value),
        less(key, x.0),
    ensures
        ascending(a2 + seq![x] + b),
        after_put(a + seq![x] + b, a2 + seq![x] + b, key, value),
{
    lemma_ascending_split(a, x, b);
    assert forall|i: int| 0 <= i < a2.len() implies less((#[trigger] a2[i]).0, x.0) by {
        assert(a2.contains((a2[i].0, a2[i].1)));
        if a2[i].0 != key {
            let j = choose|j: int| 0 <= j < a.len() && a[j] == a2[i];
            assert(less(a[j].0, x.0));
        }
    }
    lemma_ascending_join(a2, x, b);
    lemma_trichotomy(key, x.0);
    lemma_trichotomy(key, key);
    assert forall|k: K, v: V| #[trigger]
        (a2 + seq![x] + b).contains((k, v)) <==> (k == key && v == value) || (k != key && (a
            + seq![x] + b).contains((k, v))) by {
        lemma_join_contains(a, x, b, (k, v));
        lemma_join_contains(a2, x, b, (k, v));
        if k == key && b.contains((k, v)) {
            let j = choose|j: int| 0 <= j < b.len() && b[j] == (k, v);
            assert(less(x.0, b[j].0));
            lemma_trichotomy(x.0, key);
        }
    }
}

/// Putting a key that comes after `x` into the part right of `x`.
pub(crate) proof fn lemma_put_right<K: Ord, V>(
    a: Seq<(K, V)>,
    x: (K, V),
    b: Seq<(K, V)>,
    b2: Seq<(K, V)>,
    key: K,
    value: V,
)
    requires
        total_order::<K>(),
        ascending(a + seq![x] + b),
        ascending(b2),
        after_put(b, b2, key, value),
        less(x.0, key),
    ensures
        ascending(a + seq![x] + b2),
        after_put(a + seq![x] + b, a + seq![x] + b2, key, value),
{
    lemma_ascending_split(a, x, b);
    assert forall|i: int| 0 <= i < b2.len() implies less(x.0, (#[trigger] b2[i]).0) by {
        assert(b2.contains((b2[i].0, b2[i].1)));
        if b2[i].0 != key {
            let j = choose|j: int| 0 <= j < b.len() && b[j] == b2[i];
            assert(less(x.0, b[j].0));
        }
    }
    lemma_ascending_join(a, x, b2);
    lemma_trichotomy(x.0, key);
    lemma_trichotomy(key, key);
    assert forall|k: K, v: V| #[trigger]
        (a + seq![x] + b2).contains((k, v)) <==> (k == key && v == value) || (k != key && (a
            + seq![x] + b).contains((k, v))) by {
        lemma_join_contains(a, x, b, (k, v));
        lemma_join_contains(a, x, b2, (k, v));
        if k == key && a.contains((k, v)) {
            let j = choose|j: int| 0 <= j < a.len() && a[j] == (k, v);
            assert(less(a[j].0, x.0));
            lemma_trichotomy(key, x.0);
        }
    }
}

/// Replacing the value of the entry `x`.
pub(crate) proof fn lemma_put_here<K: Ord, V>(a: Seq<(K, V)>, x: (K, V), b: Seq<(K, V)>, value: V)
    requires
        total_order::<K>(),
        ascending(a + seq![x] + b),
    ensures
        ascending(a + seq![(x.0, value)] + b),
        after_put(a + seq![x] + b, a + seq![(x.0, value)] + b, x.0, value),
{
    let key = x.0;
    lemma_ascending_split(a, x, b);
    lemma_ascending_join(a, (key, value), b);
    lemma_trichotomy(key, key);
    assert forall|k: K, v: V| #[trigger]
        (a + seq![(key, value)] + b).contains((k, v)) <==> (k == key && v == value) || (k != key
            && (a + seq![x] + b).contains((k, v))) by {
        lemma_join_contains(a, x, b, (k, v));
        lemma_join_contains(a, (key, value), b, (k, v));
        if k == key && a.contains((k, v)) {
            let j = choose|j: int| 0 <= j < a.len() && a[j] == (k, v);
            assert(less(a[j].0, key));
        }
        if k == key && b.contains((k, v)) {
            let j = choose|j: int| 0 <= j < b.len() && b[j] == (k, v);
            assert(less(key, b[j].0));
        }
    }
}

/// What `after_put` says of two ascending lists, said of the maps made of them.
pub(crate) proof fn lemma_put_is_insert<K: Ord, V>(
    before: Seq<(K, V)>,
    after: Seq<(K, V)>,
    key: K,
    value: V,
)
    requires
        total_order::<K>(),
        ascending(before),
        ascending(after),
        after_put(before, after, key, value),
    ensures
        map_of(after) == map_of(before).insert(key, value),
{
    let m1 = map_of(before);
    let m2 = map_of(after);
    lemma_map_of_lists(before);
    lemma_map_of_lists(after);
    assert forall|k: K| m2.contains_key(k) <==> m1.insert(key, value).contains_key(k) by {
        if m2.contains_key(k) && k != key {
            let i = choose|i: int| 0 <= i < after.len() && (#[trigger] after[i]).0 == k;
            assert(after.contains((k, after[i].1)));
            let j = choose|j: int| 0 <= j < before.len() && before[j] == (k, after[i].1);
            assert(before[j].0 == k);
        }
        if k == key {
            assert(after.contains((key, value)));
            let i = choose|i: int| 0 <= i < after.len() && after[i] == (key, value);
            assert(after[i].0 == key);
        }
        if m1.contains_key(k) && k != key {
            let i = choose|i: int| 0 <= i < before.len() && (#[trigger] before[i]).0 == k;
            assert(before.contains((k, before[i].1)));
            assert(after.contains((k, before[i].1)));
            let j = choose|j: int| 0 <= j < after.len() && after[j] == (k, before[i].1);
            assert(after[j].0 == k);
        }
    }
    assert forall|k: K| m2.contains_key(k) implies m2[k] == m1.insert(key, value)[k] by {
        let i = choose|i: int| 0 <= i < after.len() && (#[trigger] after[i]).0 == k;
        assert(m2.contains_pair(after[i].0, after[i].1));
        assert(after.contains((k, after[i].1)));
        if k != key {
            let j = choose|j: int| 0 <= j < before.len() && before[j] == (k, after[i].1);
            assert(m1.contains_pair(before[j].0, before[j].1));
        }
    }
    assert(m2 =~= m1.insert(key, value));
}

/// The rest of an ascending list, from one of its entries on, lists the part of the map
/// whose keys do not come before that entry's key.
pub(crate) proof fn lemma_suffix_lists<K: Ord, V>(entries: Seq<(K, V)>, map: Map<K, V>, at: int)
    requires
        total_order::<K>(),
        lists_ascending(entries, map),
        0 <= at < entries.len(),
    ensures
        lists_ascending(entries.skip(at), map.restrict(at_or_after(entries[at].0))),
{
    let key = entries[at].0;
    let rest = entries.skip(at);
    let part = map.restrict(at_or_after(key));
    lemma_trichotomy(key, key);
    assert forall|i: int, j: int| 0 <= i < j < rest.len() implies less(
        (#[trigger] rest[i]).0,
        (#[trigger] rest[j]).0,
    ) by {
        assert(rest[i] == entries[at + i] && rest[j] == entries[at + j]);
    }
    assert forall|i: int| 0 <= i < rest.len() implies part.contains_pair(
        (#[trigger] rest[i]).0,
        rest[i].1,
    ) by {
        assert(rest[i] == entries[at + i]);
        assert(map.contains_pair(entries[at + i].0, entries[at + i].1));
        if i > 0 {
            assert(less(entries[at].0, entries[at + i].0));
            lemma_trichotomy(rest[i].0, key);
        }
    }
    assert forall|k: K| #[trigger] part.contains_key(k) implies has_key(rest, k) by {
        assert(map.contains_key(k));
        let i = choose|i: int| 0 <= i < entries.len() && (#[trigger] entries[i]).0 == k;
        if i < at {
            assert(less(entries[i].0, entries[at].0));
        }
        assert(rest[i - at] == entries[i]);
    }
}


/// Membership in a list made of three parts.
pub(crate) proof fn lemma_parts_contain<K, V>(a: Seq<(K, V)>, e: Seq<(K, V)>, b: Seq<(K, V)>, x: (K, V))
    ensures
        (a + e + b).contains(x) <==> a.contains(x) || e.contains(x) || b.contains(x),
{
    let s = a + e + b;
    if s.contains(x) {
        let i = choose|i: int| 0 <= i < s.len() && s[i] == x;
        if i < a.len() {
            assert(a[i] == x);
        } else if i < a.len() + e.len() {
            assert(e[i - a.len()] == x);
        } else {
            assert(b[i - a.len() - e.len()] == x);
        }
    }
    if a.contains(x) {
        let i = choose|i: int| 0 <= i < a.len() && a[i] == x;
        assert(s[i] == x);
    }
    if e.contains(x) {
        let i = choose|i: int| 0 <= i < e.len() && e[i] == x;
        assert(s[a.len() + i] == x);
    }
    if b.contains(x) {
        let i = choose|i: int| 0 <= i < b.len() && b[i] == x;
        assert(s[a.len() + e.len() + i] == x);
    }
}

/// Putting a key into the middle part of an ascending list, where the key comes after all
/// of the first part and before all of the last.
pub(crate) proof fn lemma_put_within<K: Ord, V>(
    a: Seq<(K, V)>,
    e: Seq<(K, V)>,
    e2: Seq<(K, V)>,
    b: Seq<(K, V)>,
    key: K,
    value: V,
)
    requires
        total_order::<K>(),
        ascending(a + e + b),
        ascending(e2),
        after_put(e, e2, key, value),
        forall|i: int| 0 <= i < a.len() ==> less((#[trigger] a[i]).0, key),
        forall|i: int| 0 <= i < b.len() ==> less(key, (#[trigger] b[i]).0),
    ensures
        ascending(a + e2 + b),
        after_put(a + e + b, a + e2 + b, key, value),
{
    let before = a + e + b;
    let after = a + e2 + b;
    lemma_trichotomy(key, key);
    assert forall|i: int, j: int| 0 <= i < j < after.len() implies less(
        (#[trigger] after[i]).0,
        (#[trigger] after[j]).0,
    ) by {
        let x = after[i];
        let y = after[j];
        if j < a.len() {
            assert(before[i] == x && before[j] == y);
        } else if i >= a.len() + e2.len() {
            let d = e.len() - e2.len();
            assert(before[i + d] == x && before[j + d] == y);
        } else if i < a.len() && j >= a.len() + e2.len() {
            let d = e.len() - e2.len();
            assert(before[i] == x && before[j + d] == y);
        } else if i < a.len() {
            assert(a[i] == x);
            assert(e2[j - a.len()] == y);
            assert(e2.contains((y.0, y.1)));
            if y.0 != key {
                let m = choose|m: int| 0 <= m < e.len() && e[m] == y;
                assert(before[i] == x && before[a.len() + m] == y);
            }
        } else if j >= a.len() + e2.len() {
            assert(e2[i - a.len()] == x);
            assert(b[j - a.len() - e2.len()] == y);
            assert(e2.contains((x.0, x.1)));
            if x.0 != key {
                let m = choose|m: int| 0 <= m < e.len() && e[m] == x;
                assert(before[a.len() + m] == x);
                assert(before[a.len() + e.len() + (j - a.len() - e2.len())] == y);
            }
        } else {
            assert(e2[i - a.len()] == x && e2[j - a.len()] == y);
        }
    }
    assert forall|k: K, v: V| #[trigger]
        after.contains((k, v)) <==> (k == key && v == value) || (k != key && before.contains(
            (k, v),
        )) by {
        lemma_parts_contain(a, e, b, (k, v));
        lemma_parts_contain(a, e2, b, (k, v));
        if k == key && a.contains((k, v)) {
            let m = choose|m: int| 0 <= m < a.len() && a[m] == (k, v);
            assert(less(a[m].0, key));
        }
        if k == key && b.contains((k, v)) {
            let m = choose|m: int| 0 <= m < b.len() && b[m] == (k, v);
            assert(less(key, b[m].0));
        }
    }
}

/// Each of three parts of an ascending list is ascending.
pub(crate) proof fn lemma_ascending_parts<K: Ord, V>(a: Seq<(K, V)>, e: Seq<(K, V)>, b: Seq<(K, V)>)
    requires
        ascending(a + e + b),
    ensures
        ascending(a),
        ascending(e),
        ascending(b),
{
    let s = a + e + b;
    assert forall|i: int, j: int| 0 <= i < j < a.len() implies less(
        (#[trigger] a[i]).0,
        (#[trigger] a[j]).0,
    ) by {
        assert(s[i] == a[i] && s[j] == a[j]);
    }
    assert forall|i: int, j: int| 0 <= i < j < e.len() implies less(
        (#[trigger] e[i]).0,
        (#[trigger] e[j]).0,
    ) by {
        assert(s[a.len() + i] == e[i] && s[a.len() + j] == e[j]);
    }
    assert forall|i: int, j: int| 0 <= i < j < b.len() implies less(
        (#[trigger] b[i]).0,
        (#[trigger] b[j]).0,
    ) by {
        assert(s[a.len() + e.len() + i] == b[i] && s[a.len() + e.len() + j] == b[j]);
    }
}

/// A key that comes after the last entry of an ascending list comes after all of them.
pub(crate) proof fn lemma_after_last<K: Ord, V>(a: Seq<(K, V)>, key: K)
    requires
        total_order::<K>(),
        ascending(a),
        a.len() > 0 ==> less(a.last().0, key),
    ensures
        forall|i: int| 0 <= i < a.len() ==> less((#[trigger] a[i]).0, key),
{
    assert forall|i: int| 0 <= i < a.len() implies less((#[trigger] a[i]).0, key) by {
        if i < a.len() - 1 {
            assert(less(a[i].0, a[a.len() - 1].0));
            lemma_trichotomy(a[i].0, a.last().0);
            lemma_trichotomy(a.last().0, key);
            lemma_transitive(a[i].0, a.last().0, key);
        }
    }
}

/// A key that comes before the first entry of an ascending list comes before all of them.
pub(crate) proof fn lemma_before_first<K: Ord, V>(b: Seq<(K, V)>, key: K)
    requires
        total_order::<K>(),
        ascending(b),
        b.len() > 0 ==> less(key, b[0].0),
    ensures
        forall|i: int| 0 <= i < b.len() ==> less(key, (#[trigger] b[i]).0),
{
    assert forall|i: int| 0 <= i < b.len() implies less(key, (#[trigger] b[i]).0) by {
        if i > 0 {
            assert(less(b[0].0, b[i].0));
            lemma_trichotomy(key, b[0].0);
            lemma_trichotomy(b[0].0, b[i].0);
            lemma_transitive(key, b[0].0, b[i].0);
        }
    }
}

/// An ascending list of a map has as many entries as the map has keys.
pub proof fn lemma_listing_counts_keys<K: Ord, V>(entries: Seq<(K, V)>, map: Map<K, V>)
    requires
        total_order::<K>(),
        lists_ascending(entries, map),
    ensures
        map.dom().finite(),
        map.dom().len() == entries.len(),
    decreases entries.len(),
{
    if entries.len() == 0 {
        assert(map.dom() =~= Set::<K>::empty()) by {
            assert forall|k: K| !map.dom().contains(k) by {
                if map.contains_key(k) {
                    assert(has_key(entries, k));
                }
            }
        }
    } else {
        let first = entries[0].0;
        lemma_drop_first_lists(entries, map);
        lemma_listing_counts_keys(entries.drop_first(), map.remove(first));
        assert(map.contains_pair(entries[0].0, entries[0].1));
        assert(map.dom() =~= map.remove(first).dom().insert(first));
    }
}

/// Inserting under a key that a map holds changes the value of that key and nothing
/// else: the keys stay, and an ascending list of the map stays as long as it was.
pub proof fn lemma_insert_on_held_key<K: Ord, V>(
    before: Seq<(K, V)>,
    after: Seq<(K, V)>,
    map: Map<K, V>,
    key: K,
    value: V,
)
    requires
        total_order::<K>(),
        map.contains_key(key),
        lists_ascending(before, map),
        lists_ascending(after, map.insert(key, value)),
    ensures
        map.insert(key, value).dom() == map.dom(),
        map.insert(key, value)[key] == value,
        after.len() == before.len(),
{
    lemma_listing_counts_keys(before, map);
    lemma_listing_counts_keys(after, map.insert(key, value));
    assert(map.insert(key, value).dom() =~= map.dom());
}

/// `copy` holds the keys of `entries` in the same order, each with a clone of its value.
pub(crate) open spec fn is_clone_of<K, V: Clone>(entries: Seq<(K, V)>, copy: Seq<(K, V)>) -> bool {
    &&& copy.len() == entries.len()
    &&& forall|i: int|
        0 <= i < entries.len() ==> (#[trigger] copy[i]).0 == entries[i].0 && cloned::<V>(
            entries[i].1,
            copy[i].1,
        )
}

/// A copy of an ascending list is an ascending list, of a map with the same keys and with
/// clones of the values.
pub(crate) proof fn lemma_clone_lists<K: Ord, V: Clone>(entries: Seq<(K, V)>, copy: Seq<(K, V)>)
    requires
        total_order::<K>(),
        ascending(entries),
        is_clone_of(entries, copy),
    ensures
        ascending(copy),
        map_of(copy).dom() == map_of(entries).dom(),
        forall|key: K| #[trigger]
            map_of(copy).contains_key(key) ==> cloned::<V>(map_of(entries)[key], map_of(copy)[key]),
{
    assert forall|i: int, j: int| 0 <= i < j < copy.len() implies less(
        (#[trigger] copy[i]).0,
        (#[trigger] copy[j]).0,
    ) by {
        assert(less(entries[i].0, entries[j].0));
    }
    lemma_map_of_lists(entries);
    lemma_map_of_lists(copy);
    let before = map_of(entries);
    let after = map_of(copy);
    assert forall|key: K| after.contains_key(key) implies before.contains_key(key) && cloned::<V>(
        before[key],
        after[key],
    ) by {
        let i = choose|i: int| 0 <= i < copy.len() && (#[trigger] copy[i]).0 == key;
        assert(after.contains_pair(copy[i].0, copy[i].1));
        assert(before.contains_pair(entries[i].0, entries[i].1));
    }
    assert forall|key: K| before.contains_key(key) implies after.contains_key(key) by {
        let i = choose|i: int| 0 <= i < entries.len() && (#[trigger] entries[i]).0 == key;
        assert(after.contains_pair(copy[i].0, copy[i].1));
    }
    assert(after.dom() =~= before.dom());
}

/// Copies of lists, one after the other, are a copy of the lists one after the other.
pub(crate) proof fn lemma_clone_joins<K, V: Clone>(
    a: Seq<(K, V)>,
    b: Seq<(K, V)>,
    a2: Seq<(K, V)>,
    b2: Seq<(K, V)>,
)
    requires
        is_clone_of(a, a2),
        is_clone_of(b, b2),
    ensures
        is_clone_of(a + b, a2 + b2),
{
    let whole = a + b;
    let whole2 = a2 + b2;
    assert forall|i: int| 0 <= i < whole.len() implies (#[trigger] whole2[i]).0 == whole[i].0
        && cloned::<V>(whole[i].1, whole2[i].1) by {
        if i < a.len() {
            assert(whole[i] == a[i] && whole2[i] == a2[i]);
        } else {
            assert(whole[i] == b[i - a.len()] && whole2[i] == b2[i - a.len()]);
        }
    }
}

} // verus!
