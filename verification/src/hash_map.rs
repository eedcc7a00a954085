//! A hash map with separate chaining that grows when it gets too full.
//!
//! The map is a row of buckets. A key belongs in the bucket whose index is the key's digest
//! modulo the number of buckets; a bucket holds its entries in the order in which they came.
//! Before an entry is added, the map grows from `n` to `2n + 1` buckets if, counting the new
//! entry, the entries would be at least as many as the maximum load factor allows for `n`
//! buckets. Load factors are ratios of whole numbers.
//!
//! To its users the map is a mathematical map. What turns keys into digests can be chosen
//! ([`KeyHasher`]); it has to give the same digest to the same key every time.

use crate::listing::{after_put, has_key, lemma_parts_contain, map_of};
use crate::order::{exact_equality, is_equal};
use core::hash::Hasher;
use std::collections::hash_map::DefaultHasher;
use vstd::bytes::{spec_u64_to_le_bytes, u64_to_le_bytes};
use vstd::prelude::*;
use vstd::std_specs::hash::DefaultHasherAdditionalSpecFns;

verus! {

/// A way to turn keys into 64-bit digests, the same digest for the same key every time.
pub trait KeyHasher<K> {
    /// The digest of `key`.
    spec fn digest(&self, key: K) -> u64;

    /// Computes the digest of `key`.
    fn hash(&self, key: &K) -> (d: u64)
        ensures
            d == self.digest(*key),
    ;
}

/// The hasher that a map uses unless it is given another: the standard library's default
/// hasher in its initial state, fed the key as eight little-endian bytes.
pub struct DefaultKeyHasher {}

/// The digest that [`DefaultKeyHasher`] gives to an integer key that was widened to 64 bits.
pub open spec fn default_digest(key: u64) -> u64 {
    DefaultHasher::spec_finish(seq![spec_u64_to_le_bytes(key)])
}

fn hash_u64(key: u64) -> (d: u64)
    ensures
        d == default_digest(key),
{
    let mut state = DefaultHasher::new();
    let bytes = u64_to_le_bytes(key);
    state.write(bytes.as_slice());
    proof {
        assert(state@ =~= seq![spec_u64_to_le_bytes(key)]);
    }
    state.finish()
}

impl KeyHasher<u64> for DefaultKeyHasher {
    open spec fn digest(&self, key: u64) -> u64 {
        default_digest(key)
    }

    fn hash(&self, key: &u64) -> (d: u64) {
        hash_u64(*key)
    }
}

impl KeyHasher<u32> for DefaultKeyHasher {
    open spec fn digest(&self, key: u32) -> u64 {
        default_digest(key as u64)
    }

    fn hash(&self, key: &u32) -> (d: u64) {
        hash_u64(*key as u64)
    }
}

impl KeyHasher<usize> for DefaultKeyHasher {
    open spec fn digest(&self, key: usize) -> u64 {
        default_digest(key as u64)
    }

    fn hash(&self, key: &usize) -> (d: u64) {
        hash_u64(*key as u64)
    }
}

impl KeyHasher<i32> for DefaultKeyHasher {
    open spec fn digest(&self, key: i32) -> u64 {
        default_digest(key as u64)
    }

    fn hash(&self, key: &i32) -> (d: u64) {
        hash_u64(*key as u64)
    }
}

impl KeyHasher<i64> for DefaultKeyHasher {
    open spec fn digest(&self, key: i64) -> u64 {
        default_digest(key as u64)
    }

    fn hash(&self, key: &i64) -> (d: u64) {
        hash_u64(*key as u64)
    }
}

/// A ratio of two counts, such as a load factor: so many entries to so many buckets.
#[derive(Clone, Copy, Debug, PartialEq, Eq, Structural)]
pub struct Ratio {
    pub numerator: u64,
    pub denominator: u64,
}

/// With one more entry than `entries`, a map of `buckets` buckets would hold at least as many
/// entries per bucket as `max_load` allows.
pub open spec fn must_grow(entries: nat, buckets: nat, max_load: Ratio) -> bool {
    (entries + 1) * max_load.denominator >= max_load.numerator * buckets
}

/// A hash map with separate chaining.
///
/// Its view is the mathematical map that it represents.
pub struct HashMap<K: Eq, V, H: KeyHasher<K> = DefaultKeyHasher> {
    table: Table<K, V>,
    max_load: Ratio,
    hasher: H,
}

/// The buckets of a map, with the number of entries in them.
struct Table<K, V> {
    buckets: Vec<Vec<(K, V)>>,
    size: usize,
}

/// No two entries of `entries` have the same key.
spec fn keys_differ<K, V>(entries: Seq<(K, V)>) -> bool {
    forall|i: int, j: int|
        0 <= i < j < entries.len() ==> (#[trigger] entries[i]).0 != (#[trigger] entries[j]).0
}

/// The contents of the buckets.
spec fn contents<K, V>(buckets: Seq<Vec<(K, V)>>) -> Seq<Seq<(K, V)>> {
    Seq::new(buckets.len(), |b: int| buckets[b]@)
}

/// The entries of all buckets of `table`, bucket after bucket.
spec fn flat<K, V>(table: Seq<Seq<(K, V)>>) -> Seq<(K, V)>
    decreases table.len(),
{
    if table.len() == 0 {
        Seq::empty()
    } else {
        flat(table.drop_last()) + table.last()
    }
}

/// The index of the bucket in which `key` belongs, of `buckets` buckets.
spec fn slot<K, H: KeyHasher<K>>(hasher: H, key: K, buckets: int) -> int {
    hasher.digest(key) as int % buckets
}

/// Every entry of `table` is in the bucket in which its key belongs, of `buckets` buckets.
spec fn placed<K, V, H: KeyHasher<K>>(table: Seq<Seq<(K, V)>>, hasher: H, buckets: int) -> bool {
    forall|b: int, i: int|
        0 <= b < table.len() && 0 <= i < table[b].len() ==> slot(
            hasher,
            (#[trigger] table[b][i]).0,
            buckets,
        ) == b
}

/// No bucket of `table` holds a key twice.
spec fn chains_differ<K, V>(table: Seq<Seq<(K, V)>>) -> bool {
    forall|b: int| 0 <= b < table.len() ==> keys_differ(#[trigger] table[b])
}

proof fn lemma_flat_join<K, V>(a: Seq<Seq<(K, V)>>, b: Seq<Seq<(K, V)>>)
    ensures
        flat(a + b) == flat(a) + flat(b),
    decreases b.len(),
{
    if b.len() == 0 {
        assert(a + b =~= a);
        assert(flat(a) + flat(b) =~= flat(a));
    } else {
        lemma_flat_join(a, b.drop_last());
        assert((a + b).drop_last() =~= a + b.drop_last());
        assert(flat(a + b) =~= flat(a) + flat(b));
    }
}

/// The flat list, split around the bucket `at`.
proof fn lemma_flat_split<K, V>(table: Seq<Seq<(K, V)>>, at: int)
    requires
        0 <= at < table.len(),
    ensures
        flat(table) == flat(table.take(at)) + table[at] + flat(table.skip(at + 1)),
{
    let one = seq![table[at]];
    assert(table =~= table.take(at) + one + table.skip(at + 1));
    lemma_flat_join(table.take(at) + one, table.skip(at + 1));
    lemma_flat_join(table.take(at), one);
    assert(one.drop_last() =~= Seq::<Seq<(K, V)>>::empty());
    assert(flat(one.drop_last()) =~= Seq::<(K, V)>::empty());
    assert(one.last() == table[at]);
    assert(flat(one) =~= table[at]);
}

/// An entry is in the flat list exactly if it is in one of the buckets.
proof fn lemma_flat_contains<K, V>(table: Seq<Seq<(K, V)>>, e: (K, V))
    ensures
        flat(table).contains(e) <==> exists|b: int|
            0 <= b < table.len() && (#[trigger] table[b]).contains(e),
    decreases table.len(),
{
    if table.len() > 0 {
        let init = table.drop_last();
        lemma_flat_contains(init, e);
        lemma_parts_contain(flat(init), table.last(), Seq::empty(), e);
        assert(flat(init) + table.last() + Seq::empty() =~= flat(table));
        if flat(table).contains(e) {
            if flat(init).contains(e) {
                let b = choose|b: int| 0 <= b < init.len() && (#[trigger] init[b]).contains(e);
                assert(table[b].contains(e));
            } else {
                assert(table[table.len() - 1].contains(e));
            }
        }
        if exists|b: int| 0 <= b < table.len() && (#[trigger] table[b]).contains(e) {
            let b = choose|b: int| 0 <= b < table.len() && (#[trigger] table[b]).contains(e);
            if b < init.len() {
                assert(init[b].contains(e));
            }
        }
    }
}

/// With every entry in its place, no key is twice in the flat list.
proof fn lemma_flat_keys_differ<K, V, H: KeyHasher<K>>(
    table: Seq<Seq<(K, V)>>,
    hasher: H,
    buckets: int,
)
    requires
        placed(table, hasher, buckets),
        chains_differ(table),
    ensures
        keys_differ(flat(table)),
    decreases table.len(),
{
    if table.len() > 0 {
        let init = table.drop_last();
        let last = table.last();
        assert forall|b: int, i: int| 0 <= b < init.len() && 0 <= i < init[b].len() implies slot(
            hasher,
            (#[trigger] init[b][i]).0,
            buckets,
        ) == b by {
            assert(init[b][i] == table[b][i]);
        }
        assert forall|b: int| 0 <= b < init.len() implies keys_differ(#[trigger] init[b]) by {
            assert(init[b] == table[b]);
        }
        lemma_flat_keys_differ(init, hasher, buckets);
        let a = flat(init);
        let whole = flat(table);
        assert(keys_differ(last)) by {
            assert(last == table[table.len() - 1]);
        }
        assert forall|i: int, j: int| 0 <= i < j < whole.len() implies (#[trigger] whole[i]).0 != (
        #[trigger] whole[j]).0 by {
            if j < a.len() {
                assert(whole[i] == a[i] && whole[j] == a[j]);
            } else if i >= a.len() {
                assert(whole[i] == last[i - a.len()] && whole[j] == last[j - a.len()]);
            } else {
                assert(whole[i] == a[i] && whole[j] == last[j - a.len()]);
                assert(a.contains(a[i]));
                lemma_flat_contains(init, a[i]);
                let b = choose|b: int| 0 <= b < init.len() && (#[trigger] init[b]).contains(a[i]);
                let m = choose|m: int| 0 <= m < init[b].len() && init[b][m] == a[i];
                assert(table[b][m] == a[i]);
                assert(table[table.len() - 1][j - a.len()] == whole[j]);
            }
        }
    }
}

/// With every entry in its place, a key is in the flat list exactly if it is in the bucket
/// in which it belongs.
proof fn lemma_key_in_its_bucket<K, V, H: KeyHasher<K>>(
    table: Seq<Seq<(K, V)>>,
    hasher: H,
    key: K,
)
    requires
        table.len() > 0,
        placed(table, hasher, table.len() as int),
    ensures
        has_key(flat(table), key) <==> has_key(table[slot(hasher, key, table.len() as int)], key),
{
    let all = flat(table);
    let home = slot(hasher, key, table.len() as int);
    if has_key(all, key) {
        let i = choose|i: int| 0 <= i < all.len() && (#[trigger] all[i]).0 == key;
        assert(all.contains(all[i]));
        lemma_flat_contains(table, all[i]);
        let b = choose|b: int| 0 <= b < table.len() && (#[trigger] table[b]).contains(all[i]);
        let m = choose|m: int| 0 <= m < table[b].len() && table[b][m] == all[i];
        assert(table[b][m].0 == key);
    }
    if has_key(table[home], key) {
        let m = choose|m: int| 0 <= m < table[home].len() && (#[trigger] table[home][m]).0 == key;
        assert(table[home].contains(table[home][m]));
        lemma_flat_contains(table, table[home][m]);
        let i = choose|i: int| 0 <= i < all.len() && all[i] == table[home][m];
        assert(all[i].0 == key);
    }
}

/// The map made of a list without repeated keys has as many keys as the list has entries,
/// and holds each entry of the list.
proof fn lemma_map_of_distinct<K, V>(entries: Seq<(K, V)>)
    requires
        keys_differ(entries),
    ensures
        map_of(entries).dom().finite(),
        map_of(entries).dom().len() == entries.len(),
        forall|i: int|
            0 <= i < entries.len() ==> map_of(entries).contains_pair(
                (#[trigger] entries[i]).0,
                entries[i].1,
            ),
    decreases entries.len(),
{
    let m = map_of(entries);
    assert forall|i: int| 0 <= i < entries.len() implies m.contains_pair(
        (#[trigger] entries[i]).0,
        entries[i].1,
    ) by {
        let k = entries[i].0;
        assert(has_key(entries, k));
        let j = choose|j: int| 0 <= j < entries.len() && (#[trigger] entries[j]).0 == k;
        if i < j {
            assert(entries[i].0 != entries[j].0);
        }
        if j < i {
            assert(entries[j].0 != entries[i].0);
        }
    }
    if entries.len() == 0 {
        assert(m.dom() =~= Set::<K>::empty());
    } else {
        let init = entries.drop_last();
        let last = entries.last();
        assert forall|i: int, j: int| 0 <= i < j < init.len() implies (#[trigger] init[i]).0 != (
        #[trigger] init[j]).0 by {
            assert(init[i] == entries[i] && init[j] == entries[j]);
        }
        lemma_map_of_distinct(init);
        assert(!map_of(init).dom().contains(last.0)) by {
            if has_key(init, last.0) {
                let i = choose|i: int| 0 <= i < init.len() && (#[trigger] init[i]).0 == last.0;
                assert(entries[i].0 != entries[entries.len() - 1].0);
            }
        }
        assert(m.dom() =~= map_of(init).dom().insert(last.0)) by {
            assert forall|k: K| m.dom().contains(k) <==> map_of(init).dom().insert(
                last.0,
            ).contains(k) by {
                if has_key(entries, k) {
                    let i = choose|i: int| 0 <= i < entries.len() && (#[trigger] entries[i]).0 == k;
                    if i < init.len() {
                        assert(init[i].0 == k);
                    }
                }
                if has_key(init, k) {
                    let i = choose|i: int| 0 <= i < init.len() && (#[trigger] init[i]).0 == k;
                    assert(entries[i].0 == k);
                }
                if k == last.0 {
                    assert(entries[entries.len() - 1].0 == k);
                }
            }
        }
    }
}

/// Two lists without repeated keys that hold the same entries make the same map.
proof fn lemma_same_entries_same_map<K, V>(a: Seq<(K, V)>, b: Seq<(K, V)>)
    requires
        keys_differ(a),
        keys_differ(b),
        forall|e: (K, V)| a.contains(e) <==> b.contains(e),
    ensures
        map_of(a) == map_of(b),
{
    lemma_map_of_distinct(a);
    lemma_map_of_distinct(b);
    let ma = map_of(a);
    let mb = map_of(b);
    assert forall|k: K| ma.contains_key(k) implies mb.contains_pair(k, ma[k]) by {
        let i = choose|i: int| 0 <= i < a.len() && (#[trigger] a[i]).0 == k;
        assert(ma.contains_pair(a[i].0, a[i].1));
        assert(a.contains(a[i]));
        let j = choose|j: int| 0 <= j < b.len() && b[j] == a[i];
        assert(mb.contains_pair(b[j].0, b[j].1));
    }
    assert forall|k: K| mb.contains_key(k) implies ma.contains_key(k) by {
        let i = choose|i: int| 0 <= i < b.len() && (#[trigger] b[i]).0 == k;
        assert(b.contains(b[i]));
        let j = choose|j: int| 0 <= j < a.len() && a[j] == b[i];
        assert(a[j].0 == k);
    }
    assert(ma =~= mb);
}

/// What `after_put` says of two lists without repeated keys, said of the maps made of them.
proof fn lemma_put_is_insert<K, V>(before: Seq<(K, V)>, after: Seq<(K, V)>, key: K, value: V)
    requires
        keys_differ(before),
        keys_differ(after),
        after_put(before, after, key, value),
    ensures
        map_of(after) == map_of(before).insert(key, value),
{
    let m1 = map_of(before);
    let m2 = map_of(after);
    lemma_map_of_distinct(before);
    lemma_map_of_distinct(after);
    assert forall|k: K| m2.contains_key(k) implies m1.insert(key, value).contains_pair(
        k,
        m2[k],
    ) by {
        let i = choose|i: int| 0 <= i < after.len() && (#[trigger] after[i]).0 == k;
        assert(m2.contains_pair(after[i].0, after[i].1));
        assert(after.contains((k, after[i].1)));
        if k != key {
            let j = choose|j: int| 0 <= j < before.len() && before[j] == (k, after[i].1);
            assert(m1.contains_pair(before[j].0, before[j].1));
        }
    }
    assert forall|k: K| m1.insert(key, value).contains_key(k) implies m2.contains_key(k) by {
        if k == key {
            assert(after.contains((key, value)));
            let i = choose|i: int| 0 <= i < after.len() && after[i] == (key, value);
            assert(after[i].0 == key);
        } else {
            let i = choose|i: int| 0 <= i < before.len() && (#[trigger] before[i]).0 == k;
            assert(before.contains((k, before[i].1)));
            assert(after.contains((k, before[i].1)));
            let j = choose|j: int| 0 <= j < after.len() && after[j] == (k, before[i].1);
            assert(after[j].0 == k);
        }
    }
    assert(m2 =~= m1.insert(key, value));
}

/// `after` holds what `before` holds, but for the key `key`.
spec fn after_removal<K, V>(before: Seq<(K, V)>, after: Seq<(K, V)>, key: K) -> bool {
    forall|k: K, v: V| #[trigger] after.contains((k, v)) <==> k != key && before.contains((k, v))
}

/// What `after_removal` says of two lists without repeated keys, said of the maps made of
/// them.
proof fn lemma_removal_is_remove<K, V>(before: Seq<(K, V)>, after: Seq<(K, V)>, key: K)
    requires
        keys_differ(before),
        keys_differ(after),
        after_removal(before, after, key),
    ensures
        map_of(after) == map_of(before).remove(key),
{
    let m1 = map_of(before);
    let m2 = map_of(after);
    lemma_map_of_distinct(before);
    lemma_map_of_distinct(after);
    assert forall|k: K| m2.contains_key(k) implies m1.remove(key).contains_pair(k, m2[k]) by {
        let i = choose|i: int| 0 <= i < after.len() && (#[trigger] after[i]).0 == k;
        assert(m2.contains_pair(after[i].0, after[i].1));
        assert(after.contains((k, after[i].1)));
        let j = choose|j: int| 0 <= j < before.len() && before[j] == (k, after[i].1);
        assert(m1.contains_pair(before[j].0, before[j].1));
    }
    assert forall|k: K| m1.remove(key).contains_key(k) implies m2.contains_key(k) by {
        let i = choose|i: int| 0 <= i < before.len() && (#[trigger] before[i]).0 == k;
        assert(before.contains((k, before[i].1)));
        assert(after.contains((k, before[i].1)));
        let j = choose|j: int| 0 <= j < after.len() && after[j] == (k, before[i].1);
        assert(after[j].0 == k);
    }
    assert(m2 =~= m1.remove(key));
}

/// A change to one bucket that leaves every entry in its place: what it does to the flat
/// list.
proof fn lemma_bucket_changed<K, V, H: KeyHasher<K>>(
    table: Seq<Seq<(K, V)>>,
    changed: Seq<Seq<(K, V)>>,
    hasher: H,
    at: int,
)
    requires
        0 <= at < table.len(),
        placed(table, hasher, table.len() as int),
        chains_differ(table),
        changed == table.update(at, changed[at]),
        keys_differ(changed[at]),
        forall|i: int|
            0 <= i < changed[at].len() ==> slot(
                hasher,
                (#[trigger] changed[at][i]).0,
                table.len() as int,
            ) == at,
    ensures
        placed(changed, hasher, changed.len() as int),
        chains_differ(changed),
        keys_differ(flat(changed)),
        keys_differ(flat(table)),
        flat(changed).len() == flat(table).len() - table[at].len() + changed[at].len(),
        forall|e: (K, V)| #[trigger]
            flat(changed).contains(e) <==> changed[at].contains(e) || (flat(table).contains(e)
                && !table[at].contains(e)),
{
    let n = table.len() as int;
    assert forall|b: int, i: int| 0 <= b < changed.len() && 0 <= i < changed[b].len() implies slot(
        hasher,
        (#[trigger] changed[b][i]).0,
        n,
    ) == b by {
        if b != at {
            assert(changed[b][i] == table[b][i]);
        }
    }
    assert forall|b: int| 0 <= b < changed.len() implies keys_differ(#[trigger] changed[b]) by {
        if b != at {
            assert(changed[b] == table[b]);
        }
    }
    lemma_flat_keys_differ(table, hasher, n);
    lemma_flat_keys_differ(changed, hasher, n);
    lemma_flat_split(table, at);
    lemma_flat_split(changed, at);
    assert(changed.take(at) =~= table.take(at));
    assert(changed.skip(at + 1) =~= table.skip(at + 1));
    let a = flat(table.take(at));
    let b = flat(table.skip(at + 1));
    assert forall|e: (K, V)| #[trigger]
        flat(changed).contains(e) <==> changed[at].contains(e) || (flat(table).contains(e)
            && !table[at].contains(e)) by {
        lemma_parts_contain(a, table[at], b, e);
        lemma_parts_contain(a, changed[at], b, e);
        if table[at].contains(e) && (a.contains(e) || b.contains(e)) {
            let whole = flat(table);
            let m = choose|m: int| 0 <= m < table[at].len() && table[at][m] == e;
            assert(whole[a.len() + m] == e);
            if a.contains(e) {
                let i = choose|i: int| 0 <= i < a.len() && a[i] == e;
                assert(whole[i] == e);
                assert(whole[i].0 != whole[a.len() + m].0);
            } else {
                let i = choose|i: int| 0 <= i < b.len() && b[i] == e;
                assert(whole[a.len() + table[at].len() + i] == e);
                assert(whole[a.len() + m].0 != whole[a.len() + table[at].len() + i].0);
            }
        }
    }
}

/// With every entry in its place, an entry of the flat list is in the bucket in which its
/// key belongs.
proof fn lemma_entry_in_its_bucket<K, V, H: KeyHasher<K>>(
    table: Seq<Seq<(K, V)>>,
    hasher: H,
    e: (K, V),
)
    requires
        placed(table, hasher, table.len() as int),
        flat(table).contains(e),
    ensures
        table.len() > 0,
        table[slot(hasher, e.0, table.len() as int)].contains(e),
{
    lemma_flat_contains(table, e);
    let b = choose|b: int| 0 <= b < table.len() && (#[trigger] table[b]).contains(e);
    let m = choose|m: int| 0 <= m < table[b].len() && table[b][m] == e;
    assert(slot(hasher, table[b][m].0, table.len() as int) == b);
}

/// Putting a key into the bucket in which it belongs puts it into the map.
proof fn lemma_bucket_put<K, V, H: KeyHasher<K>>(
    table: Seq<Seq<(K, V)>>,
    changed: Seq<Seq<(K, V)>>,
    hasher: H,
    key: K,
    value: V,
)
    requires
        table.len() > 0,
        placed(table, hasher, table.len() as int),
        chains_differ(table),
        changed == table.update(
            slot(hasher, key, table.len() as int),
            changed[slot(hasher, key, table.len() as int)],
        ),
        keys_differ(changed[slot(hasher, key, table.len() as int)]),
        after_put(
            table[slot(hasher, key, table.len() as int)],
            changed[slot(hasher, key, table.len() as int)],
            key,
            value,
        ),
    ensures
        placed(changed, hasher, changed.len() as int),
        chains_differ(changed),
        flat(changed).len() == flat(table).len() - table[slot(
            hasher,
            key,
            table.len() as int,
        )].len() + changed[slot(hasher, key, table.len() as int)].len(),
        map_of(flat(changed)) == map_of(flat(table)).insert(key, value),
{
    let n = table.len() as int;
    let at = slot(hasher, key, n);
    assert forall|i: int| 0 <= i < changed[at].len() implies slot(
        hasher,
        (#[trigger] changed[at][i]).0,
        n,
    ) == at by {
        let e = changed[at][i];
        assert(changed[at].contains((e.0, e.1)));
        if e.0 != key {
            let m = choose|m: int| 0 <= m < table[at].len() && table[at][m] == e;
            assert(slot(hasher, table[at][m].0, n) == at);
        }
    }
    lemma_bucket_changed(table, changed, hasher, at);
    assert forall|k: K, v: V| #[trigger]
        flat(changed).contains((k, v)) <==> (k == key && v == value) || (k != key && flat(
            table,
        ).contains((k, v))) by {
        if flat(table).contains((k, v)) {
            lemma_entry_in_its_bucket(table, hasher, (k, v));
        }
        if table[at].contains((k, v)) {
            lemma_flat_contains(table, (k, v));
        }
    }
    lemma_put_is_insert(flat(table), flat(changed), key, value);
}

/// Taking a key out of the bucket in which it belongs takes it out of the map.
proof fn lemma_bucket_removal<K, V, H: KeyHasher<K>>(
    table: Seq<Seq<(K, V)>>,
    changed: Seq<Seq<(K, V)>>,
    hasher: H,
    key: K,
    at: int,
)
    requires
        table.len() > 0,
        placed(table, hasher, table.len() as int),
        chains_differ(table),
        0 <= at < table[slot(hasher, key, table.len() as int)].len(),
        table[slot(hasher, key, table.len() as int)][at].0 == key,
        changed == table.update(
            slot(hasher, key, table.len() as int),
            table[slot(hasher, key, table.len() as int)].remove(at),
        ),
    ensures
        placed(changed, hasher, changed.len() as int),
        chains_differ(changed),
        flat(changed).len() == flat(table).len() - 1,
        map_of(flat(changed)) == map_of(flat(table)).remove(key),
        map_of(flat(table)).contains_key(key),
        map_of(flat(table))[key] == table[slot(hasher, key, table.len() as int)][at].1,
{
    let n = table.len() as int;
    let home = slot(hasher, key, n);
    let chain = table[home];
    let shorter = chain.remove(at);
    assert(changed[home] == shorter);
    assert forall|i: int| 0 <= i < shorter.len() implies (#[trigger] shorter[i]) == chain[if i
        < at {
        i
    } else {
        i + 1
    }] by {}
    assert forall|i: int, j: int| 0 <= i < j < shorter.len() implies (#[trigger] shorter[i]).0 != (
    #[trigger] shorter[j]).0 by {
        let i2 = if i < at {
            i
        } else {
            i + 1
        };
        let j2 = if j < at {
            j
        } else {
            j + 1
        };
        assert(chain[i2].0 != chain[j2].0);
    }
    assert forall|i: int| 0 <= i < shorter.len() implies slot(hasher, (#[trigger] shorter[i]).0, n)
        == home by {
        let i2 = if i < at {
            i
        } else {
            i + 1
        };
        assert(slot(hasher, table[home][i2].0, n) == home);
    }
    lemma_bucket_changed(table, changed, hasher, home);
    assert forall|k: K, v: V| #[trigger]
        shorter.contains((k, v)) <==> k != key && chain.contains((k, v)) by {
        if shorter.contains((k, v)) {
            let i = choose|i: int| 0 <= i < shorter.len() && shorter[i] == (k, v);
            let i2 = if i < at {
                i
            } else {
                i + 1
            };
            assert(chain[i2] == (k, v));
            if i2 < at {
                assert(chain[i2].0 != chain[at].0);
            } else {
                assert(chain[at].0 != chain[i2].0);
            }
        }
        if k != key && chain.contains((k, v)) {
            let i = choose|i: int| 0 <= i < chain.len() && chain[i] == (k, v);
            if i < at {
                assert(shorter[i] == (k, v));
            } else {
                assert(shorter[i - 1] == (k, v));
            }
        }
    }
    assert forall|k: K, v: V| #[trigger]
        flat(changed).contains((k, v)) <==> k != key && flat(table).contains((k, v)) by {
        if flat(table).contains((k, v)) {
            lemma_entry_in_its_bucket(table, hasher, (k, v));
        }
        if chain.contains((k, v)) {
            lemma_flat_contains(table, (k, v));
        }
    }
    lemma_removal_is_remove(flat(table), flat(changed), key);
    assert(chain.contains(chain[at]));
    lemma_flat_contains(table, chain[at]);
    lemma_map_of_distinct(flat(table));
    let all = flat(table);
    let i = choose|i: int| 0 <= i < all.len() && all[i] == chain[at];
    assert(map_of(all).contains_pair(all[i].0, all[i].1));
}

/// The table is in order under `hasher`: every entry is in the bucket in which its key
/// belongs, no bucket holds a key twice, and the count of entries is right.
spec fn table_in_order<K, V, H: KeyHasher<K>>(table: Table<K, V>, hasher: H) -> bool {
    &&& placed(contents(table.buckets@), hasher, table.buckets.len() as int)
    &&& chains_differ(contents(table.buckets@))
    &&& table.size == flat(contents(table.buckets@)).len()
}

/// The map that the table represents.
spec fn table_map<K, V>(table: Table<K, V>) -> Map<K, V> {
    map_of(flat(contents(table.buckets@)))
}

/// The index of the bucket in which `key` belongs, of `buckets` buckets.
fn bucket_index<K, H: KeyHasher<K>>(hasher: &H, key: &K, buckets: usize) -> (index: usize)
    requires
        buckets > 0,
    ensures
        index == slot(*hasher, *key, buckets as int),
        index < buckets,
{
    let digest = hasher.hash(key);
    (digest % (buckets as u64)) as usize
}

/// The place of `key` in `chain`, if it has one.
fn find_in_chain<K: Eq, V>(chain: &Vec<(K, V)>, key: &K) -> (found: Option<usize>)
    requires
        exact_equality::<K>(),
    ensures
        match found {
            Some(at) => at < chain.len() && chain[at as int].0 == *key,
            None => !has_key(chain@, *key),
        },
{
    let mut i: usize = 0;
    while i < chain.len()
        invariant
            exact_equality::<K>(),
            i <= chain.len(),
            forall|j: int| 0 <= j < i ==> (#[trigger] chain[j]).0 != *key,
        decreases chain.len() - i,
    {
        if is_equal(&chain[i].0, key) {
            return Some(i);
        }
        i += 1;
    }
    None
}

/// A row of `count` empty buckets.
fn empty_buckets<K, V>(count: usize) -> (buckets: Vec<Vec<(K, V)>>)
    ensures
        buckets.len() == count,
        forall|b: int| 0 <= b < count ==> (#[trigger] buckets[b]).len() == 0,
        flat(contents(buckets@)).len() == 0,
{
    let mut buckets: Vec<Vec<(K, V)>> = Vec::new();
    let mut b: usize = 0;
    proof {
        assert(flat(contents(buckets@)) =~= Seq::<(K, V)>::empty());
    }
    while b < count
        invariant
            b <= count,
            buckets.len() == b,
            forall|i: int| 0 <= i < b ==> (#[trigger] buckets[i]).len() == 0,
            flat(contents(buckets@)).len() == 0,
        decreases count - b,
    {
        let ghost before = contents(buckets@);
        buckets.push(Vec::new());
        proof {
            let after = contents(buckets@);
            assert(after.drop_last() =~= before);
            assert(flat(after) =~= flat(before) + after.last());
        }
        b += 1;
    }
    buckets
}

/// Puts `key` with `value` into the bucket in which `key` belongs.
fn put<K: Eq, V, H: KeyHasher<K>>(table: &mut Table<K, V>, hasher: &H, key: K, value: V)
    requires
        exact_equality::<K>(),
        table_in_order(*old(table), *hasher),
        old(table).buckets.len() > 0,
        old(table).size < usize::MAX,
    ensures
        table_in_order(*final(table), *hasher),
        final(table).buckets.len() == old(table).buckets.len(),
        table_map(*final(table)) == table_map(*old(table)).insert(key, value),
{
    let ghost before = contents(table.buckets@);
    let index = bucket_index(hasher, &key, table.buckets.len());
    let ghost chain = table.buckets[index as int]@;
    match find_in_chain(&table.buckets[index], &key) {
        Some(at) => {
            let bucket = &mut table.buckets[index];
            bucket[at] = (key, value);
            proof {
                let after = contents(table.buckets@);
                let changed = after[index as int];
                assert(changed == chain.update(at as int, (key, value)));
                assert(after =~= before.update(index as int, changed));
                assert(chain == before[index as int]);
                assert(keys_differ(chain));
                assert forall|i: int, j: int| 0 <= i < j < changed.len() implies (
                #[trigger] changed[i]).0 != (#[trigger] changed[j]).0 by {
                    assert(chain[i].0 != chain[j].0);
                }
                assert forall|k: K, v: V| #[trigger]
                    changed.contains((k, v)) <==> (k == key && v == value) || (k != key
                        && chain.contains((k, v))) by {
                    if changed.contains((k, v)) {
                        let i = choose|i: int| 0 <= i < changed.len() && changed[i] == (k, v);
                        if i != at {
                            assert(chain[i] == (k, v));
                            if i < at {
                                assert(chain[i].0 != chain[at as int].0);
                            } else {
                                assert(chain[at as int].0 != chain[i].0);
                            }
                        }
                    }
                    if k != key && chain.contains((k, v)) {
                        let i = choose|i: int| 0 <= i < chain.len() && chain[i] == (k, v);
                        assert(changed[i] == (k, v));
                    }
                    if k == key && v == value {
                        assert(changed[at as int] == (k, v));
                    }
                }
                lemma_bucket_put(before, after, *hasher, key, value);
            }
        },
        None => {
            let bucket = &mut table.buckets[index];
            bucket.push((key, value));
            table.size += 1;
            proof {
                let after = contents(table.buckets@);
                let changed = after[index as int];
                assert(changed == chain.push((key, value)));
                assert(after =~= before.update(index as int, changed));
                assert(chain == before[index as int]);
                assert(keys_differ(chain));
                assert forall|i: int, j: int| 0 <= i < j < changed.len() implies (
                #[trigger] changed[i]).0 != (#[trigger] changed[j]).0 by {
                    if j < chain.len() {
                        assert(chain[i].0 != chain[j].0);
                    } else {
                        assert(chain[i].0 != key);
                    }
                }
                assert forall|k: K, v: V| #[trigger]
                    changed.contains((k, v)) <==> (k == key && v == value) || (k != key
                        && chain.contains((k, v))) by {
                    if changed.contains((k, v)) {
                        let i = choose|i: int| 0 <= i < changed.len() && changed[i] == (k, v);
                        if i < chain.len() {
                            assert(chain[i] == (k, v));
                        }
                    }
                    if k != key && chain.contains((k, v)) {
                        let i = choose|i: int| 0 <= i < chain.len() && chain[i] == (k, v);
                        assert(changed[i] == (k, v));
                    }
                    if k == key && v == value {
                        assert(changed[chain.len() as int] == (k, v));
                    }
                }
                lemma_bucket_put(before, after, *hasher, key, value);
            }
        },
    }
}

/// Spreads the entries over `new_count` buckets, if that is more than there are.
fn rehash<K: Eq, V, H: KeyHasher<K>>(table: &mut Table<K, V>, hasher: &H, new_count: usize)
    requires
        table_in_order(*old(table), *hasher),
    ensures
        table_in_order(*final(table), *hasher),
        final(table).buckets.len() == if new_count > old(table).buckets.len() {
            new_count
        } else {
            old(table).buckets.len()
        },
        table_map(*final(table)) == table_map(*old(table)),
        final(table).size == old(table).size,
{
    if new_count <= table.buckets.len() {
        return ;
    }
    let ghost source = contents(table.buckets@);
    let ghost all = flat(source);
    proof {
        lemma_flat_keys_differ(source, *hasher, source.len() as int);
    }
    let mut fresh: Vec<Vec<(K, V)>> = empty_buckets(new_count);
    let mut old_buckets: Vec<Vec<(K, V)>> = Vec::new();
    core::mem::swap(&mut old_buckets, &mut table.buckets);
    let ghost mut moved: int = 0;
    proof {
        assert(source.take(0) =~= Seq::<Seq<(K, V)>>::empty());
        assert forall|e: (K, V)| !flat(contents(fresh@)).contains(e) by {}
        assert forall|b: int| 0 <= b < fresh.len() implies keys_differ(
            #[trigger] contents(fresh@)[b],
        ) by {
            assert(fresh[b].len() == 0);
        }
    }
    for chain in outer: old_buckets
        invariant
            outer.seq() == old_buckets@,
            source == contents(old_buckets@),
            all == flat(source),
            keys_differ(all),
            fresh.len() == new_count,
            new_count > 0,
            placed(contents(fresh@), *hasher, new_count as int),
            chains_differ(contents(fresh@)),
            moved == flat(source.take(outer.index() as int)).len(),
            0 <= moved <= all.len(),
            flat(contents(fresh@)).len() == moved,
            forall|e: (K, V)| #[trigger]
                flat(contents(fresh@)).contains(e) <==> all.take(moved).contains(e),
    {
        let ghost b = outer.index() as int;
        let ghost start = moved;
        proof {
            lemma_flat_split(source, b);
            assert(source[b] == chain@);
            assert(source.take(b + 1).drop_last() =~= source.take(b));
            assert(flat(source.take(b + 1)) == flat(source.take(b)) + source[b]);
            assert(chain@.take(0) =~= Seq::<(K, V)>::empty());
        }
        for entry in inner: chain
            invariant
                inner.seq() == chain@,
                chain@ == source[b],
                0 <= b < source.len(),
                all == flat(source.take(b)) + source[b] + flat(source.skip(b + 1)),
                start == flat(source.take(b)).len(),
                keys_differ(all),
                fresh.len() == new_count,
                new_count > 0,
                placed(contents(fresh@), *hasher, new_count as int),
                chains_differ(contents(fresh@)),
                moved == start + inner.index(),
                flat(contents(fresh@)).len() == moved,
                forall|e: (K, V)| #[trigger]
                    flat(contents(fresh@)).contains(e) <==> all.take(moved).contains(e),
        {
            let ghost before = contents(fresh@);
            let ghost e0 = entry;
            let index = bucket_index(hasher, &entry.0, new_count);
            let bucket = &mut fresh[index];
            bucket.push(entry);
            proof {
                let after = contents(fresh@);
                let home = before[index as int];
                let changed = after[index as int];
                assert(all[moved] == e0);
                assert(changed == home.push(e0));
                assert(after =~= before.update(index as int, changed));
                assert forall|i: int| 0 <= i < home.len() implies (#[trigger] home[i]).0
                    != e0.0 by {
                    assert(home.contains(home[i]));
                    lemma_flat_contains(before, home[i]);
                    let done = all.take(moved);
                    assert(done.contains(home[i]));
                    let j = choose|j: int| 0 <= j < done.len() && done[j] == home[i];
                    assert(all[j].0 != all[moved].0);
                }
                assert(keys_differ(home));
                assert forall|i: int, j: int| 0 <= i < j < changed.len() implies (
                #[trigger] changed[i]).0 != (#[trigger] changed[j]).0 by {
                    if j < home.len() {
                        assert(home[i].0 != home[j].0);
                    }
                }
                assert forall|i: int| 0 <= i < changed.len() implies slot(
                    *hasher,
                    (#[trigger] changed[i]).0,
                    new_count as int,
                ) == index by {
                    if i < home.len() {
                        assert(slot(*hasher, before[index as int][i].0, new_count as int) == index);
                    }
                }
                lemma_bucket_changed(before, after, *hasher, index as int);
                let done = all.take(moved);
                let done2 = all.take(moved + 1);
                assert(0 <= moved < all.len());
                assert(done2.len() == moved + 1);
                assert forall|e: (K, V)| #[trigger]
                    flat(after).contains(e) <==> done2.contains(e) by {
                    assert(flat(before).contains(e) <==> done.contains(e));
                    assert(flat(after).contains(e) <==> changed.contains(e) || (flat(
                        before,
                    ).contains(e) && !home.contains(e)));
                    if home.contains(e) {
                        lemma_flat_contains(before, e);
                        let i = choose|i: int| 0 <= i < home.len() && home[i] == e;
                        assert(changed[i] == e);
                    }
                    if changed.contains(e) {
                        let i = choose|i: int| 0 <= i < changed.len() && changed[i] == e;
                        if i < home.len() {
                            assert(home[i] == e);
                        }
                    }
                    if e == e0 {
                        assert(changed[home.len() as int] == e);
                        assert(done2[moved] == e);
                    }
                    if done.contains(e) {
                        let j = choose|j: int| 0 <= j < done.len() && done[j] == e;
                        assert(done2[j] == e);
                    }
                    if done2.contains(e) {
                        let j = choose|j: int| 0 <= j < done2.len() && done2[j] == e;
                        if j < moved {
                            assert(done[j] == e);
                        }
                    }
                }
                moved = moved + 1;
            }
        }
    }
    proof {
        assert(source.take(source.len() as int) =~= source);
        assert(all.take(moved) =~= all);
        lemma_flat_keys_differ(contents(fresh@), *hasher, new_count as int);
        lemma_same_entries_same_map(flat(contents(fresh@)), all);
    }
    table.buckets = fresh;
}

impl<K: Eq, V, H: KeyHasher<K>> View for HashMap<K, V, H> {
    type V = Map<K, V>;

    closed spec fn view(&self) -> Map<K, V> {
        table_map(self.table)
    }
}

impl<K: Eq, V, H: KeyHasher<K>> HashMap<K, V, H> {
    #[verifier::type_invariant]
    spec fn well_formed(self) -> bool {
        &&& exact_equality::<K>()
        &&& table_in_order(self.table, self.hasher)
        &&& self.max_load.numerator > 0
        &&& self.max_load.denominator > 0
    }

    /// The number of buckets, as a specification.
    pub closed spec fn spec_bucket_count(&self) -> usize {
        self.table.buckets.len()
    }

    /// The number of buckets.
    #[verifier::when_used_as_spec(spec_bucket_count)]
    pub fn bucket_count(&self) -> (count: usize)
        ensures
            count == self.spec_bucket_count(),
    {
        self.table.buckets.len()
    }

    /// The maximum load factor.
    pub closed spec fn max_load(&self) -> Ratio {
        self.max_load
    }

    /// The hasher that the map was made with.
    pub closed spec fn hasher(&self) -> H {
        self.hasher
    }

    /// An empty map of `capacity` buckets that hashes with `hasher`. Its maximum load
    /// factor is 2.
    pub fn with_capacity_and_hasher(capacity: usize, hasher: H) -> (map: Self)
        requires
            exact_equality::<K>(),
        ensures
            map@ == Map::<K, V>::empty(),
            map.bucket_count() == capacity,
            map.max_load() == (Ratio { numerator: 2, denominator: 1 }),
            map.hasher() == hasher,
    {
        let buckets = empty_buckets(capacity);
        let map = HashMap {
            table: Table { buckets, size: 0 },
            max_load: Ratio { numerator: 2, denominator: 1 },
            hasher,
        };
        proof {
            assert(flat(contents(map.table.buckets@)) =~= Seq::<(K, V)>::empty());
            assert(map_of(Seq::<(K, V)>::empty()) =~= Map::<K, V>::empty());
            assert forall|b: int| 0 <= b < map.table.buckets.len() implies keys_differ(
                #[trigger] contents(map.table.buckets@)[b],
            ) by {
                assert(map.table.buckets[b].len() == 0);
            }
        }
        map
    }

    /// Removes every entry; the buckets stay.
    pub fn clear(&mut self)
        ensures
            final(self)@ == Map::<K, V>::empty(),
            final(self).bucket_count() == old(self).bucket_count(),
            final(self).max_load() == old(self).max_load(),
            final(self).hasher() == old(self).hasher(),
    {
        proof {
            use_type_invariant(&*self);
        }
        let count = self.table.buckets.len();
        let buckets = empty_buckets(count);
        proof {
            assert(flat(contents(buckets@)) =~= Seq::<(K, V)>::empty());
            assert(map_of(Seq::<(K, V)>::empty()) =~= Map::<K, V>::empty());
            assert forall|b: int| 0 <= b < buckets.len() implies keys_differ(
                #[trigger] contents(buckets@)[b],
            ) by {
                assert(buckets[b].len() == 0);
            }
        }
        self.table = Table { buckets, size: 0 };
    }

    /// Sets the value of `key` to `value`, whether or not the map held `key`. Before that,
    /// the map grows from `n` to `2n + 1` buckets if, with one entry more, it would reach its
    /// maximum load factor.
    pub fn insert(&mut self, key: K, value: V)
        requires
            old(self)@.len() < usize::MAX,
            old(self).bucket_count() <= (usize::MAX - 1) / 2,
        ensures
            final(self)@ == old(self)@.insert(key, value),
            final(self).bucket_count() == if must_grow(
                old(self)@.len(),
                old(self).bucket_count() as nat,
                old(self).max_load(),
            ) {
                2 * old(self).bucket_count() + 1
            } else {
                old(self).bucket_count() as int
            },
            final(self).max_load() == old(self).max_load(),
            final(self).hasher() == old(self).hasher(),
    {
        proof {
            use_type_invariant(&*self);
            lemma_flat_keys_differ(
                contents(self.table.buckets@),
                self.hasher,
                self.table.buckets.len() as int,
            );
            lemma_map_of_distinct(flat(contents(self.table.buckets@)));
        }
        let mut table = Table { buckets: Vec::new(), size: 0 };
        proof {
            assert(flat(contents(table.buckets@)) =~= Seq::<(K, V)>::empty());
        }
        core::mem::swap(&mut table, &mut self.table);
        let count = table.buckets.len();
        if Self::reaches_max_load(table.size, count, self.max_load) {
            rehash(&mut table, &self.hasher, 2 * count + 1);
        }
        proof {
            if table.buckets.len() == 0 {
                assert(must_grow(table.size as nat, 0, self.max_load)) by (nonlinear_arith)
                    requires
                        self.max_load.denominator > 0,
                ;
            }
        }
        put(&mut table, &self.hasher, key, value);
        self.table = table;
    }

    /// Whether one entry more than `entries` would bring `buckets` buckets to the load
    /// `max_load`.
    fn reaches_max_load(entries: usize, buckets: usize, max_load: Ratio) -> (reached: bool)
        ensures
            reached == must_grow(entries as nat, buckets as nat, max_load),
    {
        let with_one_more: u128 = entries as u128 + 1;
        let denominator: u128 = max_load.denominator as u128;
        let numerator: u128 = max_load.numerator as u128;
        let wide_buckets: u128 = buckets as u128;
        assert(with_one_more * denominator <= 0x1_0000_0000_0000_0000 * 0xffff_ffff_ffff_ffff)
            by (nonlinear_arith)
            requires
                with_one_more <= 0x1_0000_0000_0000_0000,
                denominator <= 0xffff_ffff_ffff_ffff,
        ;
        assert(numerator * wide_buckets <= 0xffff_ffff_ffff_ffff * 0xffff_ffff_ffff_ffff)
            by (nonlinear_arith)
            requires
                numerator <= 0xffff_ffff_ffff_ffff,
                wide_buckets <= 0xffff_ffff_ffff_ffff,
        ;
        with_one_more * denominator >= numerator * wide_buckets
    }

    /// Takes `key` out of the map and returns its value, or `None` if the map does not hold
    /// `key`. The other entries of the bucket keep their order.
    pub fn remove(&mut self, key: &K) -> (removed: Option<V>)
        ensures
            removed == if old(self)@.contains_key(*key) {
                Some(old(self)@[*key])
            } else {
                None
            },
            final(self)@ == old(self)@.remove(*key),
            final(self).bucket_count() == old(self).bucket_count(),
            final(self).max_load() == old(self).max_load(),
            final(self).hasher() == old(self).hasher(),
    {
        proof {
            use_type_invariant(&*self);
        }
        let ghost before = contents(self.table.buckets@);
        if self.table.buckets.len() == 0 {
            proof {
                assert(flat(before) =~= Seq::<(K, V)>::empty());
                assert(self@ =~= self@.remove(*key));
            }
            return None;
        }
        let mut table = Table { buckets: Vec::new(), size: 0 };
        proof {
            assert(flat(contents(table.buckets@)) =~= Seq::<(K, V)>::empty());
        }
        core::mem::swap(&mut table, &mut self.table);
        let index = bucket_index(&self.hasher, key, table.buckets.len());
        let removed = match find_in_chain(&table.buckets[index], key) {
            Some(at) => {
                let bucket = &mut table.buckets[index];
                let entry = bucket.remove(at);
                proof {
                    let after = contents(table.buckets@);
                    assert(after =~= before.update(
                        index as int,
                        before[index as int].remove(at as int),
                    ));
                    lemma_bucket_removal(before, after, self.hasher, *key, at as int);
                }
                table.size -= 1;
                Some(entry.1)
            },
            None => {
                proof {
                    lemma_key_in_its_bucket(before, self.hasher, *key);
                    assert(table_map(table) =~= table_map(table).remove(*key));
                }
                None
            },
        };
        self.table = table;
        removed
    }

    /// The value of `key`, or `None` if the map does not hold `key`.
    pub fn get(&self, key: &K) -> (value: Option<&V>)
        ensures
            value == if self@.contains_key(*key) {
                Some(&self@[*key])
            } else {
                None
            },
    {
        proof {
            use_type_invariant(self);
        }
        let ghost table = contents(self.table.buckets@);
        if self.table.buckets.len() == 0 {
            proof {
                assert(flat(table) =~= Seq::<(K, V)>::empty());
            }
            return None;
        }
        let index = bucket_index(&self.hasher, key, self.table.buckets.len());
        proof {
            lemma_key_in_its_bucket(table, self.hasher, *key);
        }
        match find_in_chain(&self.table.buckets[index], key) {
            Some(at) => {
                proof {
                    let chain = table[index as int];
                    assert(chain.contains(chain[at as int]));
                    lemma_flat_contains(table, chain[at as int]);
                    lemma_flat_keys_differ(table, self.hasher, table.len() as int);
                    lemma_map_of_distinct(flat(table));
                    let all = flat(table);
                    let i = choose|i: int| 0 <= i < all.len() && all[i] == chain[at as int];
                    assert(map_of(all).contains_pair(all[i].0, all[i].1));
                }
                Some(&self.table.buckets[index][at].1)
            },
            None => None,
        }
    }

    /// The value of `key`, which the map must hold.
    pub fn index(&self, key: &K) -> (value: &V)
        requires
            self@.contains_key(*key),
        ensures
            *value == self@[*key],
    {
        let found = self.get(key);
        found.unwrap()
    }

    /// The number of entries.
    pub fn len(&self) -> (count: usize)
        ensures
            count == self@.len(),
            self@.dom().finite(),
    {
        proof {
            use_type_invariant(self);
            lemma_flat_keys_differ(
                contents(self.table.buckets@),
                self.hasher,
                self.table.buckets.len() as int,
            );
            lemma_map_of_distinct(flat(contents(self.table.buckets@)));
        }
        self.table.size
    }

    /// Whether the map holds no entry.
    pub fn is_empty(&self) -> (empty: bool)
        ensures
            empty == (self@.len() == 0),
    {
        self.len() == 0
    }

    /// The maximum load factor: the map grows before it would hold this many entries to a
    /// bucket.
    pub fn max_load_factor(&self) -> (max_load: Ratio)
        ensures
            max_load == self.max_load(),
            max_load.numerator > 0,
            max_load.denominator > 0,
    {
        proof {
            use_type_invariant(self);
        }
        self.max_load
    }

    /// Sets the maximum load factor to `factor` if `factor` is positive, that is, if
    /// neither of its two numbers is zero; otherwise leaves it as it is.
    pub fn set_max_load_factor(&mut self, factor: Ratio)
        ensures
            final(self).max_load() == if factor.numerator > 0 && factor.denominator > 0 {
                factor
            } else {
                old(self).max_load()
            },
            final(self)@ == old(self)@,
            final(self).bucket_count() == old(self).bucket_count(),
            final(self).hasher() == old(self).hasher(),
    {
        proof {
            use_type_invariant(&*self);
        }
        if factor.numerator > 0 && factor.denominator > 0 {
            self.max_load = factor;
        }
    }

    /// The load factor: the number of entries to the number of buckets, or 0 to 1 if there
    /// is no bucket.
    pub fn load_factor(&self) -> (load: Ratio)
        ensures
            load == if self.bucket_count() == 0 {
                Ratio { numerator: 0, denominator: 1 }
            } else {
                Ratio { numerator: self@.len() as u64, denominator: self.bucket_count() as u64 }
            },
    {
        let entries = self.len();
        if self.table.buckets.len() == 0 {
            Ratio { numerator: 0, denominator: 1 }
        } else {
            Ratio { numerator: entries as u64, denominator: self.table.buckets.len() as u64 }
        }
    }
}

impl<K: Eq, V> HashMap<K, V, DefaultKeyHasher> where DefaultKeyHasher: KeyHasher<K> {
    /// An empty map of `capacity` buckets that hashes with the default hasher.
    pub fn new(capacity: usize) -> (map: Self)
        requires
            exact_equality::<K>(),
        ensures
            map@ == Map::<K, V>::empty(),
            map.bucket_count() == capacity,
            map.max_load() == (Ratio { numerator: 2, denominator: 1 }),
    {
        Self::with_capacity_and_hasher(capacity, DefaultKeyHasher {  })
    }

    /// An empty map of 16 buckets that hashes with the default hasher.
    pub fn default() -> (map: Self)
        requires
            exact_equality::<K>(),
        ensures
            map@ == Map::<K, V>::empty(),
            map.bucket_count() == 16,
            map.max_load() == (Ratio { numerator: 2, denominator: 1 }),
    {
        Self::new(16)
    }
}

/// After an insert the load factor is at most the maximum load factor, unless the map
/// grew and even with `2n + 1` buckets holds more entries than that factor allows.
pub proof fn lemma_load_after_insert(entries: nat, buckets: nat, max_load: Ratio, key_is_new: bool)
    requires
        max_load.numerator > 0,
        max_load.denominator > 0,
        !must_grow(entries, buckets, max_load) || (entries + 1) * max_load.denominator
            <= max_load.numerator * (2 * buckets + 1),
    ensures
        ({
            let buckets_after = if must_grow(entries, buckets, max_load) {
                2 * buckets + 1
            } else {
                buckets
            };
            let entries_after = if key_is_new {
                entries + 1
            } else {
                entries
            };
            entries_after * max_load.denominator <= max_load.numerator * buckets_after
        }),
{
    assert(entries * max_load.denominator <= (entries + 1) * max_load.denominator)
        by (nonlinear_arith);
}

/// A map whose load factor is at most its maximum load factor, and whose maximum load
/// factor is 1 at least, grows enough when it grows.
pub proof fn lemma_growth_is_enough(entries: nat, buckets: nat, max_load: Ratio)
    requires
        max_load.numerator >= max_load.denominator,
        entries * max_load.denominator <= max_load.numerator * buckets,
    ensures
        (entries + 1) * max_load.denominator <= max_load.numerator * (2 * buckets + 1),
{
    assert((entries + 1) * max_load.denominator == entries * max_load.denominator
        + max_load.denominator) by (nonlinear_arith);
    assert(max_load.numerator * (2 * buckets + 1) == max_load.numerator * buckets
        + max_load.numerator * buckets + max_load.numerator) by (nonlinear_arith);
    assert(max_load.numerator * buckets >= 0) by (nonlinear_arith);
}

/// What was inserted last under a key is what is got under that key, and inserting leaves
/// what is got under other keys as it was.
pub proof fn lemma_insert_then_get<K, V>(map: Map<K, V>, key: K, value: V, other: K)
    ensures
        map.insert(key, value).contains_key(key),
        map.insert(key, value)[key] == value,
        other != key ==> map.insert(key, value).contains_key(other) == map.contains_key(other),
        other != key && map.contains_key(other) ==> map.insert(key, value)[other] == map[other],
{
}

} // verus!
