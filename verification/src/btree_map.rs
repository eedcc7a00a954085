//! An ordered map kept as a B-tree.
//!
//! To its users the map is a mathematical map. A tree of minimum degree `t` keeps between
//! `t - 1` and `2t - 1` entries in every node but the root, and all its leaves at the same
//! depth; an insert splits every full node on its way down, before it steps into it.
//!
//! What `get`, `find` and `iter` hand out are references into the map. They see the map as it
//! is; the map cannot be changed while one of them is alive.
//!
//! The map can be made for every key type whose order is total
//! ([`crate::order::total_order`]).

use crate::listing::{
    after_put,
    is_clone_of,
    lemma_clone_joins,
    lemma_clone_lists,
    ascending,
    at_or_after,
    has_key,
    lemma_map_of_lists,
    lemma_parts_contain,
    lemma_put_is_insert,
    lemma_suffix_lists,
    lemma_after_last,
    lemma_ascending_parts,
    lemma_before_first,
    lemma_put_here,
    lemma_put_within,
    lists_ascending,
    map_of,
};
use crate::order::{
    is_equal,
    is_less,
    lemma_same_rank_is_equal,
    lemma_transitive,
    lemma_trichotomy,
    less,
    total_order,
};
use vstd::prelude::*;

verus! {

/// A node of a B-tree: its entries in ascending order and, unless it is a leaf, one subtree
/// before each entry and one after the last.
#[derive(Debug)]
pub struct Node<K: Ord, V> {
    leaf: bool,
    keys: Vec<(K, V)>,
    children: Vec<Node<K, V>>,
}

/// A map from keys to values that keeps its keys in ascending order, as a B-tree of minimum
/// degree `t`: every node but the root holds between `t - 1` and `2t - 1` entries.
///
/// Its view is the mathematical map that it represents.
#[derive(Debug)]
pub struct BtreeMap<K: Ord, V> {
    t: usize,
    root: Option<Node<K, V>>,
}

/// An iterator over entries of a [`BtreeMap`], by ascending key.
///
/// It borrows the map: the entries it hands out are references into the map, which cannot
/// be changed while the iterator or one of those references is alive. Its view is the list of
/// the entries that it has yet to hand out.
#[derive(Debug)]
pub struct BtreeIterator<'a, K: Ord, V> {
    stack: Vec<(&'a Node<K, V>, usize)>,
}

/// The entries of `parts` and `keys` in turn: a part, a key, a part, and so on up to the
/// last part.
spec fn woven<K, V>(parts: Seq<Seq<(K, V)>>, keys: Seq<(K, V)>) -> Seq<(K, V)> {
    woven_head(parts, keys, keys.len() as int) + parts[keys.len() as int]
}

/// What `woven` holds before the part `upto`.
spec fn woven_head<K, V>(parts: Seq<Seq<(K, V)>>, keys: Seq<(K, V)>, upto: int) -> Seq<
    (K, V),
>
    decreases upto,
{
    if upto <= 0 {
        Seq::empty()
    } else {
        woven_head(parts, keys, upto - 1) + parts[upto - 1] + seq![keys[upto - 1]]
    }
}

/// What `woven` holds from the key `from` on.
spec fn woven_tail<K, V>(parts: Seq<Seq<(K, V)>>, keys: Seq<(K, V)>, from: int) -> Seq<
    (K, V),
>
    decreases keys.len() - from,
{
    if from >= keys.len() {
        Seq::empty()
    } else {
        seq![keys[from]] + parts[from + 1] + woven_tail(parts, keys, from + 1)
    }
}

/// The entries of each of the subtrees of `node`; for a leaf, as many empty lists.
spec fn node_parts<K: Ord, V>(node: Node<K, V>) -> Seq<Seq<(K, V)>>
    decreases node, 0nat,
{
    Seq::new(
        (node.keys.len() + 1) as nat,
        |i: int|
            if !node.leaf && 0 <= i < node.children.len() {
                node_entries(node.children[i])
            } else {
                Seq::empty()
            },
    )
}

/// The entries of the subtree `node`, in order of traversal from left to right.
spec fn node_entries<K: Ord, V>(node: Node<K, V>) -> Seq<(K, V)>
    decreases node, 1nat,
{
    woven(node_parts(node), node.keys@)
}

/// The height of the subtree `node`: 0 for a leaf.
spec fn node_height<K: Ord, V>(node: Node<K, V>) -> nat
    decreases node,
{
    if node.leaf || node.children.len() == 0 {
        0
    } else {
        1 + node_height(node.children[0])
    }
}

/// Below `node`, every node holds between `t - 1` and `2t - 1` entries and, unless it is a
/// leaf, one subtree more than entries; the subtrees of a node are all of one height. `node`
/// itself may hold fewer than `t - 1` entries.
spec fn shaped<K: Ord, V>(node: Node<K, V>, t: int) -> bool
    decreases node,
{
    &&& node.keys.len() <= 2 * t - 1
    &&& if node.leaf {
        node.children.len() == 0
    } else {
        &&& node.children.len() == node.keys.len() + 1
        &&& forall|i: int|
            0 <= i < node.children.len() ==> {
                &&& shaped(#[trigger] node.children[i], t)
                &&& node.children[i].keys.len() >= t - 1
                &&& node_height(node.children[i]) == node_height(node.children[0])
            }
    }
}

proof fn lemma_woven_split<K, V>(parts: Seq<Seq<(K, V)>>, keys: Seq<(K, V)>, at: int)
    requires
        0 <= at <= keys.len(),
    ensures
        woven(parts, keys) == woven_head(parts, keys, at) + parts[at] + woven_tail(parts, keys, at),
    decreases keys.len() - at,
{
    if at < keys.len() {
        lemma_woven_split(parts, keys, at + 1);
        assert(woven_head(parts, keys, at + 1) + parts[at + 1] + woven_tail(parts, keys, at + 1)
            =~= woven_head(parts, keys, at) + parts[at] + woven_tail(parts, keys, at));
    } else {
        assert(woven(parts, keys) =~= woven_head(parts, keys, at) + parts[at] + woven_tail(
            parts,
            keys,
            at,
        ));
    }
}

proof fn lemma_woven_head_same<K, V>(
    parts: Seq<Seq<(K, V)>>,
    keys: Seq<(K, V)>,
    parts2: Seq<Seq<(K, V)>>,
    keys2: Seq<(K, V)>,
    upto: int,
)
    requires
        forall|i: int| 0 <= i < upto ==> parts[i] == parts2[i] && keys[i] == keys2[i],
    ensures
        woven_head(parts, keys, upto) == woven_head(parts2, keys2, upto),
    decreases upto,
{
    if upto > 0 {
        lemma_woven_head_same(parts, keys, parts2, keys2, upto - 1);
    }
}

proof fn lemma_woven_tail_same<K, V>(
    parts: Seq<Seq<(K, V)>>,
    keys: Seq<(K, V)>,
    from: int,
    parts2: Seq<Seq<(K, V)>>,
    keys2: Seq<(K, V)>,
    from2: int,
)
    requires
        0 <= from <= keys.len(),
        0 <= from2 <= keys2.len(),
        parts.len() == keys.len() + 1,
        parts2.len() == keys2.len() + 1,
        keys.skip(from) == keys2.skip(from2),
        parts.skip(from + 1) == parts2.skip(from2 + 1),
    ensures
        woven_tail(parts, keys, from) == woven_tail(parts2, keys2, from2),
    decreases keys.len() - from,
{
    assert(keys.skip(from).len() == keys.len() - from);
    assert(keys2.skip(from2).len() == keys2.len() - from2);
    if from < keys.len() {
        assert(keys[from] == keys.skip(from)[0]);
        assert(keys2[from2] == keys2.skip(from2)[0]);
        assert(parts[from + 1] == parts.skip(from + 1)[0]);
        assert(parts2[from2 + 1] == parts2.skip(from2 + 1)[0]);
        assert(keys.skip(from + 1) =~= keys.skip(from).skip(1));
        assert(keys2.skip(from2 + 1) =~= keys2.skip(from2).skip(1));
        assert(parts.skip(from + 2) =~= parts.skip(from + 1).skip(1));
        assert(parts2.skip(from2 + 2) =~= parts2.skip(from2 + 1).skip(1));
        lemma_woven_tail_same(parts, keys, from + 1, parts2, keys2, from2 + 1);
    }
}

/// With nothing between the keys, weaving gives the keys.
proof fn lemma_woven_of_leaf<K, V>(parts: Seq<Seq<(K, V)>>, keys: Seq<(K, V)>, upto: int)
    requires
        0 <= upto <= keys.len(),
        forall|i: int| 0 <= i <= keys.len() ==> parts[i] == Seq::<(K, V)>::empty(),
    ensures
        woven_head(parts, keys, upto) == keys.take(upto),
        upto == keys.len() ==> woven(parts, keys) == keys,
    decreases upto,
{
    if upto > 0 {
        lemma_woven_of_leaf(parts, keys, upto - 1);
        assert(woven_head(parts, keys, upto) =~= keys.take(upto));
    } else {
        assert(woven_head(parts, keys, upto) =~= keys.take(upto));
    }
    if upto == keys.len() {
        assert(woven(parts, keys) =~= keys);
    }
}

/// Splitting one part around a key, and giving that key a place of its own, weaves the
/// same list.
proof fn lemma_woven_after_split<K, V>(
    parts: Seq<Seq<(K, V)>>,
    keys: Seq<(K, V)>,
    parts2: Seq<Seq<(K, V)>>,
    keys2: Seq<(K, V)>,
    at: int,
)
    requires
        0 <= at <= keys.len(),
        parts.len() == keys.len() + 1,
        keys2.len() == keys.len() + 1,
        keys2 == keys.insert(at, keys2[at]),
        parts2.len() == parts.len() + 1,
        parts2.take(at) == parts.take(at),
        parts2.skip(at + 2) == parts.skip(at + 1),
        parts[at] == parts2[at] + seq![keys2[at]] + parts2[at + 1],
    ensures
        woven(parts2, keys2) == woven(parts, keys),
{
    lemma_woven_split(parts, keys, at);
    lemma_woven_split(parts2, keys2, at);
    assert forall|i: int| 0 <= i < at implies parts[i] == parts2[i] && keys[i] == keys2[i] by {
        assert(parts[i] == parts.take(at)[i]);
        assert(parts2[i] == parts2.take(at)[i]);
    }
    lemma_woven_head_same(parts, keys, parts2, keys2, at);
    assert(keys.skip(at) =~= keys2.skip(at + 1));
    lemma_woven_tail_same(parts, keys, at, parts2, keys2, at + 1);
    assert(woven_tail(parts2, keys2, at) == seq![keys2[at]] + parts2[at + 1] + woven_tail(
        parts2,
        keys2,
        at + 1,
    ));
    assert(woven(parts2, keys2) =~= woven(parts, keys));
}

/// One step of the definition of `shaped`, and what the entries of a node are.
proof fn lemma_node<K: Ord, V>(node: Node<K, V>, t: int)
    ensures
        node_entries(node) == woven(node_parts(node), node.keys@),
        node_parts(node).len() == node.keys.len() + 1,
        forall|i: int|
            0 <= i <= node.keys.len() ==> #[trigger] node_parts(node)[i] == if !node.leaf && i
                < node.children.len() {
                node_entries(node.children[i])
            } else {
                Seq::empty()
            },
        shaped(node, t) <==> {
            &&& node.keys.len() <= 2 * t - 1
            &&& if node.leaf {
                node.children.len() == 0
            } else {
                &&& node.children.len() == node.keys.len() + 1
                &&& forall|i: int|
                    0 <= i < node.children.len() ==> {
                        &&& shaped(#[trigger] node.children[i], t)
                        &&& node.children[i].keys.len() >= t - 1
                        &&& node_height(node.children[i]) == node_height(node.children[0])
                    }
            }
        },
{
}

/// The two halves of a full node, around its middle entry.
proof fn lemma_halves<K: Ord, V>(whole: Node<K, V>, left: Node<K, V>, right: Node<K, V>, t: int)
    requires
        t >= 2,
        shaped(whole, t),
        whole.keys.len() == 2 * t - 1,
        left.leaf == whole.leaf,
        right.leaf == whole.leaf,
        left.keys@ == whole.keys@.subrange(0, t - 1),
        right.keys@ == whole.keys@.subrange(t, 2 * t - 1),
        whole.leaf ==> left.children@.len() == 0 && right.children@.len() == 0,
        !whole.leaf ==> left.children@ == whole.children@.subrange(0, t) && right.children@
            == whole.children@.subrange(t, 2 * t),
    ensures
        shaped(left, t),
        shaped(right, t),
        node_height(left) == node_height(whole),
        node_height(right) == node_height(whole),
        node_entries(whole) == node_entries(left) + seq![whole.keys[t - 1]] + node_entries(right),
{
    lemma_node(whole, t);
    lemma_node(left, t);
    lemma_node(right, t);
    let parts_w = node_parts(whole);
    let parts_l = node_parts(left);
    let parts_r = node_parts(right);
    if !whole.leaf {
        assert forall|i: int| 0 <= i < left.children.len() implies {
            &&& shaped(#[trigger] left.children[i], t)
            &&& left.children[i].keys.len() >= t - 1
            &&& node_height(left.children[i]) == node_height(left.children[0])
        } by {
            assert(left.children[i] == whole.children[i]);
            assert(left.children[0] == whole.children[0]);
        }
        assert forall|i: int| 0 <= i < right.children.len() implies {
            &&& shaped(#[trigger] right.children[i], t)
            &&& right.children[i].keys.len() >= t - 1
            &&& node_height(right.children[i]) == node_height(right.children[0])
        } by {
            assert(right.children[i] == whole.children[t + i]);
            assert(right.children[0] == whole.children[t + 0]);
        }
        assert(left.children[0] == whole.children[0]);
        assert(right.children[0] == whole.children[t + 0]);
    }
    assert forall|i: int| 0 <= i <= t - 1 implies parts_l[i] == parts_w[i] by {
        if !whole.leaf {
            assert(left.children[i] == whole.children[i]);
        }
    }
    assert forall|i: int| 0 <= i <= t - 1 implies parts_r[i] == parts_w[t + i] by {
        if !whole.leaf {
            assert(right.children[i] == whole.children[t + i]);
        }
    }
    lemma_woven_split(parts_w, whole.keys@, t - 1);
    assert forall|i: int| 0 <= i < t - 1 implies parts_w[i] == parts_l[i] && whole.keys@[i]
        == left.keys@[i] by {}
    lemma_woven_head_same(parts_w, whole.keys@, parts_l, left.keys@, t - 1);
    lemma_woven_split(parts_r, right.keys@, 0);
    assert(whole.keys@.skip(t) =~= right.keys@.skip(0));
    assert(parts_w.skip(t + 1) =~= parts_r.skip(1)) by {
        assert forall|i: int| 0 <= i < parts_r.skip(1).len() implies parts_w.skip(t + 1)[i]
            == parts_r.skip(1)[i] by {
            assert(parts_r[i + 1] == parts_w[t + (i + 1)]);
        }
    }
    lemma_woven_tail_same(parts_w, whole.keys@, t, parts_r, right.keys@, 0);
    assert(woven_tail(parts_w, whole.keys@, t - 1) == seq![whole.keys@[t - 1]] + parts_w[t - 1 + 1]
        + woven_tail(parts_w, whole.keys@, t - 1 + 1));
    assert(parts_r[0] == parts_w[t + 0]);
    assert(node_entries(whole) =~= node_entries(left) + seq![whole.keys[t - 1]] + node_entries(
        right,
    ));
}

/// A node after one of its subtrees was replaced by its two halves, the entry between them
/// having moved up.
proof fn lemma_split_parent<K: Ord, V>(
    before: Node<K, V>,
    after: Node<K, V>,
    left: Node<K, V>,
    right: Node<K, V>,
    median: (K, V),
    t: int,
    at: int,
)
    requires
        t >= 2,
        shaped(before, t),
        !before.leaf,
        0 <= at < before.children.len(),
        before.keys.len() < 2 * t - 1,
        shaped(left, t),
        shaped(right, t),
        left.keys.len() == t - 1,
        right.keys.len() == t - 1,
        node_height(left) == node_height(before.children[at]),
        node_height(right) == node_height(before.children[at]),
        node_entries(before.children[at]) == node_entries(left) + seq![median] + node_entries(
            right,
        ),
        after.leaf == before.leaf,
        after.keys@ == before.keys@.insert(at, median),
        after.children@ == before.children@.update(at, left).insert(at + 1, right),
    ensures
        shaped(after, t),
        node_entries(after) == node_entries(before),
        node_height(after) == node_height(before),
{
    lemma_node(before, t);
    lemma_node(after, t);
    assert(after.children[at] == left);
    assert(after.children[at + 1] == right);
    assert(node_height(before.children[at]) == node_height(before.children[0]));
    if at > 0 {
        assert(after.children[0] == before.children[0]);
    }
    assert(node_height(after.children[0]) == node_height(before.children[0]));
    assert forall|i: int| 0 <= i < after.children.len() implies {
        &&& shaped(#[trigger] after.children[i], t)
        &&& after.children[i].keys.len() >= t - 1
        &&& node_height(after.children[i]) == node_height(after.children[0])
    } by {
        if i < at {
            assert(after.children[i] == before.children[i]);
        } else if i > at + 1 {
            assert(after.children[i] == before.children[i - 1]);
        }
    }
    let parts = node_parts(before);
    let parts2 = node_parts(after);
    assert(parts2.take(at) =~= parts.take(at)) by {
        assert forall|i: int| 0 <= i < at implies parts2[i] == parts[i] by {
            assert(after.children[i] == before.children[i]);
        }
    }
    let rest = parts.skip(at + 1);
    let rest2 = parts2.skip(at + 2);
    assert(rest2 =~= rest) by {
        assert forall|i: int| 0 <= i < rest.len() implies rest2[i] == rest[i] by {
            assert(after.children[at + 2 + i] == before.children[at + 1 + i]);
        }
    }
    assert(after.keys@[at] == median);
    lemma_woven_after_split(parts, before.keys@, parts2, after.keys@, at);
}

/// Splits the full subtree `child_idx` of `parent` in two halves around its middle entry,
/// which moves up into `parent`.
fn split_child<K: Ord, V>(t: usize, parent: &mut Node<K, V>, child_idx: usize)
    requires
        2 <= t <= usize::MAX / 2,
        shaped(*old(parent), t as int),
        !old(parent).leaf,
        child_idx < old(parent).children.len(),
        old(parent).children[child_idx as int].keys.len() == 2 * t - 1,
        old(parent).keys.len() < 2 * t - 1,
    ensures
        shaped(*final(parent), t as int),
        !final(parent).leaf,
        final(parent).keys@ == old(parent).keys@.insert(
            child_idx as int,
            old(parent).children[child_idx as int].keys[t - 1],
        ),
        final(parent).children.len() == old(parent).children.len() + 1,
        final(parent).children[child_idx as int].keys.len() == t - 1,
        final(parent).children[child_idx + 1].keys.len() == t - 1,
        node_entries(*final(parent)) == node_entries(*old(parent)),
        node_height(*final(parent)) == node_height(*old(parent)),
{
    let ghost before = *parent;
    let ghost whole = parent.children[child_idx as int];
    proof {
        lemma_node(before, t as int);
        lemma_node(whole, t as int);
    }
    let child = &mut parent.children[child_idx];
    let median_idx = t - 1;
    let upper_keys = child.keys.split_off(median_idx + 1);
    let mut new_node = Node { leaf: child.leaf, keys: upper_keys, children: Vec::new() };
    if !child.leaf {
        new_node.children = child.children.split_off(t);
    }
    let median_key = child.keys.pop().unwrap();
    let ghost left = parent.children[child_idx as int];
    let ghost right = new_node;
    let ghost median = median_key;
    proof {
        assert(left.keys@ =~= whole.keys@.subrange(0, t - 1));
        assert(right.keys@ =~= whole.keys@.subrange(t as int, 2 * t - 1));
        assert(median == whole.keys[t - 1]);
        lemma_halves(whole, left, right, t as int);
        assert(parent.children@ =~= before.children@.update(child_idx as int, left));
    }
    parent.keys.insert(child_idx, median_key);
    parent.children.insert(child_idx + 1, new_node);
    proof {
        lemma_split_parent(before, *parent, left, right, median, t as int, child_idx as int);
    }
}

/// A node after the value of its entry `at` was replaced.
proof fn lemma_overwrite<K: Ord, V>(before: Node<K, V>, after: Node<K, V>, at: int, value: V, t: int)
    requires
        total_order::<K>(),
        shaped(before, t),
        ascending(node_entries(before)),
        0 <= at < before.keys.len(),
        after.leaf == before.leaf,
        after.children == before.children,
        after.keys@ == before.keys@.update(at, (before.keys[at].0, value)),
    ensures
        shaped(after, t),
        node_height(after) == node_height(before),
        ascending(node_entries(after)),
        after_put(node_entries(before), node_entries(after), before.keys[at].0, value),
{
    lemma_node(before, t);
    lemma_node(after, t);
    let parts = node_parts(before);
    let parts2 = node_parts(after);
    let keys = before.keys@;
    let keys2 = after.keys@;
    assert(parts2 =~= parts);
    lemma_woven_split(parts, keys, at);
    lemma_woven_split(parts, keys2, at);
    lemma_woven_head_same(parts, keys, parts, keys2, at);
    assert(keys.skip(at + 1) =~= keys2.skip(at + 1));
    lemma_woven_tail_same(parts, keys, at + 1, parts, keys2, at + 1);
    let a = woven_head(parts, keys, at) + parts[at];
    let b = parts[at + 1] + woven_tail(parts, keys, at + 1);
    assert(node_entries(before) =~= a + seq![keys[at]] + b);
    assert(node_entries(after) =~= a + seq![(keys[at].0, value)] + b);
    lemma_put_here(a, keys[at], b, value);
}

/// A leaf after an entry was inserted at the place `at`, where its key belongs.
proof fn lemma_leaf_insert<K: Ord, V>(
    before: Node<K, V>,
    after: Node<K, V>,
    at: int,
    key: K,
    value: V,
    t: int,
)
    requires
        total_order::<K>(),
        shaped(before, t),
        ascending(node_entries(before)),
        before.leaf,
        before.keys.len() < 2 * t - 1,
        0 <= at <= before.keys.len(),
        at > 0 ==> less(before.keys[at - 1].0, key),
        at < before.keys.len() ==> less(key, before.keys[at].0),
        after.leaf,
        after.children == before.children,
        after.keys@ == before.keys@.insert(at, (key, value)),
    ensures
        shaped(after, t),
        node_height(after) == node_height(before),
        ascending(node_entries(after)),
        after_put(node_entries(before), node_entries(after), key, value),
{
    lemma_node(before, t);
    lemma_node(after, t);
    let keys = before.keys@;
    let keys2 = after.keys@;
    lemma_woven_of_leaf(node_parts(before), keys, keys.len() as int);
    lemma_woven_of_leaf(node_parts(after), keys2, keys2.len() as int);
    let a = keys.take(at);
    let b = keys.skip(at);
    let none = Seq::<(K, V)>::empty();
    let one = seq![(key, value)];
    assert(keys =~= a + none + b);
    assert(keys2 =~= a + one + b);
    lemma_ascending_parts(a, none, b);
    lemma_after_last(a, key);
    lemma_before_first(b, key);
    assert(one[0] == (key, value));
    lemma_put_within(a, none, one, b, key, value);
}

/// A node after `key` was put into its subtree `at`, where the key belongs.
proof fn lemma_child_put<K: Ord, V>(
    before: Node<K, V>,
    after: Node<K, V>,
    at: int,
    key: K,
    value: V,
    t: int,
)
    requires
        total_order::<K>(),
        shaped(before, t),
        ascending(node_entries(before)),
        !before.leaf,
        0 <= at <= before.keys.len(),
        at > 0 ==> less(before.keys[at - 1].0, key),
        at < before.keys.len() ==> less(key, before.keys[at].0),
        after.leaf == before.leaf,
        after.keys == before.keys,
        after.children@ == before.children@.update(at, after.children[at]),
        shaped(after.children[at], t),
        after.children[at].keys.len() >= before.children[at].keys.len(),
        node_height(after.children[at]) == node_height(before.children[at]),
        ascending(node_entries(after.children[at])),
        after_put(
            node_entries(before.children[at]),
            node_entries(after.children[at]),
            key,
            value,
        ),
    ensures
        shaped(after, t),
        node_height(after) == node_height(before),
        ascending(node_entries(after)),
        after_put(node_entries(before), node_entries(after), key, value),
{
    lemma_node(before, t);
    lemma_node(after, t);
    let parts = node_parts(before);
    let parts2 = node_parts(after);
    let keys = before.keys@;
    assert(node_height(before.children[at]) == node_height(before.children[0]));
    if at > 0 {
        assert(after.children[0] == before.children[0]);
    }
    assert forall|i: int| 0 <= i < after.children.len() implies {
        &&& shaped(#[trigger] after.children[i], t)
        &&& after.children[i].keys.len() >= t - 1
        &&& node_height(after.children[i]) == node_height(after.children[0])
    } by {
        if i != at {
            assert(after.children[i] == before.children[i]);
        }
    }
    lemma_woven_split(parts, keys, at);
    lemma_woven_split(parts2, keys, at);
    assert forall|i: int| 0 <= i < at implies parts[i] == parts2[i] by {
        assert(after.children[i] == before.children[i]);
    }
    lemma_woven_head_same(parts, keys, parts2, keys, at);
    let rest = parts.skip(at + 1);
    let rest2 = parts2.skip(at + 1);
    assert(rest =~= rest2) by {
        assert forall|i: int| 0 <= i < rest.len() implies rest[i] == rest2[i] by {
            assert(after.children[at + 1 + i] == before.children[at + 1 + i]);
        }
    }
    lemma_woven_tail_same(parts, keys, at, parts2, keys, at);
    let a = woven_head(parts, keys, at);
    let b = woven_tail(parts, keys, at);
    lemma_ascending_parts(a, parts[at], b);
    if at > 0 {
        assert(a.last() == keys[at - 1]);
    }
    if at < keys.len() {
        assert(b[0] == keys[at]);
    }
    lemma_after_last(a, key);
    lemma_before_first(b, key);
    lemma_put_within(a, parts[at], parts2[at], b, key, value);
}

/// The entries of a subtree of an ascending node are ascending.
proof fn lemma_child_ascending<K: Ord, V>(node: Node<K, V>, at: int, t: int)
    requires
        shaped(node, t),
        !node.leaf,
        ascending(node_entries(node)),
        0 <= at < node.children.len(),
    ensures
        ascending(node_entries(node.children[at])),
{
    lemma_node(node, t);
    let parts = node_parts(node);
    lemma_woven_split(parts, node.keys@, at);
    lemma_ascending_parts(
        woven_head(parts, node.keys@, at),
        parts[at],
        woven_tail(parts, node.keys@, at),
    );
}

/// Puts `key` with `value` into the subtree `node`, which is not full.
fn insert_non_full<K: Ord, V>(t: usize, node: &mut Node<K, V>, key: K, value: V)
    requires
        total_order::<K>(),
        2 <= t <= usize::MAX / 2,
        shaped(*old(node), t as int),
        old(node).keys.len() < 2 * t - 1,
        ascending(node_entries(*old(node))),
    ensures
        shaped(*final(node), t as int),
        final(node).keys.len() >= old(node).keys.len(),
        node_height(*final(node)) == node_height(*old(node)),
        ascending(node_entries(*final(node))),
        after_put(node_entries(*old(node)), node_entries(*final(node)), key, value),
    decreases node_height(*old(node)),
{
    let ghost before = *node;
    proof {
        lemma_node(before, t as int);
    }
    let mut i = node.keys.len();
    while i > 0 && is_less(&key, &node.keys[i - 1].0)
        invariant
            total_order::<K>(),
            *node == before,
            i <= node.keys.len(),
            i < node.keys.len() ==> less(key, node.keys[i as int].0),
        decreases i,
    {
        i -= 1;
    }
    if i > 0 && !is_less(&node.keys[i - 1].0, &key) {
        proof {
            lemma_trichotomy(key, node.keys[i - 1].0);
            lemma_trichotomy(node.keys[i - 1].0, key);
            lemma_same_rank_is_equal(key, node.keys[i - 1].0);
        }
        node.keys[i - 1] = (key, value);
        proof {
            lemma_overwrite(before, *node, i - 1, value, t as int);
        }
        return ;
    }
    if node.leaf {
        node.keys.insert(i, (key, value));
        proof {
            lemma_leaf_insert(before, *node, i as int, key, value, t as int);
        }
    } else {
        let mut child_idx = i;
        if node.children[child_idx].keys.len() == 2 * t - 1 {
            split_child(t, node, child_idx);
            if is_less(&node.keys[child_idx].0, &key) {
                child_idx += 1;
            } else if !is_less(&key, &node.keys[child_idx].0) {
                let ghost split = *node;
                proof {
                    lemma_trichotomy(key, node.keys[child_idx as int].0);
                    lemma_trichotomy(node.keys[child_idx as int].0, key);
                    lemma_same_rank_is_equal(key, node.keys[child_idx as int].0);
                }
                node.keys[child_idx] = (key, value);
                proof {
                    lemma_overwrite(split, *node, child_idx as int, value, t as int);
                }
                return ;
            }
        }
        let ghost split = *node;
        proof {
            lemma_node(split, t as int);
            lemma_child_ascending(split, child_idx as int, t as int);
            assert(node_height(split.children[child_idx as int]) == node_height(
                split.children[0],
            ));
        }
        insert_non_full(t, &mut node.children[child_idx], key, value);
        proof {
            lemma_child_put(split, *node, child_idx as int, key, value, t as int);
        }
    }
}

/// The entries of the tree below `root`.
spec fn root_entries<K: Ord, V>(root: Option<Node<K, V>>) -> Seq<(K, V)> {
    match root {
        None => Seq::empty(),
        Some(node) => node_entries(node),
    }
}

/// What is left of `node` for a traversal that is about to visit its entry `index`.
spec fn frame_rest<K: Ord, V>(node: Node<K, V>, index: int) -> Seq<(K, V)> {
    woven_tail(node_parts(node), node.keys@, index)
}

/// What a traversal still has to visit when `stack` holds the nodes it is in the midst of,
/// the innermost on top, each with the index of its next entry.
spec fn remaining<K: Ord, V>(stack: Seq<(&Node<K, V>, usize)>) -> Seq<(K, V)>
    decreases stack.len(),
{
    if stack.len() == 0 {
        Seq::empty()
    } else {
        frame_rest(*stack.last().0, stack.last().1 as int) + remaining(stack.drop_last())
    }
}

/// Where the subtree `at` of `node` lies among the entries of `node`, and what that means for
/// a key that belongs there.
proof fn lemma_part_of_node<K: Ord, V>(node: Node<K, V>, at: int, key: K, t: int)
    requires
        total_order::<K>(),
        ascending(node_entries(node)),
        0 <= at <= node.keys.len(),
        at > 0 ==> less(node.keys[at - 1].0, key),
        at < node.keys.len() ==> less(key, node.keys[at].0),
    ensures
        node_entries(node) == woven_head(node_parts(node), node.keys@, at) + node_parts(node)[at]
            + frame_rest(node, at),
        forall|i: int|
            0 <= i < woven_head(node_parts(node), node.keys@, at).len() ==> less(
                (#[trigger] woven_head(node_parts(node), node.keys@, at)[i]).0,
                key,
            ),
        forall|i: int|
            0 <= i < frame_rest(node, at).len() ==> less(key, (#[trigger] frame_rest(node, at)[i]).0),
        ascending(node_parts(node)[at]),
        has_key(node_entries(node), key) <==> has_key(node_parts(node)[at], key),
{
    lemma_node(node, t);
    let parts = node_parts(node);
    let keys = node.keys@;
    let a = woven_head(parts, keys, at);
    let b = woven_tail(parts, keys, at);
    lemma_woven_split(parts, keys, at);
    lemma_ascending_parts(a, parts[at], b);
    if at > 0 {
        assert(a.last() == keys[at - 1]);
    }
    if at < keys.len() {
        assert(b[0] == keys[at]);
    }
    lemma_after_last(a, key);
    lemma_before_first(b, key);
    lemma_trichotomy(key, key);
    let whole = a + parts[at] + b;
    if has_key(whole, key) {
        let i = choose|i: int| 0 <= i < whole.len() && (#[trigger] whole[i]).0 == key;
        if i < a.len() {
            assert(a[i] == whole[i]);
        } else if i >= a.len() + parts[at].len() {
            assert(b[i - a.len() - parts[at].len()] == whole[i]);
        } else {
            assert(parts[at][i - a.len()] == whole[i]);
        }
    }
    if has_key(parts[at], key) {
        let i = choose|i: int| 0 <= i < parts[at].len() && (#[trigger] parts[at][i]).0 == key;
        assert(whole[a.len() + i] == parts[at][i]);
    }
}

/// Where the entry `at` of `node` lies among the entries of `node`.
proof fn lemma_entry_of_node<K: Ord, V>(node: Node<K, V>, at: int, t: int)
    requires
        0 <= at < node.keys.len(),
    ensures
        node_entries(node) == woven_head(node_parts(node), node.keys@, at) + node_parts(node)[at]
            + frame_rest(node, at),
        frame_rest(node, at).len() > 0,
        frame_rest(node, at)[0] == node.keys[at],
        node_entries(node).contains(node.keys[at]),
{
    lemma_node(node, t);
    let parts = node_parts(node);
    let keys = node.keys@;
    let a = woven_head(parts, keys, at);
    let b = woven_tail(parts, keys, at);
    lemma_woven_split(parts, keys, at);
    assert(b[0] == keys[at]);
    assert((a + parts[at] + b)[(a.len() + parts[at].len()) as int] == keys[at]);
}

/// Pushes `node` and the chain of first subtrees below it, each about to visit its first
/// entry.
fn push_left_spine<'a, K: Ord, V>(stack: &mut Vec<(&'a Node<K, V>, usize)>, node: &'a Node<K, V>)
    ensures
        remaining(final(stack)@) == node_entries(*node) + remaining(old(stack)@),
{
    let mut current = node;
    loop
        invariant_except_break
            node_entries(*current) + remaining(stack@) == node_entries(*node) + remaining(
                old(stack)@,
            ),
        ensures
            remaining(stack@) == node_entries(*node) + remaining(old(stack)@),
        decreases *current,
    {
        let ghost below = stack@;
        stack.push((current, 0));
        proof {
            lemma_node(*current, 2);
            lemma_woven_split(node_parts(*current), current.keys@, 0);
            assert(stack@.drop_last() =~= below);
            assert(stack@.last() == (current, 0usize));
            assert(remaining(stack@) == frame_rest(*current, 0) + remaining(below));
            assert(node_entries(*current) + remaining(below) =~= node_parts(*current)[0]
                + remaining(stack@));
        }
        if !current.leaf && current.children.len() > 0 {
            current = &current.children[0];
        } else {
            proof {
                assert(node_parts(*current)[0] + remaining(stack@) =~= remaining(stack@));
            }
            break ;
        }
    }
}

impl<'a, K: Ord, V> View for BtreeIterator<'a, K, V> {
    type V = Seq<(K, V)>;

    closed spec fn view(&self) -> Seq<(K, V)> {
        remaining(self.stack@)
    }
}

impl<'a, K: Ord, V> BtreeIterator<'a, K, V> {
    /// Hands out the next entry, or `None` when none is left.
    pub fn next(&mut self) -> (entry: Option<(&'a K, &'a V)>)
        ensures
            match entry {
                Some((key, value)) => {
                    &&& old(self)@.len() > 0
                    &&& (*key, *value) == old(self)@[0]
                    &&& final(self)@ == old(self)@.drop_first()
                },
                None => old(self)@.len() == 0 && final(self)@.len() == 0,
            },
    {
        loop
            invariant
                remaining(self.stack@) == remaining(old(self).stack@),
            decreases self.stack@.len(),
        {
            let ghost before = self.stack@;
            match self.stack.pop() {
                None => {
                    return None;
                },
                Some((node, index)) => {
                    proof {
                        assert(self.stack@ =~= before.drop_last());
                        assert(before.last() == (node, index));
                        lemma_node(*node, 2);
                    }
                    if index < node.keys.len() {
                        let ghost below = self.stack@;
                        if index + 1 < node.keys.len() {
                            self.stack.push((node, index + 1));
                            proof {
                                assert(self.stack@.drop_last() =~= below);
                                assert(self.stack@.last() == (node, (index + 1) as usize));
                            }
                        }
                        let ghost above = self.stack@;
                        proof {
                            assert(remaining(above) == frame_rest(*node, index + 1) + remaining(
                                below,
                            ));
                        }
                        if !node.leaf && index + 1 < node.children.len() {
                            push_left_spine(&mut self.stack, &node.children[index + 1]);
                        }
                        proof {
                            assert(remaining(self.stack@) == node_parts(*node)[index + 1]
                                + remaining(above)) by {
                                assert(Seq::<(K, V)>::empty() + remaining(above) =~= remaining(
                                    above,
                                ));
                            }
                            assert(remaining(self.stack@) =~= remaining(before).drop_first());
                            assert(remaining(before)[0] == node.keys[index as int]);
                        }
                        let entry = &node.keys[index];
                        return Some((&entry.0, &entry.1));
                    }
                    proof {
                        assert(remaining(before) =~= remaining(self.stack@));
                    }
                },
            }
        }
    }
}

/// The node of the subtree `node` that holds `key`, with the index of `key` in it, if there
/// is one.
fn find_node<'a, K: Ord, V>(t: Ghost<int>, node: &'a Node<K, V>, key: &K) -> (found: Option<
    (&'a Node<K, V>, usize),
>)
    requires
        total_order::<K>(),
        shaped(*node, t@),
        ascending(node_entries(*node)),
    ensures
        match found {
            Some((holder, index)) => {
                &&& index < holder.keys.len()
                &&& holder.keys[index as int].0 == *key
                &&& node_entries(*node).contains(holder.keys[index as int])
            },
            None => !has_key(node_entries(*node), *key),
        },
    decreases *node,
{
    proof {
        lemma_node(*node, t@);
    }
    let mut i: usize = 0;
    while i < node.keys.len()
        invariant
            total_order::<K>(),
            shaped(*node, t@),
            ascending(node_entries(*node)),
            i <= node.keys.len(),
            i > 0 ==> less(node.keys[i - 1].0, *key),
        decreases node.keys.len() - i,
    {
        let k = &node.keys[i].0;
        if is_equal(k, key) {
            proof {
                lemma_entry_of_node(*node, i as int, t@);
            }
            return Some((node, i));
        }
        if is_less(key, k) {
            proof {
                lemma_part_of_node(*node, i as int, *key, t@);
            }
            if node.leaf {
                proof {
                    assert(node_parts(*node)[i as int].len() == 0);
                }
                return None;
            } else {
                proof {
                    lemma_child_ascending(*node, i as int, t@);
                }
                let found = find_node(t, &node.children[i], key);
                proof {
                    lemma_found_in_part(*node, i as int, found, t@);
                }
                return found;
            }
        }
        proof {
            lemma_trichotomy(*k, *key);
            lemma_trichotomy(*key, *k);
            lemma_same_rank_is_equal(*k, *key);
        }
        i += 1;
    }
    proof {
        lemma_part_of_node(*node, i as int, *key, t@);
    }
    if !node.leaf {
        proof {
            lemma_child_ascending(*node, i as int, t@);
        }
        let found = find_node(t, &node.children[i], key);
        proof {
            lemma_found_in_part(*node, i as int, found, t@);
        }
        found
    } else {
        proof {
            assert(node_parts(*node)[i as int].len() == 0);
        }
        None
    }
}

/// An entry found in a subtree of `node` is an entry of `node`.
proof fn lemma_found_in_part<K: Ord, V>(
    node: Node<K, V>,
    at: int,
    found: Option<(&Node<K, V>, usize)>,
    t: int,
)
    requires
        shaped(node, t),
        !node.leaf,
        0 <= at <= node.keys.len(),
        match found {
            Some((holder, index)) => index < holder.keys.len() && node_entries(
                node.children[at],
            ).contains(holder.keys[index as int]),
            None => true,
        },
    ensures
        match found {
            Some((holder, index)) => node_entries(node).contains(holder.keys[index as int]),
            None => true,
        },
{
    lemma_node(node, t);
    let parts = node_parts(node);
    lemma_woven_split(parts, node.keys@, at);
    if let Some((holder, index)) = found {
        lemma_parts_contain(
            woven_head(parts, node.keys@, at),
            parts[at],
            woven_tail(parts, node.keys@, at),
            holder.keys[index as int],
        );
    }
}

/// Narrowing a search in `all` from the stretch between `lo` and `hi` to its middle part,
/// when the key sought comes after the part before it and before the part after it.
proof fn lemma_narrow<K: Ord, V>(
    all: Seq<(K, V)>,
    lo: int,
    hi: int,
    head: Seq<(K, V)>,
    part: Seq<(K, V)>,
    tail: Seq<(K, V)>,
    key: K,
)
    requires
        0 <= lo <= hi <= all.len(),
        all.subrange(lo, hi) == head + part + tail,
        forall|i: int| 0 <= i < lo ==> less((#[trigger] all[i]).0, key),
        forall|i: int| hi <= i < all.len() ==> less(key, (#[trigger] all[i]).0),
        forall|i: int| 0 <= i < head.len() ==> less((#[trigger] head[i]).0, key),
        forall|i: int| 0 <= i < tail.len() ==> less(key, (#[trigger] tail[i]).0),
    ensures
        lo + head.len() + part.len() + tail.len() == hi,
        part == all.subrange(lo + head.len(), lo + head.len() + part.len()),
        tail + all.skip(hi) == all.skip(lo + head.len() + part.len()),
        forall|i: int| 0 <= i < lo + head.len() ==> less((#[trigger] all[i]).0, key),
        forall|i: int|
            lo + head.len() + part.len() <= i < all.len() ==> less(key, (#[trigger] all[i]).0),
{
    let here = all.subrange(lo, hi);
    let lo2 = lo + head.len();
    let hi2 = lo2 + part.len();
    assert(here.len() == head.len() + part.len() + tail.len());
    assert(part =~= all.subrange(lo2, hi2)) by {
        assert forall|i: int| 0 <= i < part.len() implies part[i] == all.subrange(lo2, hi2)[i] by {
            assert(here[head.len() + i] == part[i]);
        }
    }
    assert(tail + all.skip(hi) =~= all.skip(hi2)) by {
        assert forall|i: int| 0 <= i < tail.len() implies tail[i] == all.skip(hi2)[i] by {
            assert(here[head.len() + part.len() + i] == tail[i]);
        }
    }
    assert forall|i: int| 0 <= i < lo2 implies less((#[trigger] all[i]).0, key) by {
        if i >= lo {
            assert(all[i] == here[i - lo]);
            assert(here[i - lo] == head[i - lo]);
        }
    }
    assert forall|i: int| hi2 <= i < all.len() implies less(key, (#[trigger] all[i]).0) by {
        if i < hi {
            assert(all[i] == here[i - lo]);
            assert(here[i - lo] == tail[i - hi2]);
        }
    }
}

/// Where the last part of a stretch of `all` starts.
proof fn lemma_stretch_tail<K, V>(
    all: Seq<(K, V)>,
    lo: int,
    hi: int,
    head: Seq<(K, V)>,
    tail: Seq<(K, V)>,
)
    requires
        0 <= lo <= hi <= all.len(),
        all.subrange(lo, hi) == head + tail,
        tail.len() > 0,
    ensures
        lo + head.len() < all.len(),
        all[lo + head.len()] == tail[0],
        tail + all.skip(hi) == all.skip(lo + head.len()),
{
    let here = all.subrange(lo, hi);
    let at = lo + head.len();
    assert(here.len() == head.len() + tail.len());
    assert(here[head.len() as int] == tail[0]);
    assert(tail + all.skip(hi) =~= all.skip(at)) by {
        assert forall|i: int| 0 <= i < tail.len() implies tail[i] == all.skip(at)[i] by {
            assert(here[head.len() + i] == tail[i]);
        }
    }
}

/// A key that a stretch of `all` does not hold, and that belongs in that stretch, is not
/// in `all`.
proof fn lemma_absent<K: Ord, V>(all: Seq<(K, V)>, lo: int, hi: int, key: K)
    requires
        total_order::<K>(),
        0 <= lo <= hi <= all.len(),
        !has_key(all.subrange(lo, hi), key),
        forall|i: int| 0 <= i < lo ==> less((#[trigger] all[i]).0, key),
        forall|i: int| hi <= i < all.len() ==> less(key, (#[trigger] all[i]).0),
    ensures
        !has_key(all, key),
{
    lemma_trichotomy(key, key);
    if has_key(all, key) {
        let j = choose|j: int| 0 <= j < all.len() && (#[trigger] all[j]).0 == key;
        assert(all[j] == all.subrange(lo, hi)[j - lo]);
    }
}

/// Moves the entries of the subtree `node` to the end of `entries`, in order.
fn drain_into<K: Ord, V>(node: Node<K, V>, entries: &mut Vec<(K, V)>)
    ensures
        final(entries)@ == old(entries)@ + node_entries(node),
    decreases node,
{
    let ghost parts = node_parts(node);
    let ghost keys = node.keys@;
    let Node { leaf, keys: node_keys, children } = node;
    let mut children = children;
    let mut waiting: Vec<Node<K, V>> = Vec::new();
    proof {
        lemma_node(node, 2);
    }
    if !leaf {
        while children.len() > 0
            invariant
                children@.len() + waiting@.len() == node.children@.len(),
                children@ == node.children@.take(children@.len() as int),
                forall|i: int|
                    0 <= i < waiting@.len() ==> #[trigger] waiting@[i] == node.children@[node.children@.len()
                        - 1 - i],
            decreases children.len(),
        {
            let ghost shorter = children@.len() - 1;
            let child = children.pop().unwrap();
            waiting.push(child);
            proof {
                assert(children@ =~= node.children@.take(shorter));
            }
        }
    }
    let ghost start = entries@;
    proof {
        assert(entries@ =~= start + woven_head(parts, keys, 0));
    }
    for entry in turn: node_keys
        invariant
            turn.seq() == keys,
            keys == node.keys@,
            parts == node_parts(node),
            leaf == node.leaf,
            leaf ==> waiting@.len() == 0,
            !leaf ==> waiting@.len() == if node.children@.len() >= turn.index() {
                node.children@.len() - turn.index()
            } else {
                0
            },
            forall|i: int|
                0 <= i < waiting@.len() ==> #[trigger] waiting@[i] == node.children@[node.children@.len()
                    - 1 - i],
            entries@ == start + woven_head(parts, keys, turn.index() as int),
    {
        let ghost at = turn.index() as int;
        let ghost before = entries@;
        match waiting.pop() {
            Some(child) => {
                proof {
                    assert(child == node.children@[at]);
                    assert(parts[at] == node_entries(child));
                }
                drain_into(child, entries);
            },
            None => {
                proof {
                    assert(parts[at] =~= Seq::<(K, V)>::empty());
                    assert(entries@ =~= before + parts[at]);
                }
            },
        }
        entries.push(entry);
        proof {
            assert(entry == keys[at]);
            assert(entries@ =~= start + woven_head(parts, keys, at + 1));
        }
    }
    let ghost last = keys.len() as int;
    let ghost before = entries@;
    match waiting.pop() {
        Some(child) => {
            proof {
                assert(child == node.children@[last]);
                assert(parts[last] == node_entries(child));
            }
            drain_into(child, entries);
        },
        None => {
            proof {
                assert(parts[last] =~= Seq::<(K, V)>::empty());
                assert(entries@ =~= before + parts[last]);
            }
        },
    }
    proof {
        assert(entries@ =~= start + node_entries(node));
    }
}

impl<K: Ord, V> View for BtreeMap<K, V> {
    type V = Map<K, V>;

    closed spec fn view(&self) -> Map<K, V> {
        map_of(root_entries(self.root))
    }
}

impl<K: Ord, V> BtreeMap<K, V> {
    #[verifier::type_invariant]
    spec fn well_formed(self) -> bool {
        &&& total_order::<K>()
        &&& 2 <= self.t <= usize::MAX / 2
        &&& ascending(root_entries(self.root))
        &&& self.is_well_shaped()
    }

    /// The minimum degree `t` that the map was made with.
    pub closed spec fn min_degree(&self) -> int {
        self.t as int
    }

    /// Every node but the root holds between `t - 1` and `2t - 1` entries, and the root
    /// between 1 and `2t - 1`; every node that is not a leaf has one subtree more than it has
    /// entries; and all leaves are at the same depth.
    pub closed spec fn is_well_shaped(&self) -> bool {
        match self.root {
            None => true,
            Some(node) => shaped(node, self.t as int) && node.keys.len() >= 1,
        }
    }

    /// An empty map of minimum degree `t`.
    pub fn new(t: usize) -> (map: Self)
        requires
            total_order::<K>(),
            2 <= t <= usize::MAX / 2,
        ensures
            map@ == Map::<K, V>::empty(),
            map.min_degree() == t,
            map.is_well_shaped(),
    {
        let map = BtreeMap { t, root: None };
        assert(map_of(root_entries(map.root)) =~= Map::<K, V>::empty());
        map
    }

    /// Whether the map holds no entry.
    pub fn is_empty(&self) -> (empty: bool)
        ensures
            empty == (self@ == Map::<K, V>::empty()),
    {
        proof {
            use_type_invariant(self);
            if self.root is Some {
                let node = self.root->0;
                lemma_entry_of_node(node, 0, self.t as int);
                let entries = node_entries(node);
                let i = choose|i: int| 0 <= i < entries.len() && entries[i] == node.keys[0];
                assert(has_key(entries, entries[i].0));
                assert(self@.contains_key(node.keys[0].0));
            } else {
                assert(self@ =~= Map::<K, V>::empty());
            }
        }
        self.root.is_none()
    }

    /// Removes every entry.
    pub fn clear(&mut self)
        ensures
            final(self)@ == Map::<K, V>::empty(),
            final(self).min_degree() == old(self).min_degree(),
            final(self).is_well_shaped(),
    {
        proof {
            use_type_invariant(&*self);
        }
        self.root = None;
        assert(map_of(root_entries(self.root)) =~= Map::<K, V>::empty());
    }

    /// Sets the value of `key` to `value`, whether or not the map held `key`.
    pub fn insert(&mut self, key: K, value: V)
        ensures
            final(self)@ == old(self)@.insert(key, value),
            final(self).min_degree() == old(self).min_degree(),
            final(self).is_well_shaped(),
    {
        proof {
            use_type_invariant(&*self);
        }
        let t = self.t;
        let mut taken = None;
        core::mem::swap(&mut taken, &mut self.root);
        let ghost before = root_entries(taken);
        match taken {
            None => {
                let mut keys = Vec::new();
                keys.push((key, value));
                let new_root = Node { leaf: true, keys, children: Vec::new() };
                proof {
                    lemma_node(new_root, t as int);
                    lemma_woven_of_leaf(node_parts(new_root), new_root.keys@, 1);
                    let after = node_entries(new_root);
                    assert(after =~= seq![(key, value)]);
                    assert(after[0] == (key, value));
                    lemma_put_is_insert(before, after, key, value);
                }
                self.root = Some(new_root);
            },
            Some(mut root) => {
                if root.keys.len() == 2 * t - 1 {
                    let ghost full = root;
                    let mut children = Vec::new();
                    children.push(root);
                    let mut new_root = Node { leaf: false, keys: Vec::new(), children };
                    proof {
                        lemma_node(new_root, t as int);
                        assert(new_root.children[0] == full);
                        lemma_woven_split(node_parts(new_root), new_root.keys@, 0);
                        assert(node_entries(new_root) =~= node_entries(full));
                    }
                    split_child(t, &mut new_root, 0);
                    insert_non_full(t, &mut new_root, key, value);
                    proof {
                        lemma_put_is_insert(before, node_entries(new_root), key, value);
                    }
                    self.root = Some(new_root);
                } else {
                    insert_non_full(t, &mut root, key, value);
                    proof {
                        lemma_put_is_insert(before, node_entries(root), key, value);
                    }
                    self.root = Some(root);
                }
            },
        }
    }

    /// The value of `key`, or `None` if the map does not hold `key`.
    pub fn get(&self, key: &K) -> (value: Option<&V>)
        ensures
            value == if self@.contains_key(*key) {
                Some(&self@[*key])
            } else {
                None
            },
    {
        proof {
            use_type_invariant(self);
            lemma_map_of_lists(root_entries(self.root));
        }
        match &self.root {
            None => None,
            Some(root) => match find_node(Ghost(self.t as int), root, key) {
                None => None,
                Some((holder, index)) => {
                    proof {
                        let entries = node_entries(*root);
                        let i = choose|i: int|
                            0 <= i < entries.len() && entries[i] == holder.keys[index as int];
                        assert(self@.contains_pair(entries[i].0, entries[i].1));
                    }
                    Some(&holder.keys[index].1)
                },
            },
        }
    }

    /// The value of `key`, which the map must hold.
    pub fn index(&self, key: K) -> (value: &V)
        requires
            self@.contains_key(key),
        ensures
            *value == self@[key],
    {
        let found = self.get(&key);
        found.unwrap()
    }

    /// An iterator over the entries from `key` on, by ascending key; it hands out nothing if
    /// the map does not hold `key`.
    pub fn find<'a>(&'a self, key: &K) -> (rest: BtreeIterator<'a, K, V>)
        ensures
            self@.contains_key(*key) ==> lists_ascending(rest@, self@.restrict(at_or_after(*key))),
            !self@.contains_key(*key) ==> rest@.len() == 0,
    {
        proof {
            use_type_invariant(self);
            lemma_map_of_lists(root_entries(self.root));
        }
        let mut stack: Vec<(&'a Node<K, V>, usize)> = Vec::new();
        let root = match &self.root {
            None => {
                proof {
                    if self@.contains_key(*key) {
                        assert(has_key(root_entries(self.root), *key));
                    }
                }
                return BtreeIterator { stack };
            },
            Some(root) => root,
        };
        let ghost t = self.t as int;
        let ghost all = node_entries(*root);
        let ghost mut lo: int = 0;
        let ghost mut hi: int = all.len() as int;
        let mut current = root;
        proof {
            assert(all.subrange(0, hi) =~= all);
            assert(all.skip(hi) =~= remaining(stack@));
        }
        loop
            invariant
                total_order::<K>(),
                shaped(*current, t),
                ascending(all),
                lists_ascending(all, self@),
                0 <= lo <= hi <= all.len(),
                node_entries(*current) == all.subrange(lo, hi),
                remaining(stack@) == all.skip(hi),
                forall|i: int| 0 <= i < lo ==> less((#[trigger] all[i]).0, *key),
                forall|i: int| hi <= i < all.len() ==> less(*key, (#[trigger] all[i]).0),
            decreases *current,
        {
            let mut i: usize = 0;
            while i < current.keys.len() && is_less(&current.keys[i].0, key)
                invariant
                    total_order::<K>(),
                    i <= current.keys.len(),
                    i > 0 ==> less(current.keys[i - 1].0, *key),
                decreases current.keys.len() - i,
            {
                i += 1;
            }
            let ghost parts = node_parts(*current);
            let ghost head = woven_head(parts, current.keys@, i as int);
            let ghost tail = frame_rest(*current, i as int);
            let ghost below = stack@;
            if i < current.keys.len() && is_equal(&current.keys[i].0, key) {
                stack.push((current, i));
                proof {
                    lemma_entry_of_node(*current, i as int, t);
                    let before = head + parts[i as int];
                    assert(head + parts[i as int] + tail =~= before + tail);
                    lemma_stretch_tail(all, lo, hi, before, tail);
                    let at = lo + before.len();
                    assert(stack@.drop_last() =~= below);
                    assert(stack@.last() == (current, i));
                    assert(remaining(stack@) == tail + remaining(below));
                    lemma_suffix_lists(all, self@, at);
                    assert(self@.contains_pair(all[at].0, all[at].1));
                }
                return BtreeIterator { stack };
            }
            proof {
                if i < current.keys.len() {
                    lemma_trichotomy(current.keys[i as int].0, *key);
                    lemma_trichotomy(*key, current.keys[i as int].0);
                    lemma_same_rank_is_equal(current.keys[i as int].0, *key);
                }
                lemma_part_of_node(*current, i as int, *key, t);
                lemma_node(*current, t);
            }
            if current.leaf {
                proof {
                    assert(parts[i as int].len() == 0);
                    lemma_absent(all, lo, hi, *key);
                }
                return BtreeIterator { stack: Vec::new() };
            }
            if i < current.keys.len() {
                stack.push((current, i));
                proof {
                    assert(stack@.drop_last() =~= below);
                    assert(stack@.last() == (current, i));
                    assert(remaining(stack@) == tail + remaining(below));
                }
            } else {
                proof {
                    assert(tail.len() == 0);
                    assert(remaining(stack@) =~= tail + remaining(below));
                }
            }
            proof {
                lemma_narrow(all, lo, hi, head, parts[i as int], tail, *key);
                lo = lo + head.len();
                hi = lo + parts[i as int].len();
            }
            current = &current.children[i];
        }
    }

    /// All entries, by ascending key. The map is used up.
    pub fn into_iter(self) -> (entries: Vec<(K, V)>)
        ensures
            lists_ascending(entries@, self@),
    {
        proof {
            use_type_invariant(&self);
            lemma_map_of_lists(root_entries(self.root));
        }
        let mut entries: Vec<(K, V)> = Vec::new();
        match self.root {
            None => {},
            Some(root) => {
                drain_into(root, &mut entries);
                proof {
                    assert(entries@ =~= node_entries(root));
                }
            },
        }
        entries
    }

    /// An iterator over all entries, by ascending key.
    pub fn iter<'a>(&'a self) -> (entries: BtreeIterator<'a, K, V>)
        ensures
            lists_ascending(entries@, self@),
    {
        proof {
            use_type_invariant(self);
            lemma_map_of_lists(root_entries(self.root));
        }
        let mut stack: Vec<(&'a Node<K, V>, usize)> = Vec::new();
        if let Some(root) = &self.root {
            push_left_spine(&mut stack, root);
            proof {
                assert(remaining(stack@) =~= node_entries(*root));
            }
        }
        BtreeIterator { stack }
    }
}

/// Weaving copies of the parts with a copy of the keys gives a copy of what weaving the
/// parts with the keys gives.
proof fn lemma_woven_clone<K, V: Clone>(
    parts: Seq<Seq<(K, V)>>,
    keys: Seq<(K, V)>,
    parts2: Seq<Seq<(K, V)>>,
    keys2: Seq<(K, V)>,
    upto: int,
)
    requires
        0 <= upto <= keys.len(),
        is_clone_of(keys, keys2),
        forall|i: int| 0 <= i <= keys.len() ==> is_clone_of(#[trigger] parts[i], parts2[i]),
    ensures
        is_clone_of(woven_head(parts, keys, upto), woven_head(parts2, keys2, upto)),
        upto == keys.len() ==> is_clone_of(woven(parts, keys), woven(parts2, keys2)),
    decreases upto,
{
    if upto > 0 {
        lemma_woven_clone(parts, keys, parts2, keys2, upto - 1);
        let one = seq![keys[upto - 1]];
        let one2 = seq![keys2[upto - 1]];
        assert(is_clone_of(one, one2));
        assert(is_clone_of(parts[upto - 1], parts2[upto - 1]));
        lemma_clone_joins(
            woven_head(parts, keys, upto - 1),
            parts[upto - 1],
            woven_head(parts2, keys2, upto - 1),
            parts2[upto - 1],
        );
        lemma_clone_joins(
            woven_head(parts, keys, upto - 1) + parts[upto - 1],
            one,
            woven_head(parts2, keys2, upto - 1) + parts2[upto - 1],
            one2,
        );
    }
    if upto == keys.len() {
        assert(is_clone_of(parts[upto], parts2[upto]));
        lemma_clone_joins(
            woven_head(parts, keys, upto),
            parts[upto],
            woven_head(parts2, keys2, upto),
            parts2[upto],
        );
    }
}

/// A copy of the subtree `node`: the same keys in the same places, each with a clone of its
/// value.
fn clone_node<K: Ord + Copy, V: Clone>(node: &Node<K, V>, t: Ghost<int>) -> (copy: Node<K, V>)
    ensures
        is_clone_of(node_entries(*node), node_entries(copy)),
        copy.keys.len() == node.keys.len(),
        node_height(copy) == node_height(*node),
        shaped(*node, t@) ==> shaped(copy, t@),
    decreases *node,
{
    let mut keys: Vec<(K, V)> = Vec::new();
    let mut i: usize = 0;
    while i < node.keys.len()
        invariant
            i <= node.keys.len(),
            keys.len() == i,
            forall|j: int|
                0 <= j < i ==> (#[trigger] keys[j]).0 == node.keys[j].0 && cloned::<V>(
                    node.keys[j].1,
                    keys[j].1,
                ),
        decreases node.keys.len() - i,
    {
        let entry = &node.keys[i];
        let value = entry.1.clone();
        keys.push((entry.0, value));
        i += 1;
    }
    let mut children: Vec<Node<K, V>> = Vec::new();
    let mut c: usize = 0;
    while c < node.children.len()
        invariant
            c <= node.children.len(),
            children.len() == c,
            forall|j: int|
                0 <= j < c ==> {
                    &&& is_clone_of(
                        node_entries(node.children[j]),
                        node_entries(#[trigger] children[j]),
                    )
                    &&& children[j].keys.len() == node.children[j].keys.len()
                    &&& node_height(children[j]) == node_height(node.children[j])
                    &&& shaped(node.children[j], t@) ==> shaped(children[j], t@)
                },
        decreases node.children.len() - c,
    {
        let child = clone_node(&node.children[c], t);
        children.push(child);
        c += 1;
    }
    let copy = Node { leaf: node.leaf, keys, children };
    proof {
        lemma_node(*node, t@);
        lemma_node(copy, t@);
        let parts = node_parts(*node);
        let parts2 = node_parts(copy);
        assert(is_clone_of(node.keys@, copy.keys@));
        assert forall|j: int| 0 <= j <= node.keys.len() implies is_clone_of(
            #[trigger] parts[j],
            parts2[j],
        ) by {
            if !node.leaf && j < node.children.len() {
                assert(is_clone_of(node_entries(node.children[j]), node_entries(copy.children[j])));
            }
        }
        lemma_woven_clone(parts, node.keys@, parts2, copy.keys@, node.keys.len() as int);
        if shaped(*node, t@) && !node.leaf {
            assert forall|j: int| 0 <= j < copy.children.len() implies {
                &&& shaped(#[trigger] copy.children[j], t@)
                &&& copy.children[j].keys.len() >= t@ - 1
                &&& node_height(copy.children[j]) == node_height(copy.children[0])
            } by {
                assert(shaped(node.children[j], t@));
                assert(node_height(node.children[j]) == node_height(node.children[0]));
            }
        }
    }
    copy
}

impl<K: Ord + Copy, V: Clone> Clone for BtreeMap<K, V> {
    /// A map with the same keys, each with a clone of its value.
    fn clone(&self) -> (copy: Self)
        ensures
            copy@.dom() == self@.dom(),
            forall|key: K| #[trigger] copy@.contains_key(key) ==> cloned::<V>(self@[key], copy@[key]),
            copy.min_degree() == self.min_degree(),
            copy.is_well_shaped(),
    {
        proof {
            use_type_invariant(self);
        }
        let root = match &self.root {
            None => None,
            Some(node) => Some(clone_node(node, Ghost(self.t as int))),
        };
        proof {
            if self.root is None {
                assert(is_clone_of(root_entries(self.root), root_entries(root)));
            }
            lemma_clone_lists(root_entries(self.root), root_entries(root));
        }
        BtreeMap { t: self.t, root }
    }
}

} // verus!
