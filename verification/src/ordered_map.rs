//! An ordered map kept as a height-balanced (AVL) binary search tree.
//!
//! To its users the map is a mathematical map. Every insert leaves the tree balanced: at
//! every node the two subtrees differ in height by one at most, so that the height of the
//! tree is logarithmic in the number of its entries.
//!
//! What `get`, `find` and `iter` hand out are references into the map. They see the map as it
//! is; the map cannot be changed while one of them is alive.
//!
//! The map can be made for every key type whose order is total
//! ([`crate::order::total_order`]).

use crate::listing::{
    after_put,
    lemma_listing_counts_keys,
    is_clone_of,
    lemma_clone_lists,
    ascending,
    at_or_after,
    has_key,
    lemma_ascending_split,
    lemma_join_contains,
    lemma_map_of_lists,
    lemma_put_here,
    lemma_put_is_insert,
    lemma_put_left,
    lemma_put_right,
    lemma_suffix_lists,
    lists_ascending,
    map_of,
};
use crate::order::{
    is_less,
    lemma_same_rank_is_equal,
    lemma_transitive,
    lemma_trichotomy,
    less,
    total_order,
};
use vstd::prelude::*;

verus! {

#[derive(Debug)]
struct Node<K: Ord, V> {
    key: K,
    value: V,
    left: Option<Box<Node<K, V>>>,
    right: Option<Box<Node<K, V>>>,
    height: isize,
}

/// A map from keys to values that keeps its keys in ascending order.
///
/// Its view is the mathematical map that it represents.
#[derive(Debug)]
pub struct OrderedMap<K: Ord, V> {
    root: Option<Box<Node<K, V>>>,
}

/// The pairs of the subtree `link`, in order of traversal from left to right.
spec fn link_entries<K: Ord, V>(link: Option<Box<Node<K, V>>>) -> Seq<(K, V)>
    decreases link,
{
    match link {
        None => Seq::empty(),
        Some(node) => link_entries(node.left) + seq![(node.key, node.value)] + link_entries(
            node.right,
        ),
    }
}

/// The height of the subtree `link`: -1 if it is empty, 0 for a single node.
spec fn link_height<K: Ord, V>(link: Option<Box<Node<K, V>>>) -> int
    decreases link,
{
    match link {
        None => -1,
        Some(node) => {
            let l = link_height(node.left);
            let r = link_height(node.right);
            1 + if l >= r {
                l
            } else {
                r
            }
        },
    }
}

/// The height that the root of `link` has on record.
spec fn recorded_height<K: Ord, V>(link: Option<Box<Node<K, V>>>) -> int {
    match link {
        None => -1,
        Some(node) => node.height as int,
    }
}

/// Every node of `link` has its true height on record, and its two subtrees differ in height
/// by one at most.
spec fn link_balanced<K: Ord, V>(link: Option<Box<Node<K, V>>>) -> bool
    decreases link,
{
    match link {
        None => true,
        Some(node) => {
            &&& link_balanced(node.left)
            &&& link_balanced(node.right)
            &&& node.height == link_height(link)
            &&& -1 <= link_height(node.right) - link_height(node.left) <= 1
        },
    }
}

/// As [`link_balanced`], but the root's two subtrees may differ in height by two.
spec fn link_nearly_balanced<K: Ord, V>(link: Option<Box<Node<K, V>>>) -> bool {
    match link {
        None => true,
        Some(node) => {
            &&& link_balanced(node.left)
            &&& link_balanced(node.right)
            &&& node.height == link_height(link)
            &&& -2 <= link_height(node.right) - link_height(node.left) <= 2
        },
    }
}

/// The least number of entries that a balanced tree of `levels` levels holds, that is, one
/// of the height `levels - 1`: one more than the least numbers for the two next smaller
/// numbers of levels together. It grows as fast as the Fibonacci numbers, so that the height
/// of a balanced tree is logarithmic in the number of its entries.
pub open spec fn least_entries(levels: nat) -> nat
    decreases levels,
{
    if levels == 0 {
        0
    } else if levels == 1 {
        1
    } else {
        1 + least_entries((levels - 1) as nat) + least_entries((levels - 2) as nat)
    }
}

/// A tree of more levels needs no fewer entries.
proof fn lemma_least_entries_grows(fewer: nat, more: nat)
    requires
        fewer <= more,
    ensures
        least_entries(fewer) <= least_entries(more),
    decreases more,
{
    if fewer < more && more > 1 {
        lemma_least_entries_grows(fewer, (more - 1) as nat);
    }
}

/// A balanced tree holds at least the least number of entries for its height.
proof fn lemma_balanced_holds_enough<K: Ord, V>(link: Option<Box<Node<K, V>>>)
    requires
        link_balanced(link),
    ensures
        link_entries(link).len() >= least_entries((link_height(link) + 1) as nat),
    decreases link,
{
    lemma_root(link);
    if let Some(node) = link {
        let l = link_height(node.left);
        let r = link_height(node.right);
        lemma_balanced_holds_enough(node.left);
        lemma_balanced_holds_enough(node.right);
        lemma_root(node.left);
        lemma_root(node.right);
        let h = link_height(link);
        if h > 0 {
            if l >= r {
                lemma_least_entries_grows((h - 1) as nat, (r + 1) as nat);
            } else {
                lemma_least_entries_grows((h - 1) as nat, (l + 1) as nat);
            }
        }
    }
}

/// One step of the definitions of height and balance at the root of `link`.
proof fn lemma_root<K: Ord, V>(link: Option<Box<Node<K, V>>>)
    ensures
        link_height(link) >= -1,
        match link {
            None => link_height(link) == -1 && link_balanced(link),
            Some(node) => {
                let l = link_height(node.left);
                let r = link_height(node.right);
                &&& l >= -1
                &&& r >= -1
                &&& link_height(link) == 1 + if l >= r {
                    l
                } else {
                    r
                }
                &&& link_balanced(link) <==> (link_balanced(node.left) && link_balanced(node.right)
                    && node.height == link_height(link) && -1 <= r - l <= 1)
                &&& link_balanced(link) ==> recorded_height(link) == link_height(link)
                &&& link_entries(link) == link_entries(node.left) + seq![(node.key, node.value)]
                    + link_entries(node.right)
            },
        },
{
    lemma_height_at_least(link);
    if let Some(node) = link {
        lemma_height_at_least(node.left);
        lemma_height_at_least(node.right);
    }
}

proof fn lemma_height_at_least<K: Ord, V>(link: Option<Box<Node<K, V>>>)
    ensures
        link_height(link) >= -1,
        link is Some ==> link_height(link) >= 0,
    decreases link,
{
    if let Some(node) = link {
        lemma_height_at_least(node.left);
        lemma_height_at_least(node.right);
    }
}

/// An iterator over entries of an [`OrderedMap`], by ascending key.
///
/// It borrows the map: the entries it hands out are references into the map, which cannot
/// be changed while the iterator or one of those references is alive. Its view is the list of
/// the entries that it has yet to hand out.
#[derive(Debug)]
pub struct MapIterator<'a, K: Ord, V> {
    stack: Vec<&'a Node<K, V>>,
}

/// What a traversal still has to visit when `stack` holds the nodes whose left subtrees are
/// done: each of them, top first, followed by its right subtree.
spec fn remaining<K: Ord, V>(stack: Seq<&Node<K, V>>) -> Seq<(K, V)>
    decreases stack.len(),
{
    if stack.len() == 0 {
        Seq::empty()
    } else {
        let top = stack.last();
        seq![(top.key, top.value)] + link_entries(top.right) + remaining(stack.drop_last())
    }
}

/// Pushes the root of `link` and the chain of left children below it.
fn push_left_spine<'a, K: Ord, V>(
    stack: &mut Vec<&'a Node<K, V>>,
    link: &'a Option<Box<Node<K, V>>>,
)
    ensures
        remaining(final(stack)@) == link_entries(*link) + remaining(old(stack)@),
{
    let mut current = link;
    proof {
        assert(link_entries(*link) + remaining(stack@) =~= link_entries(*current) + remaining(
            stack@,
        ));
    }
    loop
        invariant
            link_entries(*current) + remaining(stack@) == link_entries(*link) + remaining(
                old(stack)@,
            ),
        ensures
            remaining(stack@) == link_entries(*link) + remaining(old(stack)@),
        decreases *current,
    {
        match current {
            None => {
                proof {
                    assert(link_entries(*current) + remaining(stack@) =~= remaining(stack@));
                }
                break ;
            },
            Some(node) => {
                let ghost below = stack@;
                stack.push(&**node);
                proof {
                    assert(stack@.drop_last() =~= below);
                    assert(stack@.last() == **node);
                    assert(link_entries(node.left) + remaining(stack@) =~= link_entries(*current)
                        + remaining(below));
                }
                current = &node.left;
            },
        }
    }
}

impl<'a, K: Ord, V> View for MapIterator<'a, K, V> {
    type V = Seq<(K, V)>;

    closed spec fn view(&self) -> Seq<(K, V)> {
        remaining(self.stack@)
    }
}

impl<'a, K: Ord, V> MapIterator<'a, K, V> {
    /// Hands out the next entry, or `None` when none is left.
    pub fn next(&mut self) -> (entry: Option<(&'a K, &'a V)>)
        ensures
            match entry {
                Some((key, value)) => {
                    &&& old(self)@.len() > 0
                    &&& (*key, *value) == old(self)@[0]
                    &&& final(self)@ == old(self)@.drop_first()
                },
                None => old(self)@.len() == 0 && final(self)@.len() == 0,
            },
    {
        let ghost before = self.stack@;
        match self.stack.pop() {
            Some(node) => {
                proof {
                    assert(self.stack@ =~= before.drop_last());
                }
                push_left_spine(&mut self.stack, &node.right);
                proof {
                    assert(remaining(self.stack@) =~= remaining(before).drop_first());
                }
                Some((&node.key, &node.value))
            },
            None => None,
        }
    }
}

impl<K: Ord, V> View for OrderedMap<K, V> {
    type V = Map<K, V>;

    closed spec fn view(&self) -> Map<K, V> {
        map_of(link_entries(self.root))
    }
}

impl<K: Ord, V> OrderedMap<K, V> {
    #[verifier::type_invariant]
    spec fn well_formed(self) -> bool {
        &&& total_order::<K>()
        &&& ascending(link_entries(self.root))
        &&& link_balanced(self.root)
    }

    /// The height of the tree, as a specification.
    pub closed spec fn spec_height(&self) -> isize {
        match self.root {
            None => -1isize,
            Some(node) => node.height,
        }
    }

    /// The height of the tree: the number of nodes on the longest path from the root down,
    /// less one; -1 when the map is empty. The map holds at least the least number of entries
    /// that a balanced tree of that height can hold.
    #[verifier::when_used_as_spec(spec_height)]
    pub fn height(&self) -> (height: isize)
        ensures
            height == self.spec_height(),
            self@.dom().finite(),
            least_entries((height + 1) as nat) <= self@.len(),
    {
        proof {
            use_type_invariant(self);
            lemma_root(self.root);
            lemma_balanced_holds_enough(self.root);
            lemma_map_of_lists(link_entries(self.root));
            lemma_listing_counts_keys(link_entries(self.root), self@);
        }
        Self::height_of(&self.root)
    }

    /// At every node of the tree, the heights of the two subtrees differ by one at most.
    pub closed spec fn is_balanced(&self) -> bool {
        link_balanced(self.root)
    }

    /// An empty map.
    pub fn new() -> (map: Self)
        requires
            total_order::<K>(),
        ensures
            map@ == Map::<K, V>::empty(),
            map.height() == -1,
            map.is_balanced(),
    {
        let map = OrderedMap { root: None };
        assert(map_of(link_entries(map.root)) =~= Map::<K, V>::empty());
        map
    }

    /// Sets the value of `key` to `value`, whether or not the map held `key`.
    pub fn insert(&mut self, key: K, value: V)
        requires
            old(self).height() < isize::MAX,
        ensures
            final(self)@ == old(self)@.insert(key, value),
            final(self).is_balanced(),
            old(self).height() <= final(self).height() <= old(self).height() + 1,
    {
        proof {
            use_type_invariant(&*self);
            lemma_root(self.root);
        }
        let mut root = None;
        core::mem::swap(&mut root, &mut self.root);
        let ghost before = link_entries(root);
        Self::insert_node(&mut root, key, value);
        proof {
            lemma_put_is_insert(before, link_entries(root), key, value);
            lemma_root(root);
        }
        self.root = root;
    }

    /// Whether the map holds no entry.
    pub fn is_empty(&self) -> (empty: bool)
        ensures
            empty == (self@ == Map::<K, V>::empty()),
    {
        proof {
            lemma_root(self.root);
            if self.root is Some {
                let entries = link_entries(self.root);
                let at = link_entries(self.root->0.left).len() as int;
                assert(entries[at].0 == self.root->0.key);
                assert(has_key(entries, self.root->0.key));
                assert(self@.contains_key(self.root->0.key));
            } else {
                assert(self@ =~= Map::<K, V>::empty());
            }
        }
        self.root.is_none()
    }

    /// Removes every entry.
    pub fn clear(&mut self)
        ensures
            final(self)@ == Map::<K, V>::empty(),
            final(self).height() == -1,
            final(self).is_balanced(),
    {
        proof {
            use_type_invariant(&*self);
        }
        self.root = None;
        assert(map_of(link_entries(self.root)) =~= Map::<K, V>::empty());
    }

    /// The value of `key`, or `None` if the map does not hold `key`.
    pub fn get(&self, key: &K) -> (value: Option<&V>)
        ensures
            value == if self@.contains_key(*key) {
                Some(&self@[*key])
            } else {
                None
            },
    {
        proof {
            use_type_invariant(self);
            lemma_map_of_lists(link_entries(self.root));
        }
        match Self::find_node(&self.root, key) {
            Some(node) => {
                proof {
                    let entries = link_entries(self.root);
                    let i = choose|i: int| 0 <= i < entries.len() && entries[i] == (node.key, node.value);
                    assert(self@.contains_pair(entries[i].0, entries[i].1));
                }
                Some(&node.value)
            },
            None => None,
        }
    }

    /// The value of `key`, which the map must hold.
    pub fn index(&self, key: K) -> (value: &V)
        requires
            self@.contains_key(key),
        ensures
            *value == self@[key],
    {
        let found = self.get(&key);
        found.unwrap()
    }

    /// An iterator over the entries from `key` on, by ascending key, or `None` if the map
    /// does not hold `key`.
    pub fn find<'a>(&'a self, key: &K) -> (found: Option<MapIterator<'a, K, V>>)
        ensures
            match found {
                Some(rest) => self@.contains_key(*key) && lists_ascending(
                    rest@,
                    self@.restrict(at_or_after(*key)),
                ),
                None => !self@.contains_key(*key),
            },
    {
        proof {
            use_type_invariant(self);
            lemma_map_of_lists(link_entries(self.root));
        }
        let ghost all = link_entries(self.root);
        let ghost mut lo: int = 0;
        let ghost mut hi: int = all.len() as int;
        let mut stack: Vec<&'a Node<K, V>> = Vec::new();
        let mut current = &self.root;
        proof {
            assert(all.subrange(0, hi) =~= all);
            assert(all.skip(hi) =~= remaining(stack@));
        }
        loop
            invariant
                total_order::<K>(),
                ascending(all),
                lists_ascending(all, self@),
                0 <= lo <= hi <= all.len(),
                link_entries(*current) == all.subrange(lo, hi),
                remaining(stack@) == all.skip(hi),
                forall|i: int| 0 <= i < lo ==> less((#[trigger] all[i]).0, *key),
                forall|i: int| hi <= i < all.len() ==> less(*key, (#[trigger] all[i]).0),
            decreases *current,
        {
            match current {
                None => {
                    proof {
                        lemma_trichotomy(*key, *key);
                        assert(lo == hi) by {
                            assert(all.subrange(lo, hi).len() == 0);
                        }
                        if self@.contains_key(*key) {
                            assert(has_key(all, *key));
                        }
                    }
                    return None;
                },
                Some(node) => {
                    let ghost a = link_entries(node.left);
                    let ghost b = link_entries(node.right);
                    let ghost at = lo + a.len();
                    proof {
                        lemma_root(*current);
                        let here = all.subrange(lo, hi);
                        assert(here == a + seq![(node.key, node.value)] + b);
                        assert(here.len() == a.len() + 1 + b.len());
                        assert(here[a.len() as int] == (node.key, node.value));
                        assert(all[at] == (node.key, node.value));
                        assert(a =~= all.subrange(lo, at)) by {
                            assert(a =~= here.subrange(0, a.len() as int));
                        }
                        assert(b =~= all.subrange(at + 1, hi)) by {
                            assert(b =~= here.subrange(a.len() as int + 1, here.len() as int));
                        }
                    }
                    if is_less(key, &node.key) {
                        let ghost below = stack@;
                        stack.push(&**node);
                        proof {
                            assert(stack@.drop_last() =~= below);
                            assert(remaining(stack@) =~= all.skip(at));
                            assert forall|i: int| at <= i < all.len() implies less(
                                *key,
                                (#[trigger] all[i]).0,
                            ) by {
                                if i > at {
                                    assert(less(all[at].0, all[i].0));
                                    lemma_trichotomy(*key, all[at].0);
                                    lemma_trichotomy(all[at].0, all[i].0);
                                    lemma_transitive(*key, all[at].0, all[i].0);
                                }
                            }
                            hi = at;
                        }
                        current = &node.left;
                    } else if is_less(&node.key, key) {
                        proof {
                            assert forall|i: int| 0 <= i < at + 1 implies less(
                                (#[trigger] all[i]).0,
                                *key,
                            ) by {
                                if i < at {
                                    assert(less(all[i].0, all[at].0));
                                    lemma_trichotomy(all[at].0, *key);
                                    lemma_trichotomy(all[i].0, all[at].0);
                                    lemma_transitive(all[i].0, all[at].0, *key);
                                }
                            }
                            lo = at + 1;
                        }
                        current = &node.right;
                    } else {
                        let ghost below = stack@;
                        stack.push(&**node);
                        proof {
                            lemma_trichotomy(*key, node.key);
                            lemma_trichotomy(node.key, *key);
                            lemma_same_rank_is_equal(*key, node.key);
                            assert(stack@.drop_last() =~= below);
                            assert(remaining(stack@) =~= all.skip(at));
                            lemma_suffix_lists(all, self@, at);
                            assert(self@.contains_pair(all[at].0, all[at].1));
                        }
                        return Some(MapIterator { stack });
                    }
                },
            }
        }
    }

    /// An iterator over all entries, by ascending key.
    pub fn iter<'a>(&'a self) -> (entries: MapIterator<'a, K, V>)
        ensures
            lists_ascending(entries@, self@),
    {
        proof {
            use_type_invariant(self);
            lemma_map_of_lists(link_entries(self.root));
        }
        let mut stack: Vec<&'a Node<K, V>> = Vec::new();
        push_left_spine(&mut stack, &self.root);
        proof {
            assert(remaining(stack@) =~= link_entries(self.root));
        }
        MapIterator { stack }
    }

    /// All entries, by ascending key. The map is used up.
    pub fn into_iter(self) -> (entries: Vec<(K, V)>)
        ensures
            lists_ascending(entries@, self@),
    {
        proof {
            use_type_invariant(&self);
            lemma_map_of_lists(link_entries(self.root));
        }
        let mut entries: Vec<(K, V)> = Vec::new();
        Self::drain_into(self.root, &mut entries);
        proof {
            assert(entries@ =~= link_entries(self.root));
        }
        entries
    }

    /// Moves the entries of the subtree `link` to the end of `entries`, in order.
    fn drain_into(link: Option<Box<Node<K, V>>>, entries: &mut Vec<(K, V)>)
        ensures
            final(entries)@ == old(entries)@ + link_entries(link),
        decreases link,
    {
        match link {
            None => {
                proof {
                    assert(entries@ + link_entries(link) =~= entries@);
                }
            },
            Some(node) => {
                let node = *node;
                let Node { key, value, left, right, height: _ } = node;
                Self::drain_into(left, entries);
                entries.push((key, value));
                Self::drain_into(right, entries);
                proof {
                    assert(entries@ =~= old(entries)@ + link_entries(link));
                }
            },
        }
    }

    /// The node of the subtree `link` that holds `key`, if there is one.
    fn find_node<'a>(link: &'a Option<Box<Node<K, V>>>, key: &K) -> (found: Option<
        &'a Node<K, V>,
    >)
        requires
            total_order::<K>(),
            ascending(link_entries(*link)),
        ensures
            match found {
                Some(node) => node.key == *key && link_entries(*link).contains(
                    (node.key, node.value),
                ),
                None => !has_key(link_entries(*link), *key),
            },
        decreases *link,
    {
        match link {
            None => None,
            Some(node) => {
                let ghost a = link_entries(node.left);
                let ghost b = link_entries(node.right);
                let ghost x = (node.key, node.value);
                proof {
                    lemma_root(*link);
                    lemma_ascending_split(a, x, b);
                    lemma_trichotomy(*key, node.key);
                    lemma_trichotomy(node.key, *key);
                    lemma_trichotomy(*key, *key);
                    assert forall|e: (K, V)| (a + seq![x] + b).contains(e) <==> a.contains(e) || e
                        == x || b.contains(e) by {
                        lemma_join_contains(a, x, b, e);
                    }
                    assert forall|i: int| 0 <= i < a.len() implies a.contains(#[trigger] a[i]) by {}
                    assert forall|i: int| 0 <= i < b.len() implies b.contains(#[trigger] b[i]) by {}
                }
                if is_less(key, &node.key) {
                    let found = Self::find_node(&node.left, key);
                    proof {
                        if found is None && has_key(a + seq![x] + b, *key) {
                            let s = a + seq![x] + b;
                            let i = choose|i: int| 0 <= i < s.len() && (#[trigger] s[i]).0 == *key;
                            assert(s.contains(s[i]));
                            if a.contains(s[i]) {
                                let j = choose|j: int| 0 <= j < a.len() && a[j] == s[i];
                                assert(a[j].0 == *key);
                            }
                            if b.contains(s[i]) {
                                let j = choose|j: int| 0 <= j < b.len() && b[j] == s[i];
                                assert(less(x.0, b[j].0));
                                lemma_transitive(*key, x.0, b[j].0);
                            }
                        }
                    }
                    found
                } else if is_less(&node.key, key) {
                    let found = Self::find_node(&node.right, key);
                    proof {
                        if found is None && has_key(a + seq![x] + b, *key) {
                            let s = a + seq![x] + b;
                            let i = choose|i: int| 0 <= i < s.len() && (#[trigger] s[i]).0 == *key;
                            assert(s.contains(s[i]));
                            if b.contains(s[i]) {
                                let j = choose|j: int| 0 <= j < b.len() && b[j] == s[i];
                                assert(b[j].0 == *key);
                            }
                            if a.contains(s[i]) {
                                let j = choose|j: int| 0 <= j < a.len() && a[j] == s[i];
                                assert(less(a[j].0, x.0));
                                lemma_transitive(a[j].0, x.0, *key);
                            }
                        }
                    }
                    found
                } else {
                    proof {
                        lemma_same_rank_is_equal(*key, node.key);
                    }
                    Some(&**node)
                }
            },
        }
    }

    fn height_of(link: &Option<Box<Node<K, V>>>) -> (h: isize)
        ensures
            h == recorded_height(*link),
    {
        match link {
            None => -1,
            Some(node) => node.height,
        }
    }

    fn balance_factor(link: &Option<Box<Node<K, V>>>) -> (factor: isize)
        requires
            link_nearly_balanced(*link),
        ensures
            match *link {
                Some(node) => factor == link_height(node.right) - link_height(node.left),
                None => factor == 0,
            },
    {
        match link {
            Some(node) => {
                proof {
                    lemma_root(*link);
                    lemma_root(node.left);
                    lemma_root(node.right);
                }
                Self::height_of(&node.right) - Self::height_of(&node.left)
            },
            None => 0,
        }
    }

    fn update_height(node: &mut Box<Node<K, V>>)
        requires
            recorded_height(old(node).left) == link_height(old(node).left),
            recorded_height(old(node).right) == link_height(old(node).right),
            link_height(old(node).left) < isize::MAX,
            link_height(old(node).right) < isize::MAX,
        ensures
            final(node).key == old(node).key,
            final(node).value == old(node).value,
            final(node).left == old(node).left,
            final(node).right == old(node).right,
            final(node).height == link_height(Some(*final(node))),
    {
        proof {
            lemma_root(Some(*node));
        }
        let l = Self::height_of(&node.left);
        let r = Self::height_of(&node.right);
        node.height = 1 + if l >= r {
            l
        } else {
            r
        };
        proof {
            lemma_root(Some(*node));
        }
    }

    fn rotate_left(mut node: Box<Node<K, V>>) -> (top: Box<Node<K, V>>)
        requires
            node.right is Some,
            recorded_height(node.left) == link_height(node.left),
            recorded_height(node.right->0.left) == link_height(node.right->0.left),
            recorded_height(node.right->0.right) == link_height(node.right->0.right),
            link_height(Some(node)) <= isize::MAX,
            link_height(node.left) < isize::MAX - 1,
        ensures
            top.key == node.right->0.key,
            top.value == node.right->0.value,
            top.right == node.right->0.right,
            top.left is Some,
            top.left->0.key == node.key,
            top.left->0.value == node.value,
            top.left->0.left == node.left,
            top.left->0.right == node.right->0.left,
            top.left->0.height == link_height(top.left),
            top.height == link_height(Some(top)),
            link_entries(Some(top)) == link_entries(Some(node)),
    {
        let ghost before = node;
        proof {
            lemma_root(Some(node));
            lemma_root(node.right);
        }
        let mut new_root = node.right.take().unwrap();
        node.right = new_root.left.take();
        Self::update_height(&mut node);
        proof {
            lemma_root(Some(node));
        }
        new_root.left = Some(node);
        Self::update_height(&mut new_root);
        proof {
            lemma_root(Some(new_root));
            assert(link_entries(Some(new_root)) =~= link_entries(Some(before)));
        }
        new_root
    }

    fn rotate_right(mut node: Box<Node<K, V>>) -> (top: Box<Node<K, V>>)
        requires
            node.left is Some,
            recorded_height(node.right) == link_height(node.right),
            recorded_height(node.left->0.left) == link_height(node.left->0.left),
            recorded_height(node.left->0.right) == link_height(node.left->0.right),
            link_height(Some(node)) <= isize::MAX,
            link_height(node.right) < isize::MAX - 1,
        ensures
            top.key == node.left->0.key,
            top.value == node.left->0.value,
            top.left == node.left->0.left,
            top.right is Some,
            top.right->0.key == node.key,
            top.right->0.value == node.value,
            top.right->0.right == node.right,
            top.right->0.left == node.left->0.right,
            top.right->0.height == link_height(top.right),
            top.height == link_height(Some(top)),
            link_entries(Some(top)) == link_entries(Some(node)),
    {
        let ghost before = node;
        proof {
            lemma_root(Some(node));
            lemma_root(node.left);
        }
        let mut new_root = node.left.take().unwrap();
        node.left = new_root.right.take();
        Self::update_height(&mut node);
        proof {
            lemma_root(Some(node));
        }
        new_root.right = Some(node);
        Self::update_height(&mut new_root);
        proof {
            lemma_root(Some(new_root));
            assert(link_entries(Some(new_root)) =~= link_entries(Some(before)));
        }
        new_root
    }

    /// Restores the balance of a subtree whose two halves differ in height by two at most.
    fn balance(link: Option<Box<Node<K, V>>>) -> (balanced: Option<Box<Node<K, V>>>)
        requires
            link_nearly_balanced(link),
        ensures
            link_balanced(balanced),
            link_entries(balanced) == link_entries(link),
            link_balanced(link) ==> balanced == link,
            link_height(link) - 1 <= link_height(balanced) <= link_height(link),
    {
        let balance = Self::balance_factor(&link);
        let mut node = match link {
            Some(node) => node,
            None => {
                return None;
            },
        };
        proof {
            lemma_root(link);
            lemma_root(node.left);
            lemma_root(node.right);
        }
        if balance > 1 {
            let right_balance = Self::balance_factor(&node.right);
            if right_balance < 0 {
                let ghost before = node;
                let right = node.right.take().unwrap();
                proof {
                    lemma_root(right.left);
                    lemma_root(right.right);
                    lemma_root(right.left->0.left);
                    lemma_root(right.left->0.right);
                }
                let turned = Self::rotate_right(right);
                proof {
                    lemma_root(Some(turned));
                    lemma_root(turned.right);
                }
                node.right = Some(turned);
                proof {
                    lemma_root(Some(before));
                    lemma_root(Some(node));
                    assert(link_entries(Some(node)) == link_entries(Some(before)));
                }
            }
            proof {
                lemma_root(node.right);
                lemma_root(node.right->0.left);
                lemma_root(node.right->0.right);
            }
            let top = Self::rotate_left(node);
            proof {
                lemma_root(Some(top));
                lemma_root(top.left);
                lemma_root(top.right);
            }
            return Some(top);
        }
        if balance < -1 {
            let left_balance = Self::balance_factor(&node.left);
            if left_balance > 0 {
                let ghost before = node;
                let left = node.left.take().unwrap();
                proof {
                    lemma_root(left.left);
                    lemma_root(left.right);
                    lemma_root(left.right->0.left);
                    lemma_root(left.right->0.right);
                }
                let turned = Self::rotate_left(left);
                proof {
                    lemma_root(Some(turned));
                    lemma_root(turned.left);
                }
                node.left = Some(turned);
                proof {
                    lemma_root(Some(before));
                    lemma_root(Some(node));
                    assert(link_entries(Some(node)) == link_entries(Some(before)));
                }
            }
            proof {
                lemma_root(node.left);
                lemma_root(node.left->0.left);
                lemma_root(node.left->0.right);
            }
            let top = Self::rotate_right(node);
            proof {
                lemma_root(Some(top));
                lemma_root(top.left);
                lemma_root(top.right);
            }
            return Some(top);
        }
        Some(node)
    }

    fn insert_node(link: &mut Option<Box<Node<K, V>>>, key: K, value: V)
        requires
            total_order::<K>(),
            ascending(link_entries(*old(link))),
            link_balanced(*old(link)),
            link_height(*old(link)) < isize::MAX,
        ensures
            ascending(link_entries(*final(link))),
            after_put(link_entries(*old(link)), link_entries(*final(link)), key, value),
            link_balanced(*final(link)),
            link_height(*old(link)) <= link_height(*final(link)) <= link_height(*old(link)) + 1,
        decreases *old(link),
    {
        match link.take() {
            None => {
                *link = Some(Box::new(Node { key, value, left: None, right: None, height: 0 }));
                proof {
                    lemma_root(*link);
                    lemma_root(link->0.left);
                    lemma_root(link->0.right);
                    let after = link_entries(*link);
                    assert(after =~= seq![(key, value)]);
                    assert(after[0] == (key, value));
                    assert(link_entries(*old(link)) =~= Seq::<(K, V)>::empty());
                }
            },
            Some(mut node) => {
                let ghost a = link_entries(node.left);
                let ghost b = link_entries(node.right);
                let ghost x = (node.key, node.value);
                proof {
                    lemma_root(Some(node));
                    lemma_root(node.left);
                    lemma_root(node.right);
                    lemma_ascending_split(a, x, b);
                }
                if is_less(&key, &node.key) {
                    Self::insert_node(&mut node.left, key, value);
                    proof {
                        lemma_put_left(a, link_entries(node.left), x, b, key, value);
                    }
                } else if is_less(&node.key, &key) {
                    Self::insert_node(&mut node.right, key, value);
                    proof {
                        lemma_put_right(a, x, b, link_entries(node.right), key, value);
                    }
                } else {
                    proof {
                        lemma_trichotomy(key, node.key);
                        lemma_trichotomy(node.key, key);
                        lemma_same_rank_is_equal(key, node.key);
                        lemma_put_here(a, x, b, value);
                    }
                    node.value = value;
                    proof {
                        lemma_root(Some(node));
                    }
                    *link = Some(node);
                    return ;
                }
                proof {
                    lemma_root(node.left);
                    lemma_root(node.right);
                }
                Self::update_height(&mut node);
                proof {
                    lemma_root(Some(node));
                }
                *link = Self::balance(Some(node));
            },
        }
    }
}

/// A copy of the subtree `link`: the same keys in the same places, each with a clone of
/// its value.
fn clone_link<K: Ord + Copy, V: Clone>(link: &Option<Box<Node<K, V>>>) -> (copy: Option<
    Box<Node<K, V>>,
>)
    ensures
        is_clone_of(link_entries(*link), link_entries(copy)),
        link_height(copy) == link_height(*link),
        link_balanced(*link) ==> link_balanced(copy),
    decreases *link,
{
    match link {
        None => None,
        Some(node) => {
            let left = clone_link(&node.left);
            let right = clone_link(&node.right);
            let value = node.value.clone();
            let copy = Some(
                Box::new(Node { key: node.key, value, left, right, height: node.height }),
            );
            proof {
                lemma_root(*link);
                lemma_root(copy);
                let a = link_entries(node.left);
                let b = link_entries(node.right);
                let a2 = link_entries(left);
                let b2 = link_entries(right);
                let whole = link_entries(*link);
                let whole2 = link_entries(copy);
                assert forall|i: int| 0 <= i < whole.len() implies (#[trigger] whole2[i]).0
                    == whole[i].0 && cloned::<V>(whole[i].1, whole2[i].1) by {
                    if i < a.len() {
                        assert(whole[i] == a[i] && whole2[i] == a2[i]);
                    } else if i == a.len() {
                    } else {
                        assert(whole[i] == b[i - a.len() - 1] && whole2[i] == b2[i - a.len() - 1]);
                    }
                }
            }
            copy
        },
    }
}

impl<K: Ord + Copy, V: Clone> Clone for OrderedMap<K, V> {
    /// A map with the same keys, each with a clone of its value.
    fn clone(&self) -> (copy: Self)
        ensures
            copy@.dom() == self@.dom(),
            forall|key: K| #[trigger] copy@.contains_key(key) ==> cloned::<V>(self@[key], copy@[key]),
            copy.height() == self.height(),
            copy.is_balanced(),
    {
        proof {
            use_type_invariant(self);
        }
        let root = clone_link(&self.root);
        proof {
            lemma_clone_lists(link_entries(self.root), link_entries(root));
            lemma_root(self.root);
            lemma_root(root);
        }
        OrderedMap { root }
    }
}

} // verus!
