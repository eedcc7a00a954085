//! A max-priority queue kept as a binary heap in a vector.
//!
//! To its users the queue is the multiset of its elements. `push` adds an element to it,
//! `pop` takes a greatest element out of it, and `peek` shows one. Elements that rank the
//! same come out in no particular order.
//!
//! The queue can be made for every element type whose order is lawful
//! ([`crate::order::lawful_order`]).

use crate::order::{is_less, is_less_eq, lawful_order, lemma_transitive, lemma_trichotomy, less_eq};
use vstd::multiset::Multiset;
use vstd::prelude::*;
use vstd::seq_lib::{to_multiset_build, to_multiset_contains, to_multiset_len, to_multiset_update};

verus! {

/// A priority queue that hands out its greatest element first.
///
/// Its view is the multiset of the elements that were pushed and not yet popped.
pub struct PriorityQueue<T: Ord> {
    heap: Vec<T>,
}

/// `top` is in `elements`, and nothing in `elements` comes after it.
pub open spec fn is_greatest<T: Ord>(elements: Multiset<T>, top: T) -> bool {
    &&& elements.contains(top)
    &&& forall|other: T| elements.contains(other) ==> #[trigger] less_eq(other, top)
}

/// The index of the parent of the heap slot `i`.
spec fn parent(i: int) -> int {
    (i - 1) / 2
}

/// Every slot but the root and but `hole` holds at most what its parent holds.
spec fn heap_except<T: Ord>(s: Seq<T>, hole: int) -> bool {
    forall|i: int| 0 < i < s.len() && i != hole ==> less_eq(#[trigger] s[i], s[parent(i)])
}

/// Every slot that is not a child of `hole` holds at most what its parent holds.
spec fn heap_below<T: Ord>(s: Seq<T>, hole: int) -> bool {
    forall|i: int| 0 < i < s.len() && parent(i) != hole ==> less_eq(#[trigger] s[i], s[parent(i)])
}

/// The children of `hole` hold at most what `bound` is.
spec fn children_at_most<T: Ord>(s: Seq<T>, hole: int, bound: T) -> bool {
    forall|i: int| 0 < i < s.len() && parent(i) == hole ==> less_eq(#[trigger] s[i], bound)
}

spec fn is_heap<T: Ord>(s: Seq<T>) -> bool {
    heap_except(s, 0)
}

spec fn swapped<T>(s: Seq<T>, i: int, j: int) -> Seq<T> {
    s.update(i, s[j]).update(j, s[i])
}

proof fn lemma_swapped_keeps_elements<T>(s: Seq<T>, i: int, j: int)
    requires
        0 <= i < s.len(),
        0 <= j < s.len(),
    ensures
        swapped(s, i, j).to_multiset() == s.to_multiset(),
{
    broadcast use vstd::multiset::group_multiset_axioms;

    let mid = s.update(i, s[j]);
    to_multiset_update(s, i, s[j]);
    to_multiset_update(mid, j, s[i]);
    to_multiset_contains(s, s[i]);
    to_multiset_contains(s, s[j]);
    assert(s.contains(s[i]));
    assert(s.contains(s[j]));
    assert(swapped(s, i, j).to_multiset() =~= s.to_multiset());
}

proof fn lemma_root_is_greatest<T: Ord>(s: Seq<T>, i: int)
    requires
        lawful_order::<T>(),
        is_heap(s),
        0 <= i < s.len(),
    ensures
        less_eq(s[i], s[0]),
    decreases i,
{
    if i == 0 {
        lemma_trichotomy(s[0], s[0]);
    } else {
        lemma_root_is_greatest(s, parent(i));
        lemma_transitive(s[i], s[parent(i)], s[0]);
    }
}

proof fn lemma_heap_top<T: Ord>(s: Seq<T>)
    requires
        lawful_order::<T>(),
        is_heap(s),
        s.len() > 0,
    ensures
        is_greatest(s.to_multiset(), s[0]),
{
    to_multiset_contains(s, s[0]);
    assert(s.contains(s[0]));
    assert forall|other: T| s.to_multiset().contains(other) implies #[trigger] less_eq(
        other,
        s[0],
    ) by {
        to_multiset_contains(s, other);
        let i = choose|i: int| 0 <= i < s.len() && s[i] == other;
        lemma_root_is_greatest(s, i);
    }
}

/// Exchanges two elements of a vector, by `<[T]>::swap`: afterwards each of the two places
/// holds what the other held, and every other place is unchanged.
#[verifier::external_body]
fn swap_elements<T>(v: &mut Vec<T>, i: usize, j: usize)
    requires
        i < old(v)@.len(),
        j < old(v)@.len(),
    ensures
        final(v)@ == swapped(old(v)@, i as int, j as int),
{
    v.swap(i, j);
}

impl<T: Ord> View for PriorityQueue<T> {
    type V = Multiset<T>;

    closed spec fn view(&self) -> Multiset<T> {
        self.heap@.to_multiset()
    }
}

impl<T: Ord> PriorityQueue<T> {
    #[verifier::type_invariant]
    spec fn well_formed(self) -> bool {
        lawful_order::<T>() && is_heap(self.heap@)
    }

    /// An empty queue.
    pub fn new() -> (queue: Self)
        requires
            lawful_order::<T>(),
        ensures
            queue@ == Multiset::<T>::empty(),
    {
        let queue = PriorityQueue { heap: Vec::new() };
        assert(queue.heap@.to_multiset() =~= Multiset::<T>::empty()) by {
            to_multiset_len(queue.heap@);
            broadcast use vstd::multiset::group_multiset_axioms;

        }
        queue
    }

    /// Whether the queue holds no element.
    pub fn is_empty(&self) -> (empty: bool)
        ensures
            empty == (self@.len() == 0),
    {
        proof {
            to_multiset_len(self.heap@);
        }
        self.heap.len() == 0
    }

    /// The number of elements in the queue.
    pub fn len(&self) -> (count: usize)
        ensures
            count == self@.len(),
    {
        proof {
            to_multiset_len(self.heap@);
        }
        self.heap.len()
    }

    /// Adds `value` to the queue.
    pub fn push(&mut self, value: T)
        ensures
            final(self)@ == old(self)@.insert(value),
    {
        proof {
            use_type_invariant(&*self);
        }
        let mut heap: Vec<T> = Vec::new();
        core::mem::swap(&mut heap, &mut self.heap);
        proof {
            to_multiset_build(heap@, value);
        }
        heap.push(value);
        Self::sift_up(&mut heap);
        self.heap = heap;
    }

    /// Removes and returns a greatest element of the queue, or `None` if the queue is empty.
    pub fn pop(&mut self) -> (popped: Option<T>)
        ensures
            match popped {
                Some(top) => is_greatest(old(self)@, top) && final(self)@ == old(self)@.remove(top),
                None => old(self)@.len() == 0 && final(self)@ == old(self)@,
            },
    {
        proof {
            use_type_invariant(&*self);
            to_multiset_len(self.heap@);
        }
        if self.heap.len() == 0 {
            return None;
        }
        let mut heap: Vec<T> = Vec::new();
        core::mem::swap(&mut heap, &mut self.heap);
        let ghost before = heap@;
        let last = heap.len() - 1;
        proof {
            lemma_heap_top(before);
            lemma_swapped_keeps_elements(before, 0, last as int);
        }
        swap_elements(&mut heap, 0, last);
        let ghost exchanged = heap@;
        let result = heap.pop();
        proof {
            broadcast use vstd::multiset::group_multiset_axioms;

            assert(exchanged =~= heap@.push(before[0]));
            to_multiset_build(heap@, before[0]);
            assert(heap@.to_multiset() =~= before.to_multiset().remove(before[0]));
            assert(heap_below(heap@, 0)) by {
                assert forall|i: int| 0 < i < heap@.len() && parent(i) != 0 implies less_eq(
                    #[trigger] heap@[i],
                    heap@[parent(i)],
                ) by {
                    assert(less_eq(before[i], before[parent(i)]));
                }
            }
        }
        if heap.len() > 0 {
            Self::sift_down(&mut heap);
        }
        self.heap = heap;
        result
    }

    /// A greatest element of the queue, or `None` if the queue is empty.
    pub fn peek(&self) -> (top: Option<&T>)
        ensures
            match top {
                Some(top) => is_greatest(self@, *top),
                None => self@.len() == 0,
            },
    {
        proof {
            use_type_invariant(self);
            to_multiset_len(self.heap@);
        }
        if self.heap.len() == 0 {
            None
        } else {
            proof {
                lemma_heap_top(self.heap@);
            }
            Some(&self.heap[0])
        }
    }

    /// Moves the last element up until its parent is no smaller.
    fn sift_up(heap: &mut Vec<T>)
        requires
            lawful_order::<T>(),
            old(heap)@.len() > 0,
            heap_except(old(heap)@, old(heap)@.len() - 1),
        ensures
            is_heap(final(heap)@),
            final(heap)@.to_multiset() == old(heap)@.to_multiset(),
    {
        let mut current = heap.len() - 1;
        while current > 0
            invariant
                lawful_order::<T>(),
                current < heap@.len(),
                heap_except(heap@, current as int),
                current > 0 ==> children_at_most(heap@, current as int, heap@[parent(current as int)]),
                heap@.to_multiset() == old(heap)@.to_multiset(),
            ensures
                is_heap(heap@),
                heap@.to_multiset() == old(heap)@.to_multiset(),
            decreases current,
        {
            let parent = (current - 1) / 2;
            if is_less_eq(&heap[current], &heap[parent]) {
                break ;
            }
            let ghost s = heap@;
            swap_elements(heap, current, parent);
            proof {
                let c = current as int;
                let p = parent as int;
                lemma_swapped_keeps_elements(s, c, p);
                lemma_trichotomy(s[c], s[p]);
                assert forall|i: int| 0 < i < heap@.len() && i != p implies less_eq(
                    #[trigger] heap@[i],
                    heap@[self::parent(i)],
                ) by {
                    if i == c {
                    } else if self::parent(i) == c {
                        assert(less_eq(s[i], s[p]));
                    } else if self::parent(i) == p {
                        assert(less_eq(s[i], s[p]));
                        lemma_transitive(s[i], s[p], s[c]);
                    } else {
                        assert(less_eq(s[i], s[self::parent(i)]));
                    }
                }
                if p > 0 {
                    let pp = self::parent(p);
                    assert(less_eq(s[p], s[pp]));
                    assert forall|i: int| 0 < i < heap@.len() && self::parent(i) == p implies less_eq(
                        #[trigger] heap@[i],
                        heap@[pp],
                    ) by {
                        if i != c {
                            assert(less_eq(s[i], s[p]));
                            lemma_transitive(s[i], s[p], s[pp]);
                        }
                    }
                }
            }
            current = parent;
        }
    }

    /// Moves the root down until neither child is greater.
    fn sift_down(heap: &mut Vec<T>)
        requires
            lawful_order::<T>(),
            old(heap)@.len() > 0,
            heap_below(old(heap)@, 0),
        ensures
            is_heap(final(heap)@),
            final(heap)@.to_multiset() == old(heap)@.to_multiset(),
    {
        let len = heap.len();
        let mut current: usize = 0;
        loop
            invariant
                lawful_order::<T>(),
                len == heap@.len(),
                current < len,
                heap_below(heap@, current as int),
                current > 0 ==> children_at_most(heap@, current as int, heap@[parent(current as int)]),
                current > 0 ==> less_eq(heap@[current as int], heap@[parent(current as int)]),
                heap@.to_multiset() == old(heap)@.to_multiset(),
            ensures
                is_heap(heap@),
                heap@.to_multiset() == old(heap)@.to_multiset(),
            decreases len - current,
        {
            if current >= len / 2 {
                break ;
            }
            let left = 2 * current + 1;
            let right = 2 * current + 2;
            let mut largest = current;

            let ghost s = heap@;
            if left < len && is_less(&heap[largest], &heap[left]) {
                largest = left;
            }
            let ghost larger = largest as int;
            proof {
                lemma_trichotomy(s[current as int], s[left as int]);
                lemma_trichotomy(s[left as int], s[left as int]);
            }
            if right < len && is_less(&heap[largest], &heap[right]) {
                largest = right;
            }
            proof {
                if right < len {
                    lemma_trichotomy(s[larger], s[right as int]);
                    lemma_trichotomy(s[right as int], s[right as int]);
                    if largest == right {
                        lemma_transitive(s[current as int], s[larger], s[right as int]);
                        lemma_transitive(s[left as int], s[larger], s[right as int]);
                    }
                }
                assert(less_eq(s[left as int], s[largest as int]));
                assert(right < len ==> less_eq(s[right as int], s[largest as int]));
                assert(less_eq(s[current as int], s[largest as int]));
            }
            if largest == current {
                break ;
            }
            swap_elements(heap, current, largest);
            proof {
                let c = current as int;
                let l = largest as int;
                lemma_swapped_keeps_elements(s, c, l);
                assert forall|i: int| 0 < i < heap@.len() && parent(i) != l implies less_eq(
                    #[trigger] heap@[i],
                    heap@[parent(i)],
                ) by {
                    if i == l {
                    } else if parent(i) == c {
                    } else if i == c {
                    } else {
                        assert(less_eq(s[i], s[parent(i)]));
                    }
                }
                assert forall|i: int| 0 < i < heap@.len() && parent(i) == l implies less_eq(
                    #[trigger] heap@[i],
                    heap@[c],
                ) by {
                    assert(less_eq(s[i], s[parent(i)]));
                }
            }
            current = largest;
        }
    }
}

/// Popping hands out the elements in non-increasing order: what is greatest once a greatest
/// element has been taken out does not come after what was taken.
pub proof fn lemma_pops_do_not_increase<T: Ord>(elements: Multiset<T>, first: T, second: T)
    requires
        is_greatest(elements, first),
        is_greatest(elements.remove(first), second),
    ensures
        less_eq(second, first),
{
    broadcast use vstd::multiset::group_multiset_axioms;

    assert(elements.contains(second));
}

} // verus!
