//! An array-backed binary min-heap.

use crate::heap_order::{
    after_pop, is_min_heap, lemma_after_pop, lemma_melded, lemma_root_is_lightest,
    lemma_sift_up_permutes, lemma_sift_up_restores, melded, parent, sift_down, sift_up,
    sift_up_range,
};
use vstd::prelude::*;
use vstd::seq_lib::group_to_multiset_ensures;

verus! {

/// A value together with the weight that ranks it.
#[derive(Debug)]
pub struct Item<T> {
    pub value: T,
    pub weight: i64,
}

/// A min-heap over owned values, stored as a complete binary tree in an
/// array: the children of position `i` are at `2i + 1` and `2i + 2`.
#[derive(Debug)]
pub struct BinaryHeap<T> {
    heap: Vec<Item<T>>,
}

impl<T> View for BinaryHeap<T> {
    type V = Seq<Item<T>>;

    /// The backing array, root first.
    closed spec fn view(&self) -> Seq<Item<T>> {
        self.heap@
    }
}

/// Position of the parent of `index`; the root is its own parent.
pub(crate) fn parent_index(index: usize) -> (p: usize)
    ensures
        index == 0 ==> p == 0,
        index > 0 ==> p == parent(index as int),
{
    if index == 0 {
        return 0;
    }
    (index - 1) / 2
}

/// Moves the element at `index` toward the root until its parent is no
/// heavier than it.
fn percolate_up<T>(heap: &mut Vec<Item<T>>, index: usize)
    requires
        index < old(heap)@.len(),
    ensures
        final(heap)@ == sift_up(old(heap)@, index as int),
{
    let mut current = index;
    while current > 0 && heap[parent_index(current)].weight > heap[current].weight
        invariant
            current < heap@.len(),
            sift_up(heap@, current as int) == sift_up(old(heap)@, index as int),
        decreases current,
    {
        let up = parent_index(current);
        heap.swap(current, up);
        current = up;
    }
}

/// Moves the element at `index` toward the leaves until neither child is
/// lighter than it.
fn percolate_down<T>(heap: &mut Vec<Item<T>>, index: usize)
    requires
        index < old(heap)@.len(),
    ensures
        final(heap)@ == sift_down(old(heap)@, index as int),
{
    let mut current = index;
    let len = heap.len();
    while current < len / 2
        invariant
            len == heap@.len(),
            current < len,
            sift_down(heap@, current as int) == sift_down(old(heap)@, index as int),
        decreases len - current,
    {
        let left = 2 * current + 1;
        let right = left + 1;
        if right < len && heap[right].weight < heap[current].weight && heap[left].weight
            > heap[right].weight {
            heap.swap(current, right);
            current = right;
        } else if heap[left].weight < heap[current].weight {
            heap.swap(current, left);
            current = left;
        } else {
            return;
        }
    }
}

impl<T> BinaryHeap<T> {
    #[verifier::type_invariant]
    spec fn heap_ordered(self) -> bool {
        is_min_heap(self.heap@)
    }

    /// An empty heap.
    pub fn new() -> (heap: Self)
        ensures
            heap@ == Seq::<Item<T>>::empty(),
    {
        BinaryHeap { heap: Vec::new() }
    }

    /// Adds `value` with the given `weight`: the new element is appended and
    /// walks up to its place.
    pub fn push(&mut self, value: T, weight: i64)
        ensures
            final(self)@ == sift_up(
                old(self)@.push((Item { value, weight })),
                old(self)@.len() as int,
            ),
            is_min_heap(final(self)@),
            final(self)@.len() == old(self)@.len() + 1,
            final(self)@.to_multiset() == old(self)@.to_multiset().insert((Item { value, weight })),
    {
        proof {
            use_type_invariant(&*self);
        }
        let mut heap: Vec<Item<T>> = Vec::new();
        std::mem::swap(&mut heap, &mut self.heap);
        let index = heap.len();
        heap.push(Item { value, weight });
        proof {
            broadcast use group_to_multiset_ensures;

            lemma_sift_up_permutes(heap@, index as int);
            lemma_sift_up_restores(heap@, index as int);
        }
        percolate_up(&mut heap, index);
        self.heap = heap;
    }

    /// The element that `pop` would return next, if there is one.
    pub fn peek(&self) -> (top: Option<&Item<T>>)
        ensures
            self@.len() == 0 ==> top is None,
            self@.len() > 0 ==> top == Some(&self@[0]),
            is_min_heap(self@),
            forall|k: int| 0 <= k < self@.len() ==> self@[0].weight <= (#[trigger] self@[k]).weight,
    {
        proof {
            use_type_invariant(self);
            lemma_root_is_lightest(self.heap@);
        }
        if self.heap.len() == 0 {
            None
        } else {
            Some(&self.heap[0])
        }
    }

    /// Removes and returns the root, an element of least weight; `None`
    /// when the heap is empty.
    pub fn pop(&mut self) -> (popped: Option<Item<T>>)
        ensures
            old(self)@.len() == 0 ==> popped is None && final(self)@ == old(self)@,
            old(self)@.len() > 0 ==> popped == Some(old(self)@[0]) && final(self)@ == after_pop(
                old(self)@,
            ),
            is_min_heap(final(self)@),
            popped matches Some(item) ==> {
                &&& final(self)@.len() == old(self)@.len() - 1
                &&& final(self)@.to_multiset() == old(self)@.to_multiset().remove(item)
                &&& forall|k: int|
                    0 <= k < old(self)@.len() ==> item.weight <= (#[trigger] old(self)@[k]).weight
            },
    {
        proof {
            use_type_invariant(&*self);
            lemma_root_is_lightest(self.heap@);
        }
        if self.heap.len() == 0 {
            return None;
        }
        let mut heap: Vec<Item<T>> = Vec::new();
        std::mem::swap(&mut heap, &mut self.heap);
        proof {
            lemma_after_pop(heap@);
        }
        let last_index = heap.len() - 1;
        heap.swap(0, last_index);
        let popped = heap.pop();
        if heap.len() > 0 {
            percolate_down(&mut heap, 0);
        }
        self.heap = heap;
        proof {
            assert(self@ == after_pop(old(self)@));
        }
        popped
    }

    /// Number of elements.
    pub fn len(&self) -> (n: usize)
        ensures
            n == self@.len(),
    {
        self.heap.len()
    }

    /// Whether the heap holds no element.
    pub fn is_empty(&self) -> (empty: bool)
        ensures
            empty <==> self@.len() == 0,
    {
        self.len() == 0
    }

    /// Absorbs `other`: its backing array is appended to this one, and each
    /// appended position in turn walks up to its place.
    pub fn meld(&mut self, other: BinaryHeap<T>)
        ensures
            final(self)@ == melded(old(self)@, other@),
            is_min_heap(final(self)@),
            final(self)@.len() == old(self)@.len() + other@.len(),
            final(self)@.to_multiset() == old(self)@.to_multiset().add(other@.to_multiset()),
    {
        proof {
            use_type_invariant(&*self);
        }
        let mut heap: Vec<Item<T>> = Vec::new();
        std::mem::swap(&mut heap, &mut self.heap);
        let BinaryHeap { heap: mut theirs } = other;
        let heapify_start = heap.len();
        heap.append(&mut theirs);
        let ghost joined = heap@;
        let end = heap.len();
        proof {
            lemma_melded(old(self)@, other@);
        }
        let mut i = heapify_start;
        while i < end
            invariant
                heapify_start <= i <= end,
                end == heap@.len(),
                end == joined.len(),
                sift_up_range(heap@, i as int, end as int) == sift_up_range(
                    joined,
                    heapify_start as int,
                    end as int,
                ),
            decreases end - i,
        {
            proof {
                lemma_sift_up_permutes(heap@, i as int);
            }
            percolate_up(&mut heap, i);
            i += 1;
        }
        self.heap = heap;
    }
}

} // verus!
