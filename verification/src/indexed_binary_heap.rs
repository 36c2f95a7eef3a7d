//! A binary min-heap that also records the position of every value, so that
//! the weight of a value already in the heap can be changed in place.

use crate::binary_heap::{parent_index, Item};
use crate::heap_order::{
    after_pop, after_update, is_min_heap, lemma_after_pop, lemma_after_update,
    lemma_root_is_lightest, lemma_sift_up_permutes, lemma_sift_up_restores, sift_down, sift_up,
    swapped,
};
use std::collections::HashMap;
use vstd::prelude::*;
use vstd::seq_lib::group_to_multiset_ensures;

verus! {

/// Why a call on an indexed heap was refused.
#[derive(Debug, Clone, Copy, PartialEq, Eq, Structural)]
pub enum HeapError {
    /// `push` was given a value that the heap already holds.
    DuplicateValue,
    /// `update_weight` was given a value that the heap does not hold.
    ValueNotFound,
}

/// The map `m` records, for exactly the values of `s`, the position of each.
pub open spec fn is_index_of(s: Seq<Item<u64>>, m: Map<u64, usize>) -> bool {
    &&& forall|i: int|
        0 <= i < s.len() ==> m.contains_key((#[trigger] s[i]).value) && m[s[i].value] == i
    &&& forall|v: u64|
        m.contains_key(v) ==> 0 <= (#[trigger] m[v]) < s.len() && s[m[v] as int].value == v
}

/// A min-heap over values that are their own keys, with a map from each
/// value to its position in the backing array.
#[derive(Debug)]
pub struct IndexedBinaryHeap {
    heap: Vec<Item<u64>>,
    indices: HashMap<u64, usize>,
}

impl View for IndexedBinaryHeap {
    type V = Seq<Item<u64>>;

    /// The backing array, root first.
    closed spec fn view(&self) -> Seq<Item<u64>> {
        self.heap@
    }
}

/// Exchanges the elements at positions `a` and `b` and records the new
/// position of both values.
fn swap_slots(heap: &mut Vec<Item<u64>>, indices: &mut HashMap<u64, usize>, a: usize, b: usize)
    requires
        a < old(heap)@.len(),
        b < old(heap)@.len(),
        is_index_of(old(heap)@, old(indices)@),
    ensures
        final(heap)@ == swapped(old(heap)@, a as int, b as int),
        is_index_of(final(heap)@, final(indices)@),
        final(indices)@.dom() == old(indices)@.dom(),
{
    heap.swap(a, b);
    indices.insert(heap[a].value, a);
    indices.insert(heap[b].value, b);
}

/// Moves the element at `index` toward the root until its parent is no
/// heavier than it.
fn percolate_up(heap: &mut Vec<Item<u64>>, indices: &mut HashMap<u64, usize>, index: usize)
    requires
        index < old(heap)@.len(),
        is_index_of(old(heap)@, old(indices)@),
    ensures
        final(heap)@ == sift_up(old(heap)@, index as int),
        is_index_of(final(heap)@, final(indices)@),
        final(indices)@.dom() == old(indices)@.dom(),
{
    let mut current = index;
    while current > 0 && heap[parent_index(current)].weight > heap[current].weight
        invariant
            current < heap@.len(),
            is_index_of(heap@, indices@),
            indices@.dom() == old(indices)@.dom(),
            sift_up(heap@, current as int) == sift_up(old(heap)@, index as int),
        decreases current,
    {
        let up = parent_index(current);
        swap_slots(heap, indices, current, up);
        current = up;
    }
}

/// Moves the element at `index` toward the leaves until neither child is
/// lighter than it.
fn percolate_down(heap: &mut Vec<Item<u64>>, indices: &mut HashMap<u64, usize>, index: usize)
    requires
        index < old(heap)@.len(),
        is_index_of(old(heap)@, old(indices)@),
    ensures
        final(heap)@ == sift_down(old(heap)@, index as int),
        is_index_of(final(heap)@, final(indices)@),
        final(indices)@.dom() == old(indices)@.dom(),
{
    let mut current = index;
    let len = heap.len();
    while current < len / 2
        invariant
            len == heap@.len(),
            current < len,
            is_index_of(heap@, indices@),
            indices@.dom() == old(indices)@.dom(),
            sift_down(heap@, current as int) == sift_down(old(heap)@, index as int),
        decreases len - current,
    {
        let left = 2 * current + 1;
        let right = left + 1;
        if right < len && heap[right].weight < heap[current].weight && heap[left].weight
            > heap[right].weight {
            swap_slots(heap, indices, current, right);
            current = right;
        } else if heap[left].weight < heap[current].weight {
            swap_slots(heap, indices, current, left);
            current = left;
        } else {
            return;
        }
    }
}

impl IndexedBinaryHeap {
    #[verifier::type_invariant]
    spec fn well_formed(self) -> bool {
        &&& is_min_heap(self.heap@)
        &&& is_index_of(self.heap@, self.indices@)
    }

    /// The recorded position of every value of the heap.
    pub closed spec fn positions(&self) -> Map<u64, usize> {
        self.indices@
    }

    /// An empty heap.
    pub fn new() -> (heap: Self)
        ensures
            heap@ == Seq::<Item<u64>>::empty(),
            heap.positions() == Map::<u64, usize>::empty(),
    {
        IndexedBinaryHeap { heap: Vec::new(), indices: HashMap::new() }
    }

    /// Whether the heap holds `value`.
    pub fn contains(&self, value: u64) -> (held: bool)
        ensures
            held == self.positions().contains_key(value),
            held == exists|i: int| 0 <= i < self@.len() && (#[trigger] self@[i]).value == value,
            is_index_of(self@, self.positions()),
    {
        proof {
            use_type_invariant(self);
        }
        let held = self.indices.contains_key(&value);
        proof {
            if held {
                assert(self@[self.indices@[value] as int].value == value);
            }
        }
        held
    }

    /// Adds `value` with the given `weight`, unless the heap already holds
    /// `value`: then nothing changes and the call reports `DuplicateValue`.
    pub fn push(&mut self, value: u64, weight: i64) -> (result: Result<(), HeapError>)
        ensures
            old(self).positions().contains_key(value) ==> {
                &&& result == Err::<(), HeapError>(HeapError::DuplicateValue)
                &&& final(self)@ == old(self)@
                &&& final(self).positions() == old(self).positions()
            },
            !old(self).positions().contains_key(value) ==> {
                &&& result == Ok::<(), HeapError>(())
                &&& final(self)@ == sift_up(
                    old(self)@.push((Item { value, weight })),
                    old(self)@.len() as int,
                )
                &&& final(self)@.len() == old(self)@.len() + 1
                &&& final(self)@.to_multiset() == old(self)@.to_multiset().insert(
                    (Item { value, weight }),
                )
                &&& final(self).positions().dom() == old(self).positions().dom().insert(value)
            },
            is_min_heap(final(self)@),
            is_index_of(final(self)@, final(self).positions()),
    {
        proof {
            use_type_invariant(&*self);
        }
        if self.indices.contains_key(&value) {
            return Err(HeapError::DuplicateValue);
        }
        let mut ours = IndexedBinaryHeap::new();
        std::mem::swap(self, &mut ours);
        let IndexedBinaryHeap { heap, indices } = ours;
        let mut heap = heap;
        let mut indices = indices;
        let index = heap.len();
        heap.push(Item { value, weight });
        indices.insert(value, index);
        proof {
            broadcast use group_to_multiset_ensures;

            lemma_sift_up_permutes(heap@, index as int);
            lemma_sift_up_restores(heap@, index as int);
        }
        percolate_up(&mut heap, &mut indices, index);
        *self = IndexedBinaryHeap { heap, indices };
        Ok(())
    }

    /// The element that `pop` would return next, if there is one.
    pub fn peek(&self) -> (top: Option<&Item<u64>>)
        ensures
            self@.len() == 0 ==> top is None,
            self@.len() > 0 ==> top == Some(&self@[0]),
            is_min_heap(self@),
            is_index_of(self@, self.positions()),
            forall|k: int| 0 <= k < self@.len() ==> self@[0].weight <= (#[trigger] self@[k]).weight,
    {
        proof {
            use_type_invariant(self);
            lemma_root_is_lightest(self.heap@);
        }
        if self.heap.len() == 0 {
            None
        } else {
            Some(&self.heap[0])
        }
    }

    /// Removes and returns the root, an element of least weight, and forgets
    /// its position; `None` when the heap is empty.
    pub fn pop(&mut self) -> (popped: Option<Item<u64>>)
        ensures
            old(self)@.len() == 0 ==> {
                &&& popped is None
                &&& final(self)@ == old(self)@
                &&& final(self).positions() == old(self).positions()
            },
            old(self)@.len() > 0 ==> popped == Some(old(self)@[0]) && final(self)@ == after_pop(
                old(self)@,
            ),
            is_min_heap(final(self)@),
            is_index_of(final(self)@, final(self).positions()),
            popped matches Some(item) ==> {
                &&& final(self)@.len() == old(self)@.len() - 1
                &&& final(self)@.to_multiset() == old(self)@.to_multiset().remove(item)
                &&& final(self).positions().dom() == old(self).positions().dom().remove(item.value)
                &&& forall|k: int|
                    0 <= k < old(self)@.len() ==> item.weight <= (#[trigger] old(self)@[k]).weight
            },
    {
        proof {
            use_type_invariant(&*self);
            lemma_root_is_lightest(self.heap@);
        }
        if self.heap.len() == 0 {
            return None;
        }
        let mut ours = IndexedBinaryHeap::new();
        std::mem::swap(self, &mut ours);
        let IndexedBinaryHeap { heap, indices } = ours;
        let mut heap = heap;
        let mut indices = indices;
        proof {
            lemma_after_pop(heap@);
        }
        let last_index = heap.len() - 1;
        swap_slots(&mut heap, &mut indices, 0, last_index);
        let popped = heap.pop();
        let item = popped.unwrap();
        indices.remove(&item.value);
        if heap.len() > 0 {
            percolate_down(&mut heap, &mut indices, 0);
        }
        *self = IndexedBinaryHeap { heap, indices };
        proof {
            assert(self@ == after_pop(old(self)@));
        }
        Some(item)
    }

    /// Gives `value` the weight `new_weight` and moves it to its place:
    /// toward the root when the new weight is smaller than the old one,
    /// toward the leaves otherwise. When the heap does not hold `value`,
    /// nothing changes and the call reports `ValueNotFound`.
    pub fn update_weight(&mut self, value: u64, new_weight: i64) -> (result: Result<(), HeapError>)
        ensures
            !old(self).positions().contains_key(value) ==> {
                &&& result == Err::<(), HeapError>(HeapError::ValueNotFound)
                &&& final(self)@ == old(self)@
                &&& final(self).positions() == old(self).positions()
            },
            old(self).positions().contains_key(value) ==> {
                let at = old(self).positions()[value] as int;
                &&& result == Ok::<(), HeapError>(())
                &&& old(self)@[at].value == value
                &&& final(self)@ == after_update(old(self)@, at, new_weight)
                &&& final(self)@.len() == old(self)@.len()
                &&& final(self)@.to_multiset() == old(self)@.to_multiset().remove(
                    old(self)@[at],
                ).insert((Item { value, weight: new_weight }))
                &&& final(self).positions().dom() == old(self).positions().dom()
            },
            is_min_heap(final(self)@),
            is_index_of(final(self)@, final(self).positions()),
    {
        proof {
            use_type_invariant(&*self);
        }
        let at = match self.indices.get(&value) {
            Some(at) => *at,
            None => {
                return Err(HeapError::ValueNotFound);
            },
        };
        let mut ours = IndexedBinaryHeap::new();
        std::mem::swap(self, &mut ours);
        let IndexedBinaryHeap { heap, indices } = ours;
        let mut heap = heap;
        let mut indices = indices;
        let old_weight = heap[at].weight;
        let ghost before = heap@;
        heap.set(at, Item { value, weight: new_weight });
        proof {
            lemma_after_update(before, at as int, new_weight);
        }
        if new_weight < old_weight {
            percolate_up(&mut heap, &mut indices, at);
        } else {
            percolate_down(&mut heap, &mut indices, at);
        }
        *self = IndexedBinaryHeap { heap, indices };
        Ok(())
    }

    /// Number of elements.
    pub fn len(&self) -> (n: usize)
        ensures
            n == self@.len(),
    {
        self.heap.len()
    }

    /// Whether the heap holds no element.
    pub fn is_empty(&self) -> (empty: bool)
        ensures
            empty <==> self@.len() == 0,
    {
        self.len() == 0
    }
}

} // verus!
