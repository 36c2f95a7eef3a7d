//! The mathematical model of a binary min-heap stored in a sequence: the
//! position arithmetic, the heap-order predicate, the two restoration walks
//! as functions on sequences, and the facts the executable heaps rely on.

use crate::ascending::{
    is_ascending, lemma_ascending_unique, lemma_one_ascending_order,
    lemma_weights_of_rearrangement, weights, weights_differ,
};
use crate::binary_heap::Item;
use vstd::multiset::Multiset;
use vstd::prelude::*;
use vstd::seq_lib::*;

verus! {

/// Position of the parent of the non-root position `i`.
pub open spec fn parent(i: int) -> int {
    (i - 1) / 2
}

/// Every element weighs at least as much as its parent.
pub open spec fn is_min_heap<T>(s: Seq<Item<T>>) -> bool {
    forall|i: int, j: int|
        0 <= i < j < s.len() && i == parent(j) ==> (#[trigger] s[i]).weight <= (
        #[trigger] s[j]).weight
}

/// `s` with the elements at positions `i` and `j` exchanged.
pub open spec fn swapped<T>(s: Seq<T>, i: int, j: int) -> Seq<T> {
    s.update(i, s[j]).update(j, s[i])
}

/// The upward walk from position `k`: while the element weighs strictly less
/// than its parent, exchange the two and continue from the parent.
pub open spec fn sift_up<T>(s: Seq<Item<T>>, k: int) -> Seq<Item<T>>
    decreases k,
{
    if 0 < k < s.len() && s[parent(k)].weight > s[k].weight {
        sift_up(swapped(s, k, parent(k)), parent(k))
    } else {
        s
    }
}

/// The downward walk from position `k`: while a child weighs strictly less
/// than the element, exchange the element with its lighter child (the right
/// child only when it is strictly lighter than the left) and continue there.
pub open spec fn sift_down<T>(s: Seq<Item<T>>, k: int) -> Seq<Item<T>>
    decreases s.len() - k,
{
    let left = 2 * k + 1;
    let right = 2 * k + 2;
    if 0 <= k && right < s.len() && s[right].weight < s[k].weight && s[left].weight
        > s[right].weight {
        sift_down(swapped(s, k, right), right)
    } else if 0 <= k && left < s.len() && s[left].weight < s[k].weight {
        sift_down(swapped(s, k, left), left)
    } else {
        s
    }
}

/// The upward walk run from each of the positions `from`, `from + 1`, ...,
/// `to - 1` in turn.
pub open spec fn sift_up_range<T>(s: Seq<Item<T>>, from: int, to: int) -> Seq<Item<T>>
    decreases to - from,
{
    if from < to {
        sift_up_range(sift_up(s, from), from + 1, to)
    } else {
        s
    }
}

/// The heap that absorbs `theirs` into `ours`: the two arrays are joined and
/// every position that came from `theirs` walks up in turn.
pub open spec fn melded<T>(ours: Seq<Item<T>>, theirs: Seq<Item<T>>) -> Seq<Item<T>> {
    sift_up_range(ours + theirs, ours.len() as int, (ours.len() + theirs.len()) as int)
}

/// What remains of a non-empty heap once its root is extracted: the last
/// element takes the root's place and walks down.
pub open spec fn after_pop<T>(s: Seq<Item<T>>) -> Seq<Item<T>> {
    if s.len() <= 1 {
        Seq::empty()
    } else {
        sift_down(s.drop_last().update(0, s.last()), 0)
    }
}

/// The heap after the element at position `at` is given the weight
/// `new_weight`: the element walks up when the new weight is smaller than the
/// old one, and down otherwise.
pub open spec fn after_update<T>(s: Seq<Item<T>>, at: int, new_weight: i64) -> Seq<Item<T>> {
    let changed = s.update(at, Item { value: s[at].value, weight: new_weight });
    if new_weight < s[at].weight {
        sift_up(changed, at)
    } else {
        sift_down(changed, at)
    }
}

/// Heap order holds everywhere except possibly between `k` and its parent,
/// and the parent of `k` is no heavier than the children of `k`.
pub open spec fn heap_except_above<T>(s: Seq<Item<T>>, k: int) -> bool {
    &&& forall|i: int, j: int|
        0 <= i < j < s.len() && i == parent(j) && j != k ==> (#[trigger] s[i]).weight <= (
        #[trigger] s[j]).weight
    &&& forall|c: int|
        0 < k < c < s.len() && parent(c) == k ==> s[parent(k)].weight <= (#[trigger] s[c]).weight
}

/// Heap order holds everywhere except possibly between `k` and its children,
/// and the parent of `k` is no heavier than the children of `k`.
pub open spec fn heap_except_below<T>(s: Seq<Item<T>>, k: int) -> bool {
    &&& forall|i: int, j: int|
        0 <= i < j < s.len() && i == parent(j) && i != k ==> (#[trigger] s[i]).weight <= (
        #[trigger] s[j]).weight
    &&& forall|c: int|
        0 < k < c < s.len() && parent(c) == k ==> s[parent(k)].weight <= (#[trigger] s[c]).weight
}

/// Exchanging two elements keeps the length and the contents.
pub proof fn lemma_swapped_permutes<T>(s: Seq<T>, i: int, j: int)
    requires
        0 <= i < s.len(),
        0 <= j < s.len(),
    ensures
        swapped(s, i, j).len() == s.len(),
        swapped(s, i, j).to_multiset() == s.to_multiset(),
{
    broadcast use group_to_multiset_ensures;

    let mid = s.update(i, s[j]);
    to_multiset_update(s, i, s[j]);
    to_multiset_update(mid, j, s[i]);
    assert(mid[j] == s[j]);
    assert(s.to_multiset().count(s[i]) > 0);
    assert(swapped(s, i, j).to_multiset() =~= s.to_multiset());
}

/// The upward walk keeps the length and the contents.
pub proof fn lemma_sift_up_permutes<T>(s: Seq<Item<T>>, k: int)
    ensures
        sift_up(s, k).len() == s.len(),
        sift_up(s, k).to_multiset() == s.to_multiset(),
    decreases k,
{
    if 0 < k < s.len() && s[parent(k)].weight > s[k].weight {
        lemma_swapped_permutes(s, k, parent(k));
        lemma_sift_up_permutes(swapped(s, k, parent(k)), parent(k));
    }
}

/// The upward walk from `k` restores heap order when `k` is the only
/// position that may be lighter than its parent.
pub proof fn lemma_sift_up_restores<T>(s: Seq<Item<T>>, k: int)
    requires
        0 <= k < s.len(),
        heap_except_above(s, k),
    ensures
        is_min_heap(sift_up(s, k)),
    decreases k,
{
    if 0 < k && s[parent(k)].weight > s[k].weight {
        let p = parent(k);
        let t = swapped(s, k, p);
        assert(heap_except_above(t, p)) by {
            assert forall|i: int, j: int|
                0 <= i < j < t.len() && i == parent(j) && j != p implies (#[trigger] t[i]).weight <= (
            #[trigger] t[j]).weight by {
                assert(s[i].weight <= s[j].weight || j == k || i == k || i == p);
                if i == k {
                    assert(s[p].weight <= s[j].weight);
                }
                if i == p && j != k {
                    assert(s[p].weight <= s[j].weight);
                }
            }
            assert forall|c: int| 0 < p < c < t.len() && parent(c) == p implies t[parent(p)].weight <= (
            #[trigger] t[c]).weight by {
                assert(s[parent(p)].weight <= s[p].weight);
                if c != k {
                    assert(s[p].weight <= s[c].weight);
                }
            }
        }
        lemma_sift_up_restores(t, p);
    } else {
        assert forall|i: int, j: int| 0 <= i < j < s.len() && i == parent(j) implies (
        #[trigger] s[i]).weight <= (#[trigger] s[j]).weight by {
            if j == k {
                assert(s[parent(k)].weight <= s[k].weight);
            }
        }
    }
}

/// The downward walk keeps the length and the contents.
pub proof fn lemma_sift_down_permutes<T>(s: Seq<Item<T>>, k: int)
    ensures
        sift_down(s, k).len() == s.len(),
        sift_down(s, k).to_multiset() == s.to_multiset(),
    decreases s.len() - k,
{
    let left = 2 * k + 1;
    let right = 2 * k + 2;
    if 0 <= k && right < s.len() && s[right].weight < s[k].weight && s[left].weight
        > s[right].weight {
        lemma_swapped_permutes(s, k, right);
        lemma_sift_down_permutes(swapped(s, k, right), right);
    } else if 0 <= k && left < s.len() && s[left].weight < s[k].weight {
        lemma_swapped_permutes(s, k, left);
        lemma_sift_down_permutes(swapped(s, k, left), left);
    }
}

/// The downward walk from `k` restores heap order when `k` is the only
/// position that may be heavier than a child.
pub proof fn lemma_sift_down_restores<T>(s: Seq<Item<T>>, k: int)
    requires
        0 <= k < s.len(),
        heap_except_below(s, k),
    ensures
        is_min_heap(sift_down(s, k)),
    decreases s.len() - k,
{
    let left = 2 * k + 1;
    let right = 2 * k + 2;
    if right < s.len() && s[right].weight < s[k].weight && s[left].weight > s[right].weight {
        lemma_swap_down_step(s, k, right);
        lemma_sift_down_restores(swapped(s, k, right), right);
    } else if left < s.len() && s[left].weight < s[k].weight {
        lemma_swap_down_step(s, k, left);
        lemma_sift_down_restores(swapped(s, k, left), left);
    } else {
        assert forall|i: int, j: int| 0 <= i < j < s.len() && i == parent(j) implies (
        #[trigger] s[i]).weight <= (#[trigger] s[j]).weight by {
            if i == k {
                assert(j == left || j == right);
                if j == right {
                    assert(s[left].weight <= s[right].weight || s[right].weight >= s[k].weight);
                }
            }
        }
    }
}

/// One step of the downward walk: after exchanging `k` with its lighter
/// child `c`, only `c` may be heavier than a child.
proof fn lemma_swap_down_step<T>(s: Seq<Item<T>>, k: int, c: int)
    requires
        0 <= k < c < s.len(),
        parent(c) == k,
        heap_except_below(s, k),
        s[c].weight < s[k].weight,
        forall|d: int|
            k < d < s.len() && parent(d) == k ==> s[c].weight <= (#[trigger] s[d]).weight,
    ensures
        heap_except_below(swapped(s, k, c), c),
{
    let t = swapped(s, k, c);
    assert forall|i: int, j: int|
        0 <= i < j < t.len() && i == parent(j) && i != c implies (#[trigger] t[i]).weight <= (
    #[trigger] t[j]).weight by {
        if i == k {
            assert(s[c].weight <= s[j].weight);
        } else if j == k {
            assert(s[parent(k)].weight <= s[c].weight);
        } else {
            assert(s[i].weight <= s[j].weight);
        }
    }
    assert forall|e: int| 0 < c < e < t.len() && parent(e) == c implies t[parent(c)].weight <= (
    #[trigger] t[e]).weight by {
        assert(s[c].weight <= s[e].weight);
    }
}

/// Heap order, position by position: no element of a min-heap but the root
/// is lighter than its parent.
pub proof fn lemma_parent_is_no_heavier<T>(s: Seq<Item<T>>, i: int)
    requires
        is_min_heap(s),
        0 < i < s.len(),
    ensures
        s[parent(i)].weight <= s[i].weight,
{
}

/// The root of a min-heap is no heavier than any other element.
pub proof fn lemma_root_is_lightest<T>(s: Seq<Item<T>>)
    requires
        is_min_heap(s),
    ensures
        forall|k: int| 0 <= k < s.len() ==> s[0].weight <= (#[trigger] s[k]).weight,
{
    assert forall|k: int| 0 <= k < s.len() implies s[0].weight <= (#[trigger] s[k]).weight by {
        lemma_root_le(s, k);
    }
}

proof fn lemma_root_le<T>(s: Seq<Item<T>>, k: int)
    requires
        is_min_heap(s),
        0 <= k < s.len(),
    ensures
        s[0].weight <= s[k].weight,
    decreases k,
{
    if k > 0 {
        lemma_root_le(s, parent(k));
        assert(s[parent(k)].weight <= s[k].weight);
    }
}

/// Extracting the root of a non-empty min-heap leaves a min-heap that holds
/// the other elements, and the exchange of root and last element followed by
/// the removal of the last is how `after_pop` starts.
pub proof fn lemma_after_pop<T>(s: Seq<Item<T>>)
    requires
        is_min_heap(s),
        s.len() > 0,
    ensures
        is_min_heap(after_pop(s)),
        after_pop(s).len() == s.len() - 1,
        after_pop(s).to_multiset() == s.to_multiset().remove(s[0]),
        s.len() > 1 ==> swapped(s, 0, s.len() - 1).drop_last() == s.drop_last().update(0, s.last()),
        swapped(s, 0, s.len() - 1).last() == s[0],
        s.len() == 1 ==> s.drop_last() == after_pop(s),
{
    broadcast use group_to_multiset_ensures;

    let n = s.len() as int;
    let moved = swapped(s, 0, n - 1);
    lemma_swapped_permutes(s, 0, n - 1);
    let rest = moved.drop_last();
    assert(rest =~= moved.remove(n - 1));
    assert(rest.to_multiset() == s.to_multiset().remove(s[0]));
    if n == 1 {
        assert(rest =~= Seq::<Item<T>>::empty());
        assert(s.drop_last() =~= rest);
    } else {
        assert(rest =~= s.drop_last().update(0, s.last()));
        assert(heap_except_below(rest, 0)) by {
            assert forall|i: int, j: int|
                0 <= i < j < rest.len() && i == parent(j) && i != 0 implies (#[trigger] rest[i]).weight
                <= (#[trigger] rest[j]).weight by {
                assert(s[i].weight <= s[j].weight);
            }
        }
        lemma_sift_down_restores(rest, 0);
        lemma_sift_down_permutes(rest, 0);
    }
}

/// Running the upward walk from each position of `from..to` in turn turns a
/// sequence whose first `from` elements are heap-ordered into a min-heap with
/// the same contents, provided `to` is its length.
pub proof fn lemma_sift_up_range<T>(s: Seq<Item<T>>, from: int, to: int)
    requires
        0 <= from <= to == s.len(),
        is_min_heap(s.subrange(0, from)),
    ensures
        is_min_heap(sift_up_range(s, from, to)),
        sift_up_range(s, from, to).len() == s.len(),
        sift_up_range(s, from, to).to_multiset() == s.to_multiset(),
    decreases to - from,
{
    if from < to {
        let t = sift_up(s, from);
        lemma_sift_up_permutes(s, from);
        lemma_sift_up_prefix(s, from);
        lemma_sift_up_range(t, from + 1, to);
    } else {
        assert(s.subrange(0, from) =~= s);
    }
}

/// The upward walk from `k` touches only the first `k + 1` positions, and
/// leaves them heap-ordered when the first `k` were.
pub proof fn lemma_sift_up_prefix<T>(s: Seq<Item<T>>, k: int)
    requires
        0 <= k < s.len(),
        is_min_heap(s.subrange(0, k)),
    ensures
        is_min_heap(sift_up(s, k).subrange(0, k + 1)),
        sift_up(s, k).len() == s.len(),
{
    let head = s.subrange(0, k + 1);
    let tail = s.subrange(k + 1, s.len() as int);
    assert(s =~= head + tail);
    lemma_sift_up_ignores_tail(head, tail, k);
    assert(heap_except_above(head, k)) by {
        assert forall|i: int, j: int|
            0 <= i < j < head.len() && i == parent(j) && j != k implies (#[trigger] head[i]).weight <= (
        #[trigger] head[j]).weight by {
            assert(s.subrange(0, k)[i].weight <= s.subrange(0, k)[j].weight);
        }
    }
    lemma_sift_up_restores(head, k);
    lemma_sift_up_permutes(head, k);
    lemma_sift_up_permutes(s, k);
    assert(sift_up(s, k).subrange(0, k + 1) =~= sift_up(head, k));
}

/// The upward walk from a position of `head` does the same on `head + tail`
/// as on `head` alone.
pub proof fn lemma_sift_up_ignores_tail<T>(head: Seq<Item<T>>, tail: Seq<Item<T>>, k: int)
    requires
        0 <= k < head.len(),
    ensures
        sift_up(head + tail, k) == sift_up(head, k) + tail,
    decreases k,
{
    let s = head + tail;
    if 0 < k && s[parent(k)].weight > s[k].weight {
        let p = parent(k);
        assert(swapped(s, k, p) =~= swapped(head, k, p) + tail);
        lemma_sift_up_ignores_tail(swapped(head, k, p), tail, p);
    }
}


/// The items of a heap in the order in which extracting the root again and
/// again, until the heap is empty, returns them.
pub open spec fn pop_order<T>(s: Seq<Item<T>>) -> Seq<Item<T>>
    decreases s.len(),
    via pop_order_terminates::<T>
{
    if s.len() == 0 {
        Seq::empty()
    } else {
        seq![s[0]] + pop_order(after_pop(s))
    }
}

#[via_fn]
proof fn pop_order_terminates<T>(s: Seq<Item<T>>) {
    if s.len() > 1 {
        lemma_sift_down_permutes(s.drop_last().update(0, s.last()), 0);
    }
}

/// Absorbing one min-heap into another gives a min-heap that holds the
/// items of both.
pub proof fn lemma_melded<T>(ours: Seq<Item<T>>, theirs: Seq<Item<T>>)
    requires
        is_min_heap(ours),
    ensures
        is_min_heap(melded(ours, theirs)),
        melded(ours, theirs).len() == ours.len() + theirs.len(),
        melded(ours, theirs).to_multiset() == ours.to_multiset().add(theirs.to_multiset()),
{
    let joined = ours + theirs;
    assert(joined.subrange(0, ours.len() as int) =~= ours);
    lemma_multiset_commutative(ours, theirs);
    lemma_sift_up_range(joined, ours.len() as int, joined.len() as int);
}

/// Sorted extraction: extracting the root of a min-heap again and again
/// returns every item of the heap once, in ascending order of weight.
pub proof fn lemma_pop_order<T>(s: Seq<Item<T>>)
    requires
        is_min_heap(s),
    ensures
        pop_order(s).len() == s.len(),
        pop_order(s).to_multiset() == s.to_multiset(),
        is_ascending(weights(pop_order(s))),
    decreases s.len(),
{
    broadcast use group_to_multiset_ensures;

    if s.len() == 0 {
        assert(pop_order(s).to_multiset() =~= s.to_multiset());
    } else {
        let rest = after_pop(s);
        let later = pop_order(rest);
        lemma_after_pop(s);
        lemma_pop_order(rest);
        lemma_root_is_lightest(s);
        let all = pop_order(s);
        assert(all =~= seq![s[0]] + later);
        lemma_multiset_commutative(seq![s[0]], later);
        assert(seq![s[0]] =~= Seq::<Item<T>>::empty().push(s[0]));
        assert(seq![s[0]].to_multiset() =~= Multiset::empty().insert(s[0]));
        assert(s.to_multiset().count(s[0]) > 0);
        assert(all.to_multiset() =~= s.to_multiset());
        assert forall|i: int, j: int| 0 <= i <= j < all.len() implies weights(all)[i] <= weights(
            all,
        )[j] by {
            if i == 0 && j > 0 {
                let x = later[j - 1];
                assert(all[j] == x);
                assert(later.to_multiset().count(x) > 0);
                assert(s.to_multiset().count(x) > 0);
                let k = choose|k: int| 0 <= k < s.len() && s[k] == x;
                assert(s[0].weight <= s[k].weight);
            } else if i > 0 {
                assert(all[i] == later[i - 1]);
                assert(all[j] == later[j - 1]);
                assert(weights(later)[i - 1] <= weights(later)[j - 1]);
            }
        }
    }
}

/// Two min-heaps with the same items return, extracted to the end, the same
/// weights in the same order, however the items lie in their arrays; and the
/// same items in the same order where no two items have the same weight.
pub proof fn lemma_pop_order_of_same_items<T>(s: Seq<Item<T>>, t: Seq<Item<T>>)
    requires
        is_min_heap(s),
        is_min_heap(t),
        s.to_multiset() == t.to_multiset(),
    ensures
        weights(pop_order(s)) == weights(pop_order(t)),
        weights_differ(s.to_multiset()) ==> pop_order(s) == pop_order(t),
{
    lemma_pop_order(s);
    lemma_pop_order(t);
    lemma_weights_of_rearrangement(pop_order(s), pop_order(t));
    lemma_ascending_unique(weights(pop_order(s)), weights(pop_order(t)));
    if weights_differ(s.to_multiset()) {
        lemma_one_ascending_order(pop_order(s), pop_order(t));
    }
}

/// Melding is symmetric in what it holds: whichever of two min-heaps absorbs
/// the other, the result holds the same items and returns, extracted to the
/// end, the same weights in the same order; and the same items in the same
/// order where no two items have the same weight.
pub proof fn lemma_meld_either_way<T>(a: Seq<Item<T>>, b: Seq<Item<T>>)
    requires
        is_min_heap(a),
        is_min_heap(b),
    ensures
        melded(a, b).to_multiset() == melded(b, a).to_multiset(),
        weights(pop_order(melded(a, b))) == weights(pop_order(melded(b, a))),
        weights_differ(a.to_multiset().add(b.to_multiset())) ==> pop_order(melded(a, b))
            == pop_order(melded(b, a)),
{
    lemma_melded(a, b);
    lemma_melded(b, a);
    assert(a.to_multiset().add(b.to_multiset()) =~= b.to_multiset().add(a.to_multiset()));
    lemma_pop_order_of_same_items(melded(a, b), melded(b, a));
}

/// An item that is strictly lighter than every other item of a min-heap is
/// at the root, so it is the next to be extracted.
pub proof fn lemma_lightest_is_root<T>(s: Seq<Item<T>>, k: int)
    requires
        is_min_heap(s),
        0 <= k < s.len(),
        forall|j: int| 0 <= j < s.len() && j != k ==> s[k].weight < (#[trigger] s[j]).weight,
    ensures
        k == 0,
{
    lemma_root_is_lightest(s);
    if k != 0 {
        assert(s[k].weight < s[0].weight);
        assert(s[0].weight <= s[k].weight);
    }
}

/// Changing the weight at one position of a min-heap breaks heap order at
/// most between that position and its parent when the weight drops, and at
/// most between that position and its children when it does not.
pub proof fn lemma_changed_weight<T>(s: Seq<Item<T>>, at: int, new_weight: i64)
    requires
        is_min_heap(s),
        0 <= at < s.len(),
    ensures
        new_weight < s[at].weight ==> heap_except_above(
            s.update(at, (Item { value: s[at].value, weight: new_weight })),
            at,
        ),
        new_weight >= s[at].weight ==> heap_except_below(
            s.update(at, (Item { value: s[at].value, weight: new_weight })),
            at,
        ),
{
    let t = s.update(at, Item { value: s[at].value, weight: new_weight });
    if new_weight < s[at].weight {
        assert forall|i: int, j: int|
            0 <= i < j < t.len() && i == parent(j) && j != at implies (#[trigger] t[i]).weight <= (
        #[trigger] t[j]).weight by {
            assert(s[i].weight <= s[j].weight);
        }
    } else {
        assert forall|i: int, j: int|
            0 <= i < j < t.len() && i == parent(j) && i != at implies (#[trigger] t[i]).weight <= (
        #[trigger] t[j]).weight by {
            assert(s[i].weight <= s[j].weight);
        }
    }
    assert forall|c: int| 0 < at < c < t.len() && parent(c) == at implies t[parent(at)].weight <= (
    #[trigger] t[c]).weight by {
        assert(s[parent(at)].weight <= s[at].weight);
        assert(s[at].weight <= s[c].weight);
    }
}

/// Giving the element at one position of a min-heap a new weight leaves a
/// min-heap that holds the changed item in place of the old one.
pub proof fn lemma_after_update<T>(s: Seq<Item<T>>, at: int, new_weight: i64)
    requires
        is_min_heap(s),
        0 <= at < s.len(),
    ensures
        is_min_heap(after_update(s, at, new_weight)),
        after_update(s, at, new_weight).len() == s.len(),
        after_update(s, at, new_weight).to_multiset() == s.to_multiset().remove(s[at]).insert(
            (Item { value: s[at].value, weight: new_weight }),
        ),
{
    broadcast use group_to_multiset_ensures;

    let changed = s.update(at, Item { value: s[at].value, weight: new_weight });
    to_multiset_update(s, at, Item { value: s[at].value, weight: new_weight });
    lemma_changed_weight(s, at, new_weight);
    if new_weight < s[at].weight {
        lemma_sift_up_permutes(changed, at);
        lemma_sift_up_restores(changed, at);
    } else {
        lemma_sift_down_permutes(changed, at);
        lemma_sift_down_restores(changed, at);
    }
}

/// Decrease-key: an element that is given a weight strictly below the
/// weights of all other elements becomes the root, so it is the next to be
/// extracted.
pub proof fn lemma_lowest_update_is_root<T>(s: Seq<Item<T>>, at: int, new_weight: i64)
    requires
        is_min_heap(s),
        0 <= at < s.len(),
        forall|j: int| 0 <= j < s.len() && j != at ==> new_weight < (#[trigger] s[j]).weight,
    ensures
        after_update(s, at, new_weight)[0] == (Item { value: s[at].value, weight: new_weight }),
{
    broadcast use group_to_multiset_ensures;

    let lowered = Item { value: s[at].value, weight: new_weight };
    let changed = s.update(at, lowered);
    let after = after_update(s, at, new_weight);
    if new_weight < s[at].weight {
        lemma_sift_up_permutes(changed, at);
    } else {
        lemma_sift_down_permutes(changed, at);
    }
    lemma_after_update(s, at, new_weight);
    lemma_root_is_lightest(after);
    assert(changed[at] == lowered);
    assert(changed.to_multiset().count(lowered) > 0);
    assert(after.contains(lowered));
    let k = choose|k: int| 0 <= k < after.len() && after[k] == lowered;
    assert(after[0].weight <= after[k].weight);
    assert(after.to_multiset().count(after[0]) > 0);
    assert(changed.contains(after[0]));
    let i = choose|i: int| 0 <= i < changed.len() && changed[i] == after[0];
    if i != at {
        assert(changed[i] == s[i]);
        assert(new_weight < s[i].weight);
    }
}

} // verus!
