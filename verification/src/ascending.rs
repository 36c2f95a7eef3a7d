//! Sequences of weights in ascending order, and what a rearrangement of
//! items does to their weights.

use crate::binary_heap::Item;
use vstd::multiset::Multiset;
use vstd::prelude::*;
use vstd::relations::{sorted_by, total_ordering};
use vstd::seq_lib::*;

verus! {

/// The weights of the items of `s`, in the order of `s`.
pub open spec fn weights<T>(s: Seq<Item<T>>) -> Seq<int> {
    s.map_values(|item: Item<T>| item.weight as int)
}

/// No element is greater than a later one.
pub open spec fn is_ascending(w: Seq<int>) -> bool {
    forall|i: int, j: int| 0 <= i <= j < w.len() ==> w[i] <= w[j]
}

/// Two sequences with the same items, in whatever order, have the same
/// weights, in whatever order.
pub proof fn lemma_weights_of_rearrangement<T>(s: Seq<Item<T>>, t: Seq<Item<T>>)
    requires
        s.to_multiset() == t.to_multiset(),
    ensures
        weights(s).to_multiset() == weights(t).to_multiset(),
    decreases s.len(),
{
    broadcast use group_to_multiset_ensures;

    if s.len() == 0 {
        assert(s.to_multiset().len() == s.len());
        assert(t.to_multiset().len() == t.len());
        assert(weights(s) =~= weights(t));
    } else {
        let x = s.last();
        let front = s.drop_last();
        assert(s =~= front.push(x));
        assert(t.to_multiset().count(x) > 0);
        let k = choose|k: int| 0 <= k < t.len() && t[k] == x;
        let rest = t.remove(k);
        assert(front.to_multiset() =~= rest.to_multiset());
        lemma_weights_of_rearrangement(front, rest);
        assert(weights(s) =~= weights(front).push(x.weight as int));
        assert(weights(rest) =~= weights(t).remove(k));
        assert(weights(t)[k] == x.weight);
        assert(weights(t).to_multiset().count(x.weight as int) > 0);
        assert(weights(t).to_multiset() =~= weights(rest).to_multiset().insert(x.weight as int));
    }
}

/// Every item of `m` is in `m` once, and no other item of `m` has its weight.
pub open spec fn weights_differ<T>(m: Multiset<Item<T>>) -> bool {
    &&& forall|x: Item<T>| m.count(x) <= 1
    &&& forall|x: Item<T>, y: Item<T>|
        m.count(x) > 0 && m.count(y) > 0 && x.weight == y.weight ==> x == y
}

/// Items whose weights all differ have one ascending order only.
pub proof fn lemma_one_ascending_order<T>(s: Seq<Item<T>>, t: Seq<Item<T>>)
    requires
        s.to_multiset() == t.to_multiset(),
        weights_differ(s.to_multiset()),
        is_ascending(weights(s)),
        is_ascending(weights(t)),
    ensures
        s == t,
{
    broadcast use group_to_multiset_ensures;

    lemma_weights_of_rearrangement(s, t);
    lemma_ascending_unique(weights(s), weights(t));
    t.lemma_multiset_has_no_duplicates_conv();
    assert(s.len() == weights(s).len());
    assert(t.len() == weights(t).len());
    assert forall|i: int| 0 <= i < s.len() implies s[i] == t[i] by {
        assert(s.to_multiset().count(s[i]) > 0);
        let j = choose|j: int| 0 <= j < t.len() && t[j] == s[i];
        assert(t[j].weight == weights(s)[i]);
        assert(t[i].weight == weights(t)[i]);
        assert(t.to_multiset().count(t[i]) > 0);
        assert(t[i] == t[j]);
    }
    assert(s =~= t);
}

/// Two ascending sequences with the same elements are the same sequence.
pub proof fn lemma_ascending_unique(v: Seq<int>, w: Seq<int>)
    requires
        is_ascending(v),
        is_ascending(w),
        v.to_multiset() == w.to_multiset(),
    ensures
        v == w,
{
    let leq = |a: int, b: int| a <= b;
    assert(sorted_by(v, leq));
    assert(sorted_by(w, leq));
    assert(total_ordering(leq));
    lemma_sorted_unique(v, w, leq);
}

} // verus!
