//! The mathematical model of a binomial heap: trees, forests, the joining of
//! two equal-height trees, and the carry-propagating merge of two forests,
//! with the facts the executable heap relies on.

use crate::ascending::{
    is_ascending, lemma_ascending_unique, lemma_one_ascending_order,
    lemma_weights_of_rearrangement, weights, weights_differ,
};
use crate::binary_heap::Item;
use vstd::arithmetic::div_mod::{
    lemma_basic_div, lemma_fundamental_div_mod_converse, lemma_hoist_over_denominator,
};
use vstd::arithmetic::power2::{
    lemma_pow2_adds, lemma_pow2_pos, lemma_pow2_strictly_increases, lemma_pow2_unfold, pow2,
};
use vstd::multiset::Multiset;
use vstd::prelude::*;
use vstd::seq_lib::*;

verus! {

/// A tree of a binomial heap: the item at its root and its subtrees.
pub struct Tree<T> {
    pub item: Item<T>,
    pub height: nat,
    pub children: Seq<Tree<T>>,
}

/// A tree of height `h` has `h` children, of heights `0, 1, ..., h - 1` from
/// front to back, each a binomial tree whose root is no lighter than this
/// tree's root.
pub open spec fn is_binomial_tree<T>(t: Tree<T>) -> bool
    decreases t,
{
    &&& t.children.len() == t.height
    &&& forall|i: int|
        0 <= i < t.children.len() ==> {
            &&& (#[trigger] t.children[i]).height == i
            &&& t.item.weight <= t.children[i].item.weight
            &&& is_binomial_tree(t.children[i])
        }
}

/// Heights strictly increase along the sequence.
pub open spec fn heights_increase<T>(f: Seq<Tree<T>>) -> bool {
    forall|i: int, j: int|
        0 <= i < j < f.len() ==> (#[trigger] f[i]).height < (#[trigger] f[j]).height
}

/// A sequence of binomial trees whose heights strictly increase.
pub open spec fn is_binomial_forest<T>(f: Seq<Tree<T>>) -> bool {
    &&& forall|i: int| 0 <= i < f.len() ==> is_binomial_tree(#[trigger] f[i])
    &&& heights_increase(f)
}

/// The items held by a tree.
pub open spec fn tree_items<T>(t: Tree<T>) -> Multiset<Item<T>>
    decreases t,
{
    forest_items(t.children).insert(t.item)
}

/// The items held by the trees of a sequence.
pub open spec fn forest_items<T>(f: Seq<Tree<T>>) -> Multiset<Item<T>>
    decreases f,
{
    if f.len() == 0 {
        Multiset::empty()
    } else {
        forest_items(f.drop_last()).add(tree_items(f.last()))
    }
}

/// The sum of `2^height` over the trees of a sequence.
pub open spec fn forest_count<T>(f: Seq<Tree<T>>) -> nat
    decreases f.len(),
{
    if f.len() == 0 {
        0
    } else {
        forest_count(f.drop_last()) + pow2(f.last().height)
    }
}

/// The tree that holds `item` alone.
pub open spec fn leaf<T>(item: Item<T>) -> Tree<T> {
    Tree { item, height: 0, children: Seq::empty() }
}

/// Joins two trees of equal height into one of the next height: the root
/// that weighs strictly less becomes the parent and the other tree its new
/// last child; on equal weights `left` becomes the parent.
pub open spec fn link<T>(left: Tree<T>, right: Tree<T>) -> Tree<T> {
    if right.item.weight < left.item.weight {
        Tree { item: right.item, height: right.height + 1, children: right.children.push(left) }
    } else {
        Tree { item: left.item, height: left.height + 1, children: left.children.push(right) }
    }
}

/// Merges two forests the way binary addition merges two bit strings, from
/// the lowest height up, with `carry` the tree pending from the step before.
///
/// With no carry pending, a forest that is left alone is passed through
/// whole. Otherwise, two fronts of equal height are joined into the next
/// carry and a pending carry is emitted; else the lower front is detached and
/// either emitted (after a pending carry of lower height) or joined with a
/// pending carry of its own height into the next carry.
pub open spec fn merge_forests<T>(
    a: Seq<Tree<T>>,
    b: Seq<Tree<T>>,
    carry: Option<Tree<T>>,
) -> Seq<Tree<T>>
    decreases a.len() + b.len(),
{
    if a.len() == 0 && b.len() == 0 {
        match carry {
            Some(c) => seq![c],
            None => Seq::empty(),
        }
    } else if carry is None && a.len() == 0 {
        b
    } else if carry is None && b.len() == 0 {
        a
    } else if a.len() > 0 && b.len() > 0 && a[0].height == b[0].height {
        let joined = Some(link(a[0], b[0]));
        match carry {
            Some(c) => seq![c] + merge_forests(a.drop_first(), b.drop_first(), joined),
            None => merge_forests(a.drop_first(), b.drop_first(), joined),
        }
    } else {
        let from_a = b.len() == 0 || (a.len() > 0 && a[0].height < b[0].height);
        let current = if from_a {
            a[0]
        } else {
            b[0]
        };
        let rest_a = if from_a {
            a.drop_first()
        } else {
            a
        };
        let rest_b = if from_a {
            b
        } else {
            b.drop_first()
        };
        match carry {
            Some(c) => if c.height < current.height {
                seq![c, current] + merge_forests(rest_a, rest_b, None)
            } else {
                merge_forests(rest_a, rest_b, Some(link(current, c)))
            },
            None => seq![current] + merge_forests(rest_a, rest_b, None),
        }
    }
}

/// The items of a pending carry.
pub open spec fn carry_items<T>(carry: Option<Tree<T>>) -> Multiset<Item<T>> {
    match carry {
        Some(c) => tree_items(c),
        None => Multiset::empty(),
    }
}

/// The size of a pending carry.
pub open spec fn carry_count<T>(carry: Option<Tree<T>>) -> nat {
    match carry {
        Some(c) => pow2(c.height),
        None => 0,
    }
}

/// Every tree of `f` has height at least `lo`.
pub open spec fn heights_at_least<T>(f: Seq<Tree<T>>, lo: nat) -> bool {
    forall|i: int| 0 <= i < f.len() ==> (#[trigger] f[i]).height >= lo
}

/// A pending carry is a binomial tree no higher than any tree still to be
/// merged, and at least `lo` high.
pub open spec fn carry_fits<T>(
    carry: Option<Tree<T>>,
    a: Seq<Tree<T>>,
    b: Seq<Tree<T>>,
    lo: nat,
) -> bool {
    carry matches Some(c) ==> {
        &&& is_binomial_tree(c)
        &&& c.height >= lo
        &&& heights_at_least(a, c.height)
        &&& heights_at_least(b, c.height)
    }
}

/// Joining two binomial trees of equal height gives a binomial tree of the
/// next height that holds the items of both.
pub proof fn lemma_link<T>(left: Tree<T>, right: Tree<T>)
    requires
        is_binomial_tree(left),
        is_binomial_tree(right),
        left.height == right.height,
    ensures
        is_binomial_tree(link(left, right)),
        link(left, right).height == left.height + 1,
        tree_items(link(left, right)) == tree_items(left).add(tree_items(right)),
        pow2(link(left, right).height) == pow2(left.height) + pow2(right.height),
{
    let joined = link(left, right);
    lemma_pow2_unfold(joined.height);
    if right.item.weight < left.item.weight {
        assert(right.children.push(left).drop_last() =~= right.children);
        assert(tree_items(joined) =~= tree_items(left).add(tree_items(right)));
    } else {
        assert(left.children.push(right).drop_last() =~= left.children);
        assert(tree_items(joined) =~= tree_items(left).add(tree_items(right)));
    }
}

/// Items and size of a concatenation are the sums of those of its parts.
pub proof fn lemma_forest_concat<T>(f: Seq<Tree<T>>, g: Seq<Tree<T>>)
    ensures
        forest_items(f + g) == forest_items(f).add(forest_items(g)),
        forest_count(f + g) == forest_count(f) + forest_count(g),
    decreases g.len(),
{
    if g.len() == 0 {
        assert(f + g =~= f);
        assert(forest_items(f + g) =~= forest_items(f).add(forest_items(g)));
    } else {
        assert((f + g).drop_last() =~= f + g.drop_last());
        lemma_forest_concat(f, g.drop_last());
        assert(forest_items(f + g) =~= forest_items(f).add(forest_items(g)));
    }
}

/// Items and size of a one-tree forest are those of the tree.
pub proof fn lemma_forest_single<T>(t: Tree<T>)
    ensures
        forest_items(seq![t]) == tree_items(t),
        forest_count(seq![t]) == pow2(t.height),
{
    let none = Seq::<Tree<T>>::empty();
    assert(seq![t].drop_last() =~= none);
    assert(forest_items(none) =~= Multiset::empty());
    assert(forest_count(none) == 0);
    assert(forest_items(seq![t]) =~= tree_items(t));
}

/// Items and size of a non-empty forest split into its front tree and the
/// rest.
pub proof fn lemma_forest_front<T>(f: Seq<Tree<T>>)
    requires
        f.len() > 0,
    ensures
        forest_items(f) == tree_items(f[0]).add(forest_items(f.drop_first())),
        forest_count(f) == pow2(f[0].height) + forest_count(f.drop_first()),
{
    assert(f =~= seq![f[0]] + f.drop_first());
    lemma_forest_concat(seq![f[0]], f.drop_first());
    lemma_forest_single(f[0]);
}

/// What is left of a binomial forest without its front tree is a binomial
/// forest of trees higher than that front.
pub proof fn lemma_forest_rest<T>(f: Seq<Tree<T>>)
    requires
        is_binomial_forest(f),
        f.len() > 0,
    ensures
        is_binomial_forest(f.drop_first()),
        heights_at_least(f.drop_first(), f[0].height + 1),
{
    let rest = f.drop_first();
    assert forall|i: int| 0 <= i < rest.len() implies is_binomial_tree(#[trigger] rest[i]) by {
        assert(rest[i] == f[i + 1]);
    }
    assert forall|i: int, j: int| 0 <= i < j < rest.len() implies (#[trigger] rest[i]).height < (
    #[trigger] rest[j]).height by {
        assert(rest[i] == f[i + 1]);
        assert(rest[j] == f[j + 1]);
    }
    assert forall|i: int| 0 <= i < rest.len() implies (#[trigger] rest[i]).height >= f[0].height
        + 1 by {
        assert(rest[i] == f[i + 1]);
    }
}

/// What `lemma_merge_forests` shows of `merged`, the merge of `a` and `b`
/// with `carry` pending.
pub open spec fn merge_holds<T>(
    a: Seq<Tree<T>>,
    b: Seq<Tree<T>>,
    carry: Option<Tree<T>>,
    lo: nat,
    merged: Seq<Tree<T>>,
) -> bool {
    &&& is_binomial_forest(merged)
    &&& heights_at_least(merged, lo)
    &&& forest_items(merged) == forest_items(a).add(forest_items(b)).add(carry_items(carry))
    &&& forest_count(merged) == forest_count(a) + forest_count(b) + carry_count(carry)
}

/// Emitting the trees of `head`, in increasing order and all of heights from
/// `lo` up to but not including `mid`, before a binomial forest of trees at
/// least `mid` high gives a binomial forest of trees at least `lo` high.
proof fn lemma_emit<T>(head: Seq<Tree<T>>, tail: Seq<Tree<T>>, lo: nat, mid: nat)
    requires
        is_binomial_forest(head),
        is_binomial_forest(tail),
        forall|i: int| 0 <= i < head.len() ==> lo <= (#[trigger] head[i]).height < mid,
        heights_at_least(tail, mid),
        lo <= mid,
    ensures
        is_binomial_forest(head + tail),
        heights_at_least(head + tail, lo),
        forest_items(head + tail) == forest_items(head).add(forest_items(tail)),
        forest_count(head + tail) == forest_count(head) + forest_count(tail),
{
    let f = head + tail;
    lemma_forest_concat(head, tail);
    assert forall|i: int| 0 <= i < f.len() implies is_binomial_tree(#[trigger] f[i]) && f[i].height
        >= lo by {
        if i < head.len() {
            assert(f[i] == head[i]);
        } else {
            assert(f[i] == tail[i - head.len()]);
        }
    }
    assert forall|i: int, j: int| 0 <= i < j < f.len() implies (#[trigger] f[i]).height < (
    #[trigger] f[j]).height by {
        if i < head.len() {
            assert(f[i] == head[i]);
        } else {
            assert(f[i] == tail[i - head.len()]);
        }
        if j < head.len() {
            assert(f[j] == head[j]);
        } else {
            assert(f[j] == tail[j - head.len()]);
        }
    }
}

/// The merge step that joins two fronts of equal height.
proof fn lemma_merge_joined_fronts<T>(
    a: Seq<Tree<T>>,
    b: Seq<Tree<T>>,
    carry: Option<Tree<T>>,
    lo: nat,
    rest: Seq<Tree<T>>,
)
    requires
        is_binomial_forest(a),
        is_binomial_forest(b),
        heights_at_least(a, lo),
        heights_at_least(b, lo),
        carry_fits(carry, a, b, lo),
        a.len() > 0,
        b.len() > 0,
        a[0].height == b[0].height,
        merge_holds(
            a.drop_first(),
            b.drop_first(),
            Some(link(a[0], b[0])),
            a[0].height + 1,
            rest,
        ),
    ensures
        merge_holds(
            a,
            b,
            carry,
            lo,
            match carry {
                Some(c) => seq![c] + rest,
                None => rest,
            },
        ),
{
    let joined = link(a[0], b[0]);
    lemma_link(a[0], b[0]);
    lemma_forest_front(a);
    lemma_forest_front(b);
    assert(forest_items(rest) =~= forest_items(a).add(forest_items(b)));
    match carry {
        Some(c) => {
            lemma_forest_single(c);
            lemma_emit(seq![c], rest, lo, a[0].height + 1);
            assert(forest_items(seq![c] + rest) =~= forest_items(a).add(forest_items(b)).add(
                carry_items(carry),
            ));
        },
        None => {
            assert(forest_items(rest) =~= forest_items(a).add(forest_items(b)).add(
                carry_items(carry),
            ));
            assert(heights_at_least(rest, lo)) by {
                assert forall|i: int| 0 <= i < rest.len() implies (#[trigger] rest[i]).height
                    >= lo by {
                    assert(rest[i].height >= a[0].height + 1);
                }
            }
        },
    }
}

/// The merge step that detaches the lower front `current`, leaving `rest_a`
/// and `rest_b`, and emits it, after a pending carry of lower height.
proof fn lemma_merge_emitted_front<T>(
    a: Seq<Tree<T>>,
    b: Seq<Tree<T>>,
    carry: Option<Tree<T>>,
    lo: nat,
    current: Tree<T>,
    rest_a: Seq<Tree<T>>,
    rest_b: Seq<Tree<T>>,
    rest: Seq<Tree<T>>,
)
    requires
        is_binomial_tree(current),
        current.height >= lo,
        carry matches Some(c) ==> is_binomial_tree(c) && lo <= c.height < current.height,
        forest_items(a).add(forest_items(b)) == tree_items(current).add(forest_items(rest_a)).add(
            forest_items(rest_b),
        ),
        forest_count(a) + forest_count(b) == pow2(current.height) + forest_count(rest_a)
            + forest_count(rest_b),
        merge_holds(rest_a, rest_b, None, current.height + 1, rest),
    ensures
        merge_holds(
            a,
            b,
            carry,
            lo,
            match carry {
                Some(c) => seq![c, current] + rest,
                None => seq![current] + rest,
            },
        ),
{
    lemma_forest_single(current);
    match carry {
        Some(c) => {
            let head = seq![c, current];
            assert(head =~= seq![c] + seq![current]);
            lemma_forest_single(c);
            lemma_forest_concat(seq![c], seq![current]);
            lemma_emit(head, rest, lo, current.height + 1);
            assert(forest_items(head + rest) =~= forest_items(a).add(forest_items(b)).add(
                carry_items(carry),
            ));
        },
        None => {
            lemma_emit(seq![current], rest, lo, current.height + 1);
            assert(forest_items(seq![current] + rest) =~= forest_items(a).add(forest_items(b)).add(
                carry_items(carry),
            ));
        },
    }
}

/// The merge step that detaches the lower front `current`, leaving `rest_a`
/// and `rest_b`, and joins it with the pending carry `c` of its own height.
proof fn lemma_merge_joined_carry<T>(
    a: Seq<Tree<T>>,
    b: Seq<Tree<T>>,
    c: Tree<T>,
    lo: nat,
    current: Tree<T>,
    rest_a: Seq<Tree<T>>,
    rest_b: Seq<Tree<T>>,
    merged: Seq<Tree<T>>,
)
    requires
        is_binomial_tree(current),
        is_binomial_tree(c),
        lo <= c.height == current.height,
        forest_items(a).add(forest_items(b)) == tree_items(current).add(forest_items(rest_a)).add(
            forest_items(rest_b),
        ),
        forest_count(a) + forest_count(b) == pow2(current.height) + forest_count(rest_a)
            + forest_count(rest_b),
        merge_holds(rest_a, rest_b, Some(link(current, c)), current.height + 1, merged),
    ensures
        merge_holds(a, b, Some(c), lo, merged),
{
    lemma_link(current, c);
    assert(forest_items(merged) =~= forest_items(a).add(forest_items(b)).add(tree_items(c)));
    assert(heights_at_least(merged, lo)) by {
        assert forall|i: int| 0 <= i < merged.len() implies (#[trigger] merged[i]).height
            >= lo by {
            assert(merged[i].height >= current.height + 1);
        }
    }
}

/// Merging two binomial forests, with a fitting carry pending, gives a
/// binomial forest that holds the items of both and of the carry, and whose
/// trees are no lower than the lowest tree that went in.
pub proof fn lemma_merge_forests<T>(
    a: Seq<Tree<T>>,
    b: Seq<Tree<T>>,
    carry: Option<Tree<T>>,
    lo: nat,
)
    requires
        is_binomial_forest(a),
        is_binomial_forest(b),
        heights_at_least(a, lo),
        heights_at_least(b, lo),
        carry_fits(carry, a, b, lo),
    ensures
        merge_holds(a, b, carry, lo, merge_forests(a, b, carry)),
    decreases a.len() + b.len(),
{
    let merged = merge_forests(a, b, carry);
    let none = Seq::<Tree<T>>::empty();
    if a.len() == 0 && b.len() == 0 {
        assert(a =~= none && b =~= none);
        assert(forest_items(none) =~= Multiset::empty());
        assert(forest_count(none) == 0);
        match carry {
            Some(c) => {
                lemma_forest_single(c);
                assert(forest_items(merged) =~= forest_items(a).add(forest_items(b)).add(
                    carry_items(carry),
                ));
            },
            None => {
                assert(forest_items(merged) =~= forest_items(a).add(forest_items(b)).add(
                    carry_items(carry),
                ));
            },
        }
    } else if carry is None && a.len() == 0 {
        assert(forest_items(merged) =~= forest_items(a).add(forest_items(b)).add(
            carry_items(carry),
        ));
    } else if carry is None && b.len() == 0 {
        assert(forest_items(merged) =~= forest_items(a).add(forest_items(b)).add(
            carry_items(carry),
        ));
    } else if a.len() > 0 && b.len() > 0 && a[0].height == b[0].height {
        let joined = link(a[0], b[0]);
        lemma_link(a[0], b[0]);
        lemma_forest_rest(a);
        lemma_forest_rest(b);
        lemma_merge_forests(a.drop_first(), b.drop_first(), Some(joined), joined.height);
        lemma_merge_joined_fronts(
            a,
            b,
            carry,
            lo,
            merge_forests(a.drop_first(), b.drop_first(), Some(joined)),
        );
    } else {
        let from_a = b.len() == 0 || (a.len() > 0 && a[0].height < b[0].height);
        let current = if from_a {
            a[0]
        } else {
            b[0]
        };
        let rest_a = if from_a {
            a.drop_first()
        } else {
            a
        };
        let rest_b = if from_a {
            b
        } else {
            b.drop_first()
        };
        if from_a {
            lemma_forest_rest(a);
            lemma_forest_front(a);
            assert forall|i: int| 0 <= i < b.len() implies (#[trigger] b[i]).height
                >= current.height + 1 by {
                if i > 0 {
                    assert(b[0].height < b[i].height);
                }
            }
        } else {
            lemma_forest_rest(b);
            lemma_forest_front(b);
            assert forall|i: int| 0 <= i < a.len() implies (#[trigger] a[i]).height
                >= current.height + 1 by {
                if i > 0 {
                    assert(a[0].height < a[i].height);
                }
            }
        }
        assert(forest_items(a).add(forest_items(b)) =~= tree_items(current).add(
            forest_items(rest_a),
        ).add(forest_items(rest_b)));
        if carry is Some && carry->0.height >= current.height {
            let c = carry->0;
            let joined = link(current, c);
            lemma_link(current, c);
            lemma_merge_forests(rest_a, rest_b, Some(joined), joined.height);
            lemma_merge_joined_carry(a, b, c, lo, current, rest_a, rest_b, merged);
        } else {
            lemma_merge_forests(rest_a, rest_b, None, current.height + 1);
            lemma_merge_emitted_front(
                a,
                b,
                carry,
                lo,
                current,
                rest_a,
                rest_b,
                merge_forests(rest_a, rest_b, None),
            );
        }
    }
}

/// Merging two binomial forests gives a binomial forest that holds the items
/// of both.
pub proof fn lemma_merged<T>(a: Seq<Tree<T>>, b: Seq<Tree<T>>)
    requires
        is_binomial_forest(a),
        is_binomial_forest(b),
    ensures
        is_binomial_forest(merge_forests(a, b, None)),
        forest_items(merge_forests(a, b, None)) == forest_items(a).add(forest_items(b)),
        forest_count(merge_forests(a, b, None)) == forest_count(a) + forest_count(b),
{
    assert(heights_at_least(a, 0));
    assert(heights_at_least(b, 0));
    lemma_merge_forests(a, b, None, 0);
    assert(forest_items(a).add(forest_items(b)).add(Multiset::empty()) =~= forest_items(a).add(
        forest_items(b),
    ));
}

/// Position of the first root of least weight in a non-empty sequence: the
/// result of a scan from the front that keeps the earlier root on ties.
pub open spec fn first_lightest<T>(f: Seq<Tree<T>>) -> int
    decreases f.len(),
{
    if f.len() <= 1 {
        0
    } else {
        let k = first_lightest(f.drop_last());
        if f[k].item.weight <= f.last().item.weight {
            k
        } else {
            f.len() - 1
        }
    }
}

/// What remains of a non-empty forest once its first lightest root is
/// extracted: that tree leaves the forest and its children are merged back.
pub open spec fn forest_after_pop<T>(f: Seq<Tree<T>>) -> Seq<Tree<T>> {
    let k = first_lightest(f);
    merge_forests(f.remove(k), f[k].children, None)
}

/// Every item of `m` weighs at least `w`.
pub open spec fn all_at_least<T>(m: Multiset<Item<T>>, w: int) -> bool {
    forall|x: Item<T>| m.count(x) > 0 ==> w <= x.weight
}

/// The trees of `g` are binomial trees of heights `0, 1, ...` from the
/// front, as the children of one binomial tree are.
pub open spec fn are_children<T>(g: Seq<Tree<T>>) -> bool {
    forall|i: int| 0 <= i < g.len() ==> (#[trigger] g[i]).height == i && is_binomial_tree(g[i])
}

/// `first_lightest` names a root that no root is lighter than and that every
/// earlier root is strictly heavier than.
pub proof fn lemma_first_lightest<T>(f: Seq<Tree<T>>)
    requires
        f.len() > 0,
    ensures
        0 <= first_lightest(f) < f.len(),
        forall|j: int|
            0 <= j < f.len() ==> f[first_lightest(f)].item.weight <= (#[trigger] f[j]).item.weight,
        forall|j: int|
            0 <= j < first_lightest(f) ==> f[first_lightest(f)].item.weight < (
            #[trigger] f[j]).item.weight,
    decreases f.len(),
{
    if f.len() > 1 {
        let g = f.drop_last();
        lemma_first_lightest(g);
        let k = first_lightest(g);
        assert forall|j: int| 0 <= j < f.len() implies f[first_lightest(f)].item.weight <= (
        #[trigger] f[j]).item.weight by {
            if j < g.len() {
                assert(g[j] == f[j]);
            }
        }
        assert forall|j: int| 0 <= j < first_lightest(f) implies f[first_lightest(f)].item.weight < (
        #[trigger] f[j]).item.weight by {
            assert(g[j] == f[j]);
        }
    }
}

/// A binomial tree of height `h` holds `2^h` items, none lighter than its
/// root.
pub proof fn lemma_binomial_tree<T>(t: Tree<T>)
    requires
        is_binomial_tree(t),
    ensures
        tree_items(t).len() == pow2(t.height),
        all_at_least(tree_items(t), t.item.weight as int),
        are_children(t.children),
        forest_count(t.children) + 1 == pow2(t.height),
    decreases t,
{
    lemma_children(t.children, t.item.weight as int);
}

/// Binomial trees of heights `0, 1, ..., n - 1` with roots no lighter than
/// `w` hold `2^n - 1` items, none lighter than `w`.
pub proof fn lemma_children<T>(g: Seq<Tree<T>>, w: int)
    requires
        are_children(g),
        forall|i: int| 0 <= i < g.len() ==> w <= (#[trigger] g[i]).item.weight,
    ensures
        forest_items(g).len() + 1 == pow2(g.len()),
        forest_count(g) + 1 == pow2(g.len()),
        all_at_least(forest_items(g), w),
        is_binomial_forest(g),
    decreases g,
{
    if g.len() == 0 {
        lemma_pow2_unfold(1);
        vstd::arithmetic::power2::lemma2_to64();
    } else {
        let front = g.drop_last();
        let last = g.last();
        assert forall|i: int| 0 <= i < front.len() implies (#[trigger] front[i]).height == i
            && is_binomial_tree(front[i]) && w <= front[i].item.weight by {
            assert(front[i] == g[i]);
        }
        lemma_children(front, w);
        lemma_binomial_tree(last);
        lemma_pow2_unfold(g.len());
    }
}

/// A sequence of binomial trees holds as many items as the sum of `2^height`
/// over its trees, none lighter than the lightest root.
pub proof fn lemma_forest_items<T>(f: Seq<Tree<T>>, w: int)
    requires
        forall|i: int| 0 <= i < f.len() ==> is_binomial_tree(#[trigger] f[i]),
        forall|i: int| 0 <= i < f.len() ==> w <= (#[trigger] f[i]).item.weight,
    ensures
        forest_items(f).len() == forest_count(f),
        all_at_least(forest_items(f), w),
    decreases f.len(),
{
    if f.len() > 0 {
        let front = f.drop_last();
        assert forall|i: int| 0 <= i < front.len() implies is_binomial_tree(#[trigger] front[i])
            && w <= front[i].item.weight by {
            assert(front[i] == f[i]);
        }
        lemma_forest_items(front, w);
        lemma_binomial_tree(f.last());
    }
}

/// Taking the tree at position `k` out of a binomial forest leaves a
/// binomial forest, and splits items and size between that tree and the
/// rest.
pub proof fn lemma_forest_remove<T>(f: Seq<Tree<T>>, k: int)
    requires
        is_binomial_forest(f),
        0 <= k < f.len(),
    ensures
        is_binomial_forest(f.remove(k)),
        forest_items(f) == forest_items(f.remove(k)).add(tree_items(f[k])),
        forest_count(f) == forest_count(f.remove(k)) + pow2(f[k].height),
{
    let rest = f.remove(k);
    let before = f.subrange(0, k);
    let after = f.subrange(k + 1, f.len() as int);
    assert(f =~= before + seq![f[k]] + after);
    assert(rest =~= before + after);
    lemma_forest_concat(before, seq![f[k]]);
    lemma_forest_concat(before + seq![f[k]], after);
    lemma_forest_concat(before, after);
    lemma_forest_single(f[k]);
    assert(forest_items(f) =~= forest_items(rest).add(tree_items(f[k])));
    assert forall|i: int| 0 <= i < rest.len() implies is_binomial_tree(#[trigger] rest[i]) by {
        if i < k {
            assert(rest[i] == f[i]);
        } else {
            assert(rest[i] == f[i + 1]);
        }
    }
    assert forall|i: int, j: int| 0 <= i < j < rest.len() implies (#[trigger] rest[i]).height < (
    #[trigger] rest[j]).height by {
        let fi = if i < k { i } else { i + 1 };
        let fj = if j < k { j } else { j + 1 };
        assert(rest[i] == f[fi]);
        assert(rest[j] == f[fj]);
    }
}

/// Extracting the first lightest root of a non-empty binomial forest leaves
/// a binomial forest that holds the other items; the extracted item is no
/// heavier than any item of the forest.
pub proof fn lemma_forest_after_pop<T>(f: Seq<Tree<T>>)
    requires
        is_binomial_forest(f),
        f.len() > 0,
    ensures
        is_binomial_forest(forest_after_pop(f)),
        forest_items(f).count(f[first_lightest(f)].item) > 0,
        forest_items(forest_after_pop(f)) == forest_items(f).remove(f[first_lightest(f)].item),
        forest_count(forest_after_pop(f)) + 1 == forest_count(f),
        all_at_least(forest_items(f), f[first_lightest(f)].item.weight as int),
{
    let k = first_lightest(f);
    lemma_first_lightest(f);
    let top = f[k];
    lemma_forest_remove(f, k);
    lemma_binomial_tree(top);
    lemma_children(top.children, top.item.weight as int);
    lemma_merged(f.remove(k), top.children);
    lemma_forest_items(f, top.item.weight as int);
    assert(forest_items(forest_after_pop(f)) =~= forest_items(f).remove(top.item));
}

/// The items of a binomial forest in the order in which extracting the
/// first lightest root again and again, until the forest is empty, returns
/// them.
pub open spec fn forest_pop_order<T>(f: Seq<Tree<T>>) -> Seq<Item<T>>
    decreases forest_count(f),
    when is_binomial_forest(f)
    via forest_pop_order_terminates::<T>
{
    if f.len() == 0 {
        Seq::empty()
    } else {
        seq![f[first_lightest(f)].item] + forest_pop_order(forest_after_pop(f))
    }
}

#[via_fn]
proof fn forest_pop_order_terminates<T>(f: Seq<Tree<T>>) {
    if f.len() > 0 {
        lemma_forest_after_pop(f);
    }
}

/// Sorted extraction: extracting the first lightest root of a binomial
/// forest again and again returns every item of the forest once, in
/// ascending order of weight.
pub proof fn lemma_forest_pop_order<T>(f: Seq<Tree<T>>)
    requires
        is_binomial_forest(f),
    ensures
        forest_pop_order(f).len() == forest_count(f),
        forest_pop_order(f).to_multiset() == forest_items(f),
        is_ascending(weights(forest_pop_order(f))),
    decreases forest_count(f),
{
    broadcast use group_to_multiset_ensures;

    if f.len() == 0 {
        assert(forest_pop_order(f).to_multiset() =~= forest_items(f));
    } else {
        let top = f[first_lightest(f)].item;
        let rest = forest_after_pop(f);
        let later = forest_pop_order(rest);
        lemma_forest_after_pop(f);
        lemma_forest_pop_order(rest);
        let all = forest_pop_order(f);
        assert(all =~= seq![top] + later);
        lemma_multiset_commutative(seq![top], later);
        assert(seq![top] =~= Seq::<Item<T>>::empty().push(top));
        assert(seq![top].to_multiset() =~= Multiset::empty().insert(top));
        assert(all.to_multiset() =~= forest_items(f));
        assert forall|i: int, j: int| 0 <= i <= j < all.len() implies weights(all)[i] <= weights(
            all,
        )[j] by {
            if i == 0 && j > 0 {
                let x = later[j - 1];
                assert(all[j] == x);
                assert(later.to_multiset().count(x) > 0);
                assert(forest_items(f).count(x) > 0);
            } else if i > 0 {
                assert(all[i] == later[i - 1]);
                assert(all[j] == later[j - 1]);
                assert(weights(later)[i - 1] <= weights(later)[j - 1]);
            }
        }
    }
}

/// Melding is symmetric in what it holds: whichever of two binomial forests
/// absorbs the other, the result holds the same items and returns, extracted
/// to the end, the same weights in the same order; and the same items in the
/// same order where no two items have the same weight.
pub proof fn lemma_merge_either_way<T>(a: Seq<Tree<T>>, b: Seq<Tree<T>>)
    requires
        is_binomial_forest(a),
        is_binomial_forest(b),
    ensures
        forest_items(merge_forests(a, b, None)) == forest_items(merge_forests(b, a, None)),
        weights(forest_pop_order(merge_forests(a, b, None))) == weights(
            forest_pop_order(merge_forests(b, a, None)),
        ),
        weights_differ(forest_items(a).add(forest_items(b))) ==> forest_pop_order(
            merge_forests(a, b, None),
        ) == forest_pop_order(merge_forests(b, a, None)),
{
    let ab = merge_forests(a, b, None);
    let ba = merge_forests(b, a, None);
    lemma_merged(a, b);
    lemma_merged(b, a);
    assert(forest_items(ab) =~= forest_items(ba));
    lemma_forest_pop_order(ab);
    lemma_forest_pop_order(ba);
    lemma_weights_of_rearrangement(forest_pop_order(ab), forest_pop_order(ba));
    lemma_ascending_unique(weights(forest_pop_order(ab)), weights(forest_pop_order(ba)));
    if weights_differ(forest_items(a).add(forest_items(b))) {
        lemma_one_ascending_order(forest_pop_order(ab), forest_pop_order(ba));
    }
}

/// Whether bit `h` is set in the binary numeral of `n`.
pub open spec fn bit_is_set(n: nat, h: nat) -> bool {
    (n / pow2(h)) % 2 == 1
}

/// Whether some tree of `f` has height `h`.
pub open spec fn has_height<T>(f: Seq<Tree<T>>, h: nat) -> bool {
    exists|i: int| 0 <= i < f.len() && (#[trigger] f[i]).height == h
}

/// Trees of strictly increasing heights, all below `top`, count fewer than
/// `2^top` items.
pub proof fn lemma_count_below<T>(f: Seq<Tree<T>>, top: nat)
    requires
        heights_increase(f),
        forall|i: int| 0 <= i < f.len() ==> (#[trigger] f[i]).height < top,
    ensures
        forest_count(f) < pow2(top),
    decreases f.len(),
{
    if f.len() == 0 {
        lemma_pow2_pos(top);
    } else {
        let front = f.drop_last();
        let last = f.last().height;
        assert forall|i: int| 0 <= i < front.len() implies (#[trigger] front[i]).height < last by {
            assert(front[i] == f[i]);
        }
        assert(heights_increase(front)) by {
            assert forall|i: int, j: int| 0 <= i < j < front.len() implies (
            #[trigger] front[i]).height < (#[trigger] front[j]).height by {
                assert(front[i] == f[i]);
                assert(front[j] == f[j]);
            }
        }
        lemma_count_below(front, last);
        lemma_pow2_unfold(last + 1);
        if last + 1 < top {
            lemma_pow2_strictly_increases(last + 1, top);
        }
    }
}

/// The forest invariant in binary: in a forest of strictly increasing
/// heights that counts `n` items, a tree of height `h` is present exactly
/// when bit `h` of `n` is set.
pub proof fn lemma_heights_are_bits<T>(f: Seq<Tree<T>>, h: nat)
    requires
        heights_increase(f),
    ensures
        has_height(f, h) <==> bit_is_set(forest_count(f), h),
    decreases f.len(),
{
    lemma_pow2_pos(h);
    if f.len() == 0 {
        lemma_basic_div(0, pow2(h) as int);
    } else {
        let front = f.drop_last();
        let top = f.last().height;
        let below = forest_count(front);
        let n = forest_count(f);
        assert forall|i: int| 0 <= i < front.len() implies (#[trigger] front[i]).height < top by {
            assert(front[i] == f[i]);
        }
        assert(heights_increase(front)) by {
            assert forall|i: int, j: int| 0 <= i < j < front.len() implies (
            #[trigger] front[i]).height < (#[trigger] front[j]).height by {
                assert(front[i] == f[i]);
                assert(front[j] == f[j]);
            }
        }
        lemma_count_below(front, top);
        lemma_heights_are_bits(front, h);
        assert(has_height(front, h) ==> has_height(f, h)) by {
            if has_height(front, h) {
                let i = choose|i: int| 0 <= i < front.len() && (#[trigger] front[i]).height == h;
                assert(f[i].height == h);
            }
        }
        assert(has_height(f, h) && h != top ==> has_height(front, h)) by {
            if has_height(f, h) && h != top {
                let i = choose|i: int| 0 <= i < f.len() && (#[trigger] f[i]).height == h;
                assert(front[i].height == h);
            }
        }
        if h > top {
            lemma_pow2_unfold(top + 1);
            if top + 1 < h {
                lemma_pow2_strictly_increases(top + 1, h);
            }
            lemma_basic_div(n as int, pow2(h) as int);
            lemma_basic_div(below as int, pow2(h) as int);
            assert(!has_height(front, h));
        } else if h == top {
            assert(f[f.len() - 1].height == h);
            lemma_fundamental_div_mod_converse(n as int, pow2(h) as int, 1, below as int);
        } else {
            let gap = (top - h) as nat;
            lemma_pow2_adds(h, gap);
            lemma_pow2_unfold(gap);
            let half = pow2((gap - 1) as nat);
            lemma_hoist_over_denominator(below as int, pow2(gap) as int, pow2(h));
            assert(pow2(gap) * pow2(h) == pow2(top)) by (nonlinear_arith)
                requires
                    pow2(h) * pow2(gap) == pow2(top),
            ;
            assert(n / pow2(h) == below / pow2(h) + 2 * half);
        }
    }
}

} // verus!
