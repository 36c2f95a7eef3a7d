//! A binomial heap: a forest of binomial trees of strictly increasing
//! heights, merged like binary numbers are added.

use crate::binary_heap::Item;
use crate::forest::{
    bit_is_set, carry_fits, first_lightest, forest_after_pop, forest_count, forest_items,
    has_height, is_binomial_forest, is_binomial_tree, leaf, lemma_binomial_tree, lemma_children,
    lemma_forest_after_pop, lemma_forest_items, lemma_forest_remove, lemma_forest_rest,
    lemma_forest_single, lemma_heights_are_bits, lemma_link, lemma_merged, link, merge_forests,
    tree_items, Tree,
};
use vstd::arithmetic::power2::lemma2_to64;
use vstd::multiset::Multiset;
use vstd::prelude::*;

verus! {

/// A tree of the heap: its children are held from the lowest to the highest.
#[derive(Debug)]
struct Node<T> {
    height: usize,
    value: T,
    weight: i64,
    children: Vec<Node<T>>,
}

/// The tree that a node stands for.
spec fn tree_view<T>(n: Node<T>) -> Tree<T>
    decreases n,
{
    Tree {
        item: Item { value: n.value, weight: n.weight },
        height: n.height as nat,
        children: forest_view(n.children@),
    }
}

/// The trees that a sequence of nodes stands for.
spec fn forest_view<T>(f: Seq<Node<T>>) -> Seq<Tree<T>>
    decreases f,
{
    if f.len() == 0 {
        Seq::empty()
    } else {
        forest_view(f.drop_last()).push(tree_view(f.last()))
    }
}

/// The trees that a stack of nodes stands for, from its top down.
spec fn pending<T>(stack: Seq<Node<T>>) -> Seq<Tree<T>> {
    forest_view(stack).reverse()
}

/// The tree that an optional node stands for.
spec fn carry_view<T>(carry: Option<Node<T>>) -> Option<Tree<T>> {
    match carry {
        Some(c) => Some(tree_view(c)),
        None => None,
    }
}

/// The trees that a sequence of nodes stands for are the trees that its
/// nodes stand for, position by position.
proof fn lemma_forest_view<T>(f: Seq<Node<T>>)
    ensures
        forest_view(f).len() == f.len(),
        forall|i: int| 0 <= i < f.len() ==> (#[trigger] forest_view(f)[i]) == tree_view(f[i]),
    decreases f.len(),
{
    if f.len() > 0 {
        lemma_forest_view(f.drop_last());
    }
}

/// A node appended to a sequence of nodes appends its tree.
proof fn lemma_forest_view_push<T>(f: Seq<Node<T>>, n: Node<T>)
    ensures
        forest_view(f.push(n)) == forest_view(f).push(tree_view(n)),
{
    assert(f.push(n).drop_last() =~= f);
}

/// The top of a stack stands for the front tree, and the stack without its
/// top for the trees behind the front.
proof fn lemma_pending_pop<T>(stack: Seq<Node<T>>)
    requires
        stack.len() > 0,
    ensures
        pending(stack).len() == stack.len(),
        pending(stack)[0] == tree_view(stack.last()),
        pending(stack.drop_last()) == pending(stack).drop_first(),
{
    lemma_forest_view(stack);
    lemma_forest_view(stack.drop_last());
    assert(pending(stack.drop_last()) =~= pending(stack).drop_first());
}

/// Joins two trees of equal height into one of the next height.
fn meld_nodes<T>(left: Node<T>, right: Node<T>) -> (joined: Node<T>)
    requires
        left.height == right.height,
        is_binomial_tree(tree_view(left)),
        is_binomial_tree(tree_view(right)),
    ensures
        tree_view(joined) == link(tree_view(left), tree_view(right)),
{
    proof {
        lemma_forest_view(left.children@);
        lemma_forest_view(right.children@);
    }
    if right.weight < left.weight {
        let Node { height, value, weight, children } = right;
        let mut children = children;
        proof {
            lemma_forest_view_push(children@, left);
        }
        children.push(left);
        assert(height + 1 == children.len());
        Node { height: height + 1, value, weight, children }
    } else {
        let Node { height, value, weight, children } = left;
        let mut children = children;
        proof {
            lemma_forest_view_push(children@, right);
        }
        children.push(right);
        assert(height + 1 == children.len());
        Node { height: height + 1, value, weight, children }
    }
}

/// Turns a forest into a stack with its front tree on top.
fn into_stack<T>(trees: Vec<Node<T>>) -> (stack: Vec<Node<T>>)
    ensures
        pending(stack@) == forest_view(trees@),
{
    let mut trees = trees;
    let mut stack: Vec<Node<T>> = Vec::new();
    let ghost all = trees@;
    while trees.len() > 0
        invariant
            trees@.len() + stack@.len() == all.len(),
            trees@ == all.subrange(0, trees@.len() as int),
            forall|i: int| 0 <= i < stack@.len() ==> stack@[i] == all[all.len() - 1 - i],
        decreases trees.len(),
    {
        let tree = trees.pop().unwrap();
        stack.push(tree);
    }
    proof {
        lemma_forest_view(stack@);
        lemma_forest_view(all);
        assert(pending(stack@) =~= forest_view(all));
    }
    stack
}

/// Detaches the front tree of the forest held in `stack`.
fn take_front<T>(stack: &mut Vec<Node<T>>) -> (front: Node<T>)
    requires
        old(stack)@.len() > 0,
    ensures
        tree_view(front) == pending(old(stack)@)[0],
        front.height == pending(old(stack)@)[0].height,
        pending(final(stack)@) == pending(old(stack)@).drop_first(),
        final(stack)@.len() == old(stack)@.len() - 1,
{
    proof {
        lemma_pending_pop(stack@);
        assert(stack@.subrange(0, stack@.len() - 1) =~= stack@.drop_last());
    }
    stack.pop().unwrap()
}

/// Height of the front tree of the forest held in `stack`.
fn front_height<T>(stack: &Vec<Node<T>>) -> (height: usize)
    requires
        stack@.len() > 0,
    ensures
        height == pending(stack@)[0].height,
{
    proof {
        lemma_pending_pop(stack@);
    }
    stack[stack.len() - 1].height
}

/// Moves the forest held in `stack` to the end of `merged`, front first.
fn drain_into<T>(stack: Vec<Node<T>>, merged: &mut Vec<Node<T>>)
    ensures
        forest_view(final(merged)@) == forest_view(old(merged)@) + pending(stack@),
{
    let mut stack = stack;
    let ghost all = pending(stack@);
    proof {
        assert(forest_view(merged@) + Seq::<Tree<T>>::empty() =~= forest_view(merged@));
        assert(all.subrange(0, 0) =~= Seq::<Tree<T>>::empty());
        lemma_forest_view(stack@);
    }
    while stack.len() > 0
        invariant
            pending(stack@) == all.subrange(all.len() - stack@.len(), all.len() as int),
            stack@.len() <= all.len(),
            forest_view(merged@) == forest_view(old(merged)@) + all.subrange(
                0,
                all.len() - stack@.len(),
            ),
        decreases stack.len(),
    {
        let ghost before = forest_view(merged@);
        let ghost k = all.len() - stack@.len();
        let tree = take_front(&mut stack);
        proof {
            lemma_forest_view_push(merged@, tree);
            assert(tree_view(tree) == all[k]);
            assert(before.push(all[k]) =~= forest_view(old(merged)@) + all.subrange(0, k + 1));
            assert(all.subrange(k, all.len() as int).drop_first() =~= all.subrange(
                k + 1,
                all.len() as int,
            ));
        }
        merged.push(tree);
    }
    proof {
        assert(all.subrange(0, all.len() as int) =~= all);
    }
}

/// Merges two forests of strictly increasing heights into one, the way two
/// binary numbers are added: from the lowest height up, joining trees of
/// equal height into a carry for the next height.
fn meld_trees<T>(ours: Vec<Node<T>>, theirs: Vec<Node<T>>) -> (merged: Vec<Node<T>>)
    requires
        is_binomial_forest(forest_view(ours@)),
        is_binomial_forest(forest_view(theirs@)),
    ensures
        forest_view(merged@) == merge_forests(forest_view(ours@), forest_view(theirs@), None),
{
    let ghost whole = merge_forests(forest_view(ours@), forest_view(theirs@), None);
    let mut our_stack = into_stack(ours);
    let mut their_stack = into_stack(theirs);
    let mut merged: Vec<Node<T>> = Vec::new();
    let mut carry: Option<Node<T>> = None;
    proof {
        assert(forest_view(merged@) + whole =~= whole);
        lemma_pending_len(our_stack@);
        lemma_pending_len(their_stack@);
    }
    while our_stack.len() > 0 || their_stack.len() > 0
        invariant
            whole == merge_forests(forest_view(ours@), forest_view(theirs@), None),
            is_binomial_forest(pending(our_stack@)),
            is_binomial_forest(pending(their_stack@)),
            pending(our_stack@).len() == our_stack@.len(),
            pending(their_stack@).len() == their_stack@.len(),
            carry_fits(carry_view(carry), pending(our_stack@), pending(their_stack@), 0),
            forest_view(merged@) + merge_forests(
                pending(our_stack@),
                pending(their_stack@),
                carry_view(carry),
            ) == whole,
        decreases our_stack@.len() + their_stack@.len(),
    {
        let ghost a = pending(our_stack@);
        let ghost b = pending(their_stack@);
        let ghost c = carry_view(carry);
        let ghost done = forest_view(merged@);
        if carry.is_none() {
            if our_stack.len() == 0 {
                drain_into(their_stack, &mut merged);
                return merged;
            } else if their_stack.len() == 0 {
                drain_into(our_stack, &mut merged);
                return merged;
            }
        }
        let current: Option<Node<T>>;
        let new_carry: Option<Node<T>>;
        if our_stack.len() == 0 {
            proof {
                lemma_forest_rest(b);
            }
            current = Some(take_front(&mut their_stack));
            new_carry = None;
        } else if their_stack.len() == 0 {
            proof {
                lemma_forest_rest(a);
            }
            current = Some(take_front(&mut our_stack));
            new_carry = None;
        } else {
            let our_height = front_height(&our_stack);
            let their_height = front_height(&their_stack);
            if our_height < their_height {
                proof {
                    lemma_forest_rest(a);
                }
                current = Some(take_front(&mut our_stack));
                new_carry = None;
            } else if their_height < our_height {
                proof {
                    lemma_forest_rest(b);
                }
                current = Some(take_front(&mut their_stack));
                new_carry = None;
            } else {
                proof {
                    lemma_forest_rest(a);
                    lemma_forest_rest(b);
                }
                let our_node = take_front(&mut our_stack);
                let their_node = take_front(&mut their_stack);
                current = None;
                new_carry = Some(meld_nodes(our_node, their_node));
            }
        }
        proof {
            lemma_pending_len(our_stack@);
            lemma_pending_len(their_stack@);
        }
        match (current, carry) {
            (None, Some(carry_node)) => {
                proof {
                    lemma_forest_view_push(merged@, carry_node);
                    lemma_joined_fits(a, b);
                    assert(done.push(c->0) + merge_forests(
                        pending(our_stack@),
                        pending(their_stack@),
                        carry_view(new_carry),
                    ) =~= done + merge_forests(a, b, c));
                }
                merged.push(carry_node);
                carry = new_carry;
            },
            (Some(current_node), Some(carry_node)) => {
                if carry_node.height < current_node.height {
                    proof {
                        lemma_forest_view_push(merged@, carry_node);
                        lemma_forest_view_push(merged@.push(carry_node), current_node);
                        assert(done.push(c->0).push(tree_view(current_node)) + merge_forests(
                            pending(our_stack@),
                            pending(their_stack@),
                            None,
                        ) =~= done + merge_forests(a, b, c));
                    }
                    merged.push(carry_node);
                    merged.push(current_node);
                    carry = new_carry;
                } else {
                    proof {
                        lemma_current_fits(a, b, c->0, tree_view(current_node));
                    }
                    carry = Some(meld_nodes(current_node, carry_node));
                }
            },
            (current, None) => {
                if let Some(current_node) = current {
                    proof {
                        lemma_forest_view_push(merged@, current_node);
                        assert(done.push(tree_view(current_node)) + merge_forests(
                            pending(our_stack@),
                            pending(their_stack@),
                            None,
                        ) =~= done + merge_forests(a, b, c));
                    }
                    merged.push(current_node);
                } else {
                    proof {
                        lemma_joined_fits(a, b);
                    }
                }
                carry = new_carry;
            },
        }
    }
    proof {
        assert(pending(our_stack@) =~= Seq::<Tree<T>>::empty());
        assert(pending(their_stack@) =~= Seq::<Tree<T>>::empty());
    }
    if let Some(carry_node) = carry {
        proof {
            lemma_forest_view_push(merged@, carry_node);
            assert(forest_view(merged@).push(tree_view(carry_node)) =~= whole);
        }
        merged.push(carry_node);
    } else {
        proof {
            assert(forest_view(merged@) =~= whole);
        }
    }
    merged
}

/// A stack stands for as many trees as it has nodes.
proof fn lemma_pending_len<T>(stack: Seq<Node<T>>)
    ensures
        pending(stack).len() == stack.len(),
{
    lemma_forest_view(stack);
}

/// The join of two fronts of equal height fits as the next carry.
proof fn lemma_joined_fits<T>(a: Seq<Tree<T>>, b: Seq<Tree<T>>)
    requires
        is_binomial_forest(a),
        is_binomial_forest(b),
        a.len() > 0,
        b.len() > 0,
        a[0].height == b[0].height,
    ensures
        carry_fits(Some(link(a[0], b[0])), a.drop_first(), b.drop_first(), 0),
{
    lemma_link(a[0], b[0]);
    lemma_forest_rest(a);
    lemma_forest_rest(b);
}

/// The join of the detached lower front with a carry of its own height fits
/// as the next carry.
proof fn lemma_current_fits<T>(a: Seq<Tree<T>>, b: Seq<Tree<T>>, c: Tree<T>, current: Tree<T>)
    requires
        is_binomial_forest(a),
        is_binomial_forest(b),
        carry_fits(Some(c), a, b, 0),
        a.len() > 0 || b.len() > 0,
        !(a.len() > 0 && b.len() > 0 && a[0].height == b[0].height),
        current == (if b.len() == 0 || (a.len() > 0 && a[0].height < b[0].height) {
            a[0]
        } else {
            b[0]
        }),
        !(c.height < current.height),
    ensures
        c.height == current.height,
        is_binomial_tree(current),
        carry_fits(
            Some(link(current, c)),
            if b.len() == 0 || (a.len() > 0 && a[0].height < b[0].height) {
                a.drop_first()
            } else {
                a
            },
            if b.len() == 0 || (a.len() > 0 && a[0].height < b[0].height) {
                b
            } else {
                b.drop_first()
            },
            0,
        ),
{
    let from_a = b.len() == 0 || (a.len() > 0 && a[0].height < b[0].height);
    if from_a {
        lemma_forest_rest(a);
        assert forall|i: int| 0 <= i < b.len() implies (#[trigger] b[i]).height >= current.height
            + 1 by {
            if i > 0 {
                assert(b[0].height < b[i].height);
            }
        }
    } else {
        lemma_forest_rest(b);
        assert forall|i: int| 0 <= i < a.len() implies (#[trigger] a[i]).height >= current.height
            + 1 by {
            if i > 0 {
                assert(a[0].height < a[i].height);
            }
        }
    }
    lemma_link(current, c);
}

/// A min-heap held as a forest of binomial trees, with the number of its
/// elements cached.
#[derive(Debug)]
pub struct BinomialHeap<T> {
    trees: Vec<Node<T>>,
    len: usize,
}

impl<T> View for BinomialHeap<T> {
    type V = Multiset<Item<T>>;

    /// The elements of the heap.
    open spec fn view(&self) -> Multiset<Item<T>> {
        forest_items(self.forest())
    }
}

impl<T> BinomialHeap<T> {
    #[verifier::type_invariant]
    spec fn well_formed(self) -> bool {
        &&& is_binomial_forest(forest_view(self.trees@))
        &&& self.len == forest_count(forest_view(self.trees@))
    }

    /// The root trees of the heap, in list order.
    pub closed spec fn forest(&self) -> Seq<Tree<T>> {
        forest_view(self.trees@)
    }

    /// The cached number of elements.
    pub closed spec fn spec_len(&self) -> usize {
        self.len
    }

    /// An empty heap.
    pub fn new() -> (heap: BinomialHeap<T>)
        ensures
            heap.forest() == Seq::<Tree<T>>::empty(),
            heap@ == Multiset::<Item<T>>::empty(),
            heap.len() == 0,
    {
        BinomialHeap { trees: Vec::new(), len: 0 }
    }

    /// Absorbs `other`: the two forests are merged.
    pub fn meld(&mut self, other: BinomialHeap<T>)
        requires
            old(self).len() + other.len() <= usize::MAX,
        ensures
            final(self).forest() == merge_forests(old(self).forest(), other.forest(), None),
            is_binomial_forest(final(self).forest()),
            final(self).len() == forest_count(final(self).forest()),
            final(self).len() == old(self).len() + other.len(),
            final(self)@ == old(self)@.add(other@),
    {
        proof {
            use_type_invariant(&*self);
            use_type_invariant(&other);
            lemma_merged(self.forest(), other.forest());
        }
        let mut ours = BinomialHeap::new();
        std::mem::swap(self, &mut ours);
        let BinomialHeap { trees: our_trees, len: our_len } = ours;
        let BinomialHeap { trees: their_trees, len: their_len } = other;
        let trees = meld_trees(our_trees, their_trees);
        *self = BinomialHeap { trees, len: our_len + their_len };
    }

    /// Adds `value` with the given `weight`, as a one-element forest merged
    /// into the heap.
    pub fn push(&mut self, value: T, weight: i64)
        requires
            old(self).len() < usize::MAX,
        ensures
            final(self).forest() == merge_forests(
                old(self).forest(),
                seq![leaf((Item { value, weight }))],
                None,
            ),
            is_binomial_forest(final(self).forest()),
            final(self).len() == forest_count(final(self).forest()),
            final(self).len() == old(self).len() + 1,
            final(self)@ == old(self)@.insert((Item { value, weight })),
    {
        let node = Node { height: 0, value, weight, children: Vec::new() };
        let mut tree: Vec<Node<T>> = Vec::new();
        tree.push(node);
        proof {
            use_type_invariant(&*self);
            let single = leaf(Item { value, weight });
            assert(forest_view(node.children@) =~= Seq::<Tree<T>>::empty());
            lemma_forest_view(tree@);
            assert(forest_view(tree@) =~= seq![single]);
            assert(is_binomial_tree(single));
            assert(is_binomial_forest(seq![single]));
            lemma_forest_single(single);
            lemma_merged(self.forest(), seq![single]);
            lemma2_to64();
            assert(tree_items(single) =~= Multiset::empty().insert(single.item));
            assert(old(self)@.add(tree_items(single)) =~= old(self)@.insert(single.item));
        }
        let mut ours = BinomialHeap::new();
        std::mem::swap(self, &mut ours);
        let BinomialHeap { trees: our_trees, len: our_len } = ours;
        let trees = meld_trees(our_trees, tree);
        *self = BinomialHeap { trees, len: our_len + 1 };
    }

    /// Removes and returns an element of least weight: the root of the first
    /// tree, in list order, whose root no other root is lighter than; `None`
    /// when the heap is empty.
    pub fn pop(&mut self) -> (popped: Option<Item<T>>)
        ensures
            old(self).len() == 0 ==> {
                &&& popped is None
                &&& final(self).forest() == old(self).forest()
                &&& final(self).len() == 0
            },
            old(self).len() > 0 ==> popped == Some(
                old(self).forest()[first_lightest(old(self).forest())].item,
            ) && final(self).forest() == forest_after_pop(old(self).forest()),
            is_binomial_forest(final(self).forest()),
            final(self).len() == forest_count(final(self).forest()),
            popped matches Some(item) ==> {
                &&& final(self).len() == old(self).len() - 1
                &&& old(self)@.count(item) > 0
                &&& final(self)@ == old(self)@.remove(item)
                &&& forall|x: Item<T>| old(self)@.count(x) > 0 ==> item.weight <= x.weight
            },
    {
        proof {
            use_type_invariant(&*self);
        }
        if self.len == 0 {
            return None;
        }
        let mut ours = BinomialHeap::new();
        std::mem::swap(self, &mut ours);
        let BinomialHeap { trees, len } = ours;
        let mut trees = trees;
        let ghost roots = forest_view(trees@);
        proof {
            lemma_forest_view(trees@);
            assert(forest_count(Seq::<Tree<T>>::empty()) == 0);
            lemma_forest_after_pop(roots);
            assert(roots.subrange(0, 1).drop_last() =~= Seq::<Tree<T>>::empty());
        }
        let mut min_index: usize = 0;
        let mut i: usize = 1;
        while i < trees.len()
            invariant
                1 <= i <= trees@.len(),
                roots == forest_view(trees@),
                roots.len() == trees@.len(),
                forall|j: int|
                    0 <= j < trees@.len() ==> (#[trigger] roots[j]) == tree_view(trees@[j]),
                min_index == first_lightest(roots.subrange(0, i as int)),
                0 <= min_index < i,
            decreases trees@.len() - i,
        {
            proof {
                assert(roots.subrange(0, i + 1).drop_last() =~= roots.subrange(0, i as int));
                assert(roots.subrange(0, i + 1)[min_index as int] == roots[min_index as int]);
            }
            if !(trees[min_index].weight <= trees[i].weight) {
                min_index = i;
            }
            i += 1;
        }
        proof {
            assert(roots.subrange(0, i as int) =~= roots);
        }
        let min_node = trees.remove(min_index);
        let Node { height: _, value, weight, children } = min_node;
        proof {
            lemma_forest_remove(roots, min_index as int);
            lemma_binomial_tree(roots[min_index as int]);
            lemma_children(roots[min_index as int].children, weight as int);
            lemma_forest_view(trees@);
            assert(forest_view(trees@) =~= roots.remove(min_index as int));
        }
        let merged = meld_trees(trees, children);
        *self = BinomialHeap { trees: merged, len: len - 1 };
        Some(Item { value, weight })
    }

    /// The heights of the root trees, in list order: strictly increasing,
    /// and one for every bit that is set in the binary numeral of `len()`.
    pub fn tree_heights(&self) -> (heights: Vec<usize>)
        ensures
            heights@.len() == self.forest().len(),
            forall|i: int| 0 <= i < heights@.len() ==> heights@[i] == self.forest()[i].height,
            forall|i: int, j: int| 0 <= i < j < heights@.len() ==> heights@[i] < heights@[j],
            forall|h: nat| #[trigger]
                has_height(self.forest(), h) <==> bit_is_set(self.len() as nat, h),
    {
        proof {
            use_type_invariant(self);
            lemma_forest_view(self.trees@);
            assert forall|h: nat| #[trigger] has_height(self.forest(), h) <==> bit_is_set(
                self.len() as nat,
                h,
            ) by {
                lemma_heights_are_bits(self.forest(), h);
            }
        }
        let mut heights: Vec<usize> = Vec::new();
        let mut i: usize = 0;
        while i < self.trees.len()
            invariant
                i <= self.trees@.len(),
                heights@.len() == i,
                self.forest().len() == self.trees@.len(),
                forall|k: int|
                    0 <= k < self.trees@.len() ==> (#[trigger] self.forest()[k]) == tree_view(
                        self.trees@[k],
                    ),
                forall|k: int| 0 <= k < i ==> heights@[k] == self.forest()[k].height,
            decreases self.trees@.len() - i,
        {
            heights.push(self.trees[i].height);
            i += 1;
        }
        heights
    }

    /// Number of elements.
    #[verifier::when_used_as_spec(spec_len)]
    pub fn len(&self) -> (n: usize)
        ensures
            n == self.len(),
            n == self@.len(),
            n == forest_count(self.forest()),
            is_binomial_forest(self.forest()),
    {
        proof {
            use_type_invariant(self);
            lemma_forest_items(self.forest(), i64::MIN as int);
        }
        self.len
    }

    /// Whether the heap holds no element.
    pub fn is_empty(&self) -> (empty: bool)
        ensures
            empty <==> self.len() == 0,
            empty <==> self@.len() == 0,
    {
        self.len() == 0
    }
}

} // verus!
