//! A leftist heap: one binary tree in which the shorter spine is kept on the right.

use vstd::prelude::*;
use vstd::multiset::Multiset;
use vstd::arithmetic::power2::pow2;
use vstd::arithmetic::power2::lemma_pow2_unfold;
use vstd::arithmetic::power2::lemma_pow2_strictly_increases;
use vstd::arithmetic::power2::lemma2_to64;
use vstd::arithmetic::power2::lemma2_to64_rest;
use std::sync::Arc;
use crate::heap::Heap;
use crate::order::le;
use crate::order::lawful;
use crate::order::lower_bound;
use crate::order::le_reflexive;
use crate::order::le_total;
use crate::order::le_transitive;
use crate::order::at_most;
use crate::order::duplicate;
use crate::sharing::another;

verus! {

/// One node of the tree: an element, the rank, and the two sub-trees, the
/// one of the greater rank first.
pub struct Node<T> {
    rank: i32,
    elem: T,
    a: Option<Arc<Node<T>>>,
    b: Option<Arc<Node<T>>>,
}

/// A persistent leftist heap.
pub struct LeftistHeap<T> {
    head: Option<Arc<Node<T>>>,
}

/// The elements below a link, with their multiplicities.
pub closed spec fn tree_elems<T>(link: Option<Arc<Node<T>>>) -> Multiset<T>
    decreases link,
{
    match link {
        None => Multiset::empty(),
        Some(node) => tree_elems(node.a).add(tree_elems(node.b)).insert(node.elem),
    }
}

/// The rank that a link's node records; 0 where there is no node.
pub closed spec fn tree_rank<T>(link: Option<Arc<Node<T>>>) -> int {
    match link {
        None => 0,
        Some(node) => node.rank as int,
    }
}

/// The element at a link's node.
pub closed spec fn tree_top<T>(link: Option<Arc<Node<T>>>) -> Option<T> {
    match link {
        None => None,
        Some(node) => Some(node.elem),
    }
}

/// The first sub-tree of a link's node.
pub closed spec fn tree_left<T>(link: Option<Arc<Node<T>>>) -> Option<Arc<Node<T>>> {
    match link {
        None => None,
        Some(node) => node.a,
    }
}

/// The second sub-tree of a link's node.
pub closed spec fn tree_right<T>(link: Option<Arc<Node<T>>>) -> Option<Arc<Node<T>>> {
    match link {
        None => None,
        Some(node) => node.b,
    }
}

/// The number of nodes on the way from a link down the second sub-trees.
pub closed spec fn spine<T>(link: Option<Arc<Node<T>>>) -> nat
    decreases link,
{
    match link {
        None => 0,
        Some(node) => 1 + spine(node.b),
    }
}

/// The tree below a link is a leftist heap: at every node the recorded rank
/// is one more than that of the second sub-tree, the first sub-tree's rank
/// is at least the second's, and no element below is ordered before the
/// node's own.
pub closed spec fn tree_wf<T: Ord>(link: Option<Arc<Node<T>>>) -> bool
    decreases link,
{
    match link {
        None => true,
        Some(node) => {
            &&& tree_wf(node.a)
            &&& tree_wf(node.b)
            &&& node.rank == tree_rank(node.b) + 1
            &&& tree_rank(node.a) >= tree_rank(node.b)
            &&& lower_bound(node.elem, tree_elems(node.a))
            &&& lower_bound(node.elem, tree_elems(node.b))
        },
    }
}

/// The shape of a leftist heap, node by node: the sub-trees of a node of a
/// well-formed tree are well-formed, the first has at least the rank of the
/// second, and the node's rank is the length of its right spine.
pub proof fn wf_is_leftist<T: Ord>(link: Option<Arc<Node<T>>>)
    requires
        tree_wf(link),
    ensures
        tree_wf(tree_left(link)),
        tree_wf(tree_right(link)),
        tree_rank(tree_left(link)) >= tree_rank(tree_right(link)),
        tree_rank(link) == spine(link),
        link is Some ==> tree_rank(link) == tree_rank(tree_right(link)) + 1,
    decreases link,
{
    if link is Some {
        wf_is_leftist(tree_right(link));
    }
}

/// A well-formed tree of rank `r` holds at least `2^r - 1` elements.
pub proof fn rank_is_logarithmic<T: Ord>(link: Option<Arc<Node<T>>>)
    requires
        tree_wf(link),
    ensures
        tree_rank(link) >= 0,
        pow2(tree_rank(link) as nat) <= tree_elems(link).len() + 1,
    decreases link,
{
    if link is Some {
        rank_is_logarithmic(tree_left(link));
        rank_is_logarithmic(tree_right(link));
        let ra = tree_rank(tree_left(link)) as nat;
        let rb = tree_rank(tree_right(link)) as nat;
        if rb < ra {
            lemma_pow2_strictly_increases(rb, ra);
        }
        lemma_pow2_unfold((rb + 1) as nat);
    } else {
        lemma2_to64();
    }
}

/// The element at the root of a well-formed tree is a minimum of the tree.
pub proof fn top_is_min<T: Ord>(link: Option<Arc<Node<T>>>)
    requires
        crate::order::total_order::<T>(),
        tree_wf(link),
    ensures
        tree_top(link) is None <==> tree_elems(link).len() == 0,
        tree_top(link) matches Some(m) ==> crate::order::is_min(m, tree_elems(link)),
{
    if link is Some {
        let m = tree_top(link).unwrap();
        le_reflexive(m);
        assert(tree_elems(link).count(m) > 0);
    }
}

proof fn rank_fits<T: Ord>(link: Option<Arc<Node<T>>>)
    requires
        tree_wf(link),
        tree_elems(link).len() <= usize::MAX,
    ensures
        0 <= tree_rank(link) <= 64,
{
    rank_is_logarithmic(link);
    lemma2_to64_rest();
    if tree_rank(link) > 64 {
        lemma_pow2_strictly_increases(64, tree_rank(link) as nat);
    }
}

/// The tree of a new node with the rank, element and sub-trees given.
pub fn link<T>(rank: i32, elem: T, a: Option<Arc<Node<T>>>, b: Option<Arc<Node<T>>>) -> (r: Option<
    Arc<Node<T>>,
>)
    ensures
        r is Some,
        tree_rank(r) == rank,
        tree_top(r) == Some(elem),
        tree_left(r) == a,
        tree_right(r) == b,
{
    Some(Arc::new(Node { rank, elem, a, b }))
}

/// The rank that the node at `link` records; 0 where there is none.
pub fn rank<T>(link: &Option<Arc<Node<T>>>) -> (r: i32)
    ensures
        r == tree_rank(*link),
{
    match link {
        None => 0,
        Some(node) => node.rank,
    }
}

fn share<T>(link: &Option<Arc<Node<T>>>) -> (r: Option<Arc<Node<T>>>)
    ensures
        r == *link,
{
    match link {
        None => None,
        Some(node) => Some(another(node)),
    }
}

/// Merges two trees along their right spines.
fn merge_links<T: Ord + Clone>(x: &Option<Arc<Node<T>>>, y: &Option<Arc<Node<T>>>) -> (r: Option<
    Arc<Node<T>>,
>)
    requires
        lawful::<T>(),
        tree_wf(*x),
        tree_wf(*y),
        tree_elems(*x).len() + tree_elems(*y).len() <= usize::MAX,
    ensures
        tree_wf(r),
        tree_elems(r) == tree_elems(*x).add(tree_elems(*y)),
        tree_top(r) == match (tree_top(*x), tree_top(*y)) {
            (None, other) => other,
            (Some(p), None) => Some(p),
            (Some(p), Some(q)) => if le(p, q) { Some(p) } else { Some(q) },
        },
    decreases spine(*x) + spine(*y),
{
    match (x, y) {
        (None, None) => None,
        (Some(h1), None) => {
            assert(tree_elems(*x).add(tree_elems(*y)) =~= tree_elems(*x));
            Some(another(h1))
        },
        (None, Some(h2)) => {
            assert(tree_elems(*x).add(tree_elems(*y)) =~= tree_elems(*y));
            Some(another(h2))
        },
        (Some(h1), Some(h2)) => {
            let first = at_most(&h1.elem, &h2.elem);
            let (elem, a, b) = if first {
                (duplicate(&h1.elem), share(&h1.a), merge_links(&h1.b, y))
            } else {
                (duplicate(&h2.elem), share(&h2.a), merge_links(x, &h2.b))
            };
            proof {
                let (keep, rest) = if first { (*x, *y) } else { (*y, *x) };
                le_total(tree_top(*x).unwrap(), tree_top(*y).unwrap());
                top_is_min(rest);
                assert(tree_elems(b) =~= tree_elems(tree_right(keep)).add(tree_elems(rest)));
                assert forall|v: T| tree_elems(b).contains(v) implies le(elem, v) by {
                    if tree_elems(rest).contains(v) {
                        le_transitive(elem, tree_top(rest).unwrap(), v);
                    }
                }
                assert(tree_elems(a).add(tree_elems(b)).insert(elem) =~= tree_elems(*x).add(
                    tree_elems(*y),
                ));
                rank_fits(a);
                rank_fits(b);
            }
            let ra = rank(&a);
            let rb = rank(&b);
            if ra >= rb {
                link(rb + 1, elem, a, b)
            } else {
                link(ra + 1, elem, b, a)
            }
        },
    }
}

impl<T> View for LeftistHeap<T> {
    type V = Multiset<T>;

    /// The elements of the heap, with their multiplicities.
    closed spec fn view(&self) -> Multiset<T> {
        tree_elems(self.head)
    }
}

impl<T> LeftistHeap<T> {
    /// The tree that holds the heap's elements.
    pub closed spec fn root(&self) -> Option<Arc<Node<T>>> {
        self.head
    }
}

impl<T: Ord + Clone> Heap<T> for LeftistHeap<T> {
    closed spec fn wf(&self) -> bool {
        tree_wf(self.head) && tree_elems(self.head).len() <= usize::MAX
    }

    closed spec fn first(&self) -> Option<T> {
        tree_top(self.head)
    }

    proof fn first_is_min(&self) {
        top_is_min(self.head);
    }

    fn empty() -> (h: Self) {
        LeftistHeap { head: None }
    }

    fn is_empty(&self) -> (r: bool) {
        proof {
            if self.head is Some {
                assert(tree_elems(self.head).count(tree_top(self.head).unwrap()) > 0);
            }
        }
        self.head.is_none()
    }

    fn insert(&self, item: T) -> (h: Self) {
        let single = link(1, item, None, None);
        proof {
            let leaf: Option<Arc<Node<T>>> = None;
            assert(tree_elems(leaf) =~= Multiset::empty());
            assert(tree_wf(leaf));
            assert(tree_elems(single) =~= Multiset::empty().insert(item));
            assert(tree_elems(self.head).add(tree_elems(single)) =~= tree_elems(self.head).insert(
                item,
            ));
        }
        LeftistHeap { head: merge_links(&self.head, &single) }
    }

    fn merge(&self, other: &Self) -> (h: Self) {
        LeftistHeap { head: merge_links(&self.head, &other.head) }
    }

    fn find_min(&self) -> (r: Option<T>) {
        proof {
            top_is_min(self.head);
        }
        match &self.head {
            None => None,
            Some(node) => Some(duplicate(&node.elem)),
        }
    }

    fn delete_min(&self) -> (h: Self) {
        match &self.head {
            None => LeftistHeap { head: None },
            Some(node) => {
                proof {
                    assert(tree_elems(self.head).remove(node.elem) =~= tree_elems(node.a).add(
                        tree_elems(node.b),
                    ));
                }
                LeftistHeap { head: merge_links(&node.a, &node.b) }
            },
        }
    }
}

/// The elements of all the heaps of a stack, with their multiplicities.
spec fn stack_elems<T>(stack: Seq<LeftistHeap<T>>) -> Multiset<T>
    decreases stack.len(),
{
    if stack.len() == 0 {
        Multiset::empty()
    } else {
        stack_elems(stack.drop_last()).add(stack.last()@)
    }
}

/// Every heap of a stack is well-formed.
spec fn stack_wf<T: Ord + Clone>(stack: Seq<LeftistHeap<T>>) -> bool {
    forall|i: int| 0 <= i < stack.len() ==> (#[trigger] stack[i]).wf()
}

proof fn stack_elems_push<T>(stack: Seq<LeftistHeap<T>>, top: LeftistHeap<T>)
    ensures
        stack_elems(stack.push(top)) == stack_elems(stack).add(top@),
{
    assert(stack.push(top).drop_last() =~= stack);
}

/// Pops the two heaps on top of the stack and pushes their merge.
fn collapse<T: Ord + Clone>(stack: &mut Vec<LeftistHeap<T>>)
    requires
        lawful::<T>(),
        old(stack)@.len() >= 2,
        stack_wf(old(stack)@),
        stack_elems(old(stack)@).len() <= usize::MAX,
    ensures
        final(stack)@.len() == old(stack)@.len() - 1,
        stack_wf(final(stack)@),
        stack_elems(final(stack)@) == stack_elems(old(stack)@),
{
    let ghost before = stack@;
    let a = stack.pop().unwrap();
    let b = stack.pop().unwrap();
    proof {
        let rest = before.drop_last().drop_last();
        assert(stack@ =~= rest);
        assert(a == before[before.len() - 1]);
        assert(b == before[before.len() - 2]);
        assert(before.drop_last().last() == b);
        assert(stack_elems(before) == stack_elems(before.drop_last()).add(a@));
        assert(stack_elems(before.drop_last()) == stack_elems(rest).add(b@));
    }
    let merged = a.merge(&b);
    stack.push(merged);
    proof {
        let rest = before.drop_last().drop_last();
        stack_elems_push(rest, merged);
        assert(stack@ =~= rest.push(merged));
        assert(stack_elems(stack@) =~= stack_elems(before));
        assert forall|i: int| 0 <= i < stack@.len() implies (#[trigger] stack@[i]).wf() by {
            if i < rest.len() {
                assert(stack@[i] == before[i]);
            }
        }
    }
}

impl<T: Ord + Clone> LeftistHeap<T> {
    /// The heap of the elements of `items`, built by merging heaps of like
    /// rank.
    pub fn from_iter(items: Vec<T>) -> (h: Self)
        requires
            lawful::<T>(),
        ensures
            h.wf(),
            h@ == items@.to_multiset(),
    {
        let mut stack: Vec<LeftistHeap<T>> = Vec::new();
        let mut i: usize = 0;
        proof {
            assert(items@.subrange(0, 0) =~= Seq::<T>::empty());
            items@.subrange(0, 0).to_multiset_ensures();
            assert(items@.subrange(0, 0).to_multiset() =~= Multiset::empty());
        }
        while i < items.len()
            invariant
                lawful::<T>(),
                0 <= i <= items.len(),
                stack_wf(stack@),
                stack_elems(stack@) == items@.subrange(0, i as int).to_multiset(),
            decreases items.len() - i,
        {
            let item = duplicate(&items[i]);
            let single = LeftistHeap { head: link(1, item, None, None) };
            proof {
                let leaf: Option<Arc<Node<T>>> = None;
                assert(tree_elems(leaf) =~= Multiset::empty());
                assert(tree_wf(leaf));
                assert(single@ =~= Multiset::empty().insert(item));
                assert(single.wf());
                stack_elems_push(stack@, single);
                let seen = items@.subrange(0, i as int);
                assert(items@.subrange(0, i + 1) =~= seen.push(item));
                vstd::seq_lib::to_multiset_build(seen, item);
                assert(stack_elems(stack@.push(single)) =~= seen.push(item).to_multiset());
                items@.subrange(0, i + 1).to_multiset_ensures();
            }
            stack.push(single);
            i = i + 1;
            while stack.len() >= 2 && rank(&stack[stack.len() - 2].head) <= rank(
                &stack[stack.len() - 1].head,
            )
                invariant
                    lawful::<T>(),
                    0 <= i <= items.len(),
                    stack_wf(stack@),
                    stack_elems(stack@) == items@.subrange(0, i as int).to_multiset(),
                    stack_elems(stack@).len() == i,
                decreases stack@.len(),
            {
                collapse(&mut stack);
            }
        }
        proof {
            assert(items@.subrange(0, i as int) =~= items@);
            items@.to_multiset_ensures();
        }
        while stack.len() > 1
            invariant
                lawful::<T>(),
                stack_wf(stack@),
                stack_elems(stack@) == items@.to_multiset(),
                items@.to_multiset().len() == items@.len(),
                items@.len() <= usize::MAX,
            decreases stack@.len(),
        {
            collapse(&mut stack);
        }
        let ghost rest = stack@;
        match stack.pop() {
            None => {
                LeftistHeap { head: None }
            },
            Some(h) => {
                proof {
                    assert(rest.len() == 1);
                    assert(h == rest[0]);
                    assert(stack_elems(rest.drop_last()) =~= Multiset::empty());
                    assert(stack_elems(rest) =~= h@);
                }
                h
            },
        }
    }
}

/// The elements of a heap in the order in which `delete_min` removes them.
pub struct IntoIter<T> {
    next: LeftistHeap<T>,
}

impl<T> IntoIter<T> {
    /// The heap of the elements that are still to come.
    pub closed spec fn rest(&self) -> LeftistHeap<T> {
        self.next
    }
}

impl<T: Ord + Clone> IntoIter<T> {
    /// The next element, a minimum of those that are left, which is then
    /// left out; `None` when none is left.
    pub fn next(&mut self) -> (item: Option<T>)
        requires
            lawful::<T>(),
            old(self).rest().wf(),
        ensures
            final(self).rest().wf(),
            item == old(self).rest().first(),
            item is None <==> old(self).rest()@.len() == 0,
            item matches Some(m) ==> crate::order::is_min(m, old(self).rest()@),
            final(self).rest()@ == match item {
                None => old(self).rest()@,
                Some(m) => old(self).rest()@.remove(m),
            },
    {
        let item = self.next.find_min();
        self.next = self.next.delete_min();
        item
    }
}

impl<T: Ord + Clone> LeftistHeap<T> {
    /// The heap as a sequence in ascending order, to be taken one by one.
    pub fn into_iter(self) -> (iter: IntoIter<T>)
        ensures
            iter.rest() == self,
    {
        IntoIter { next: self }
    }
}

/// A well-formed heap is a leftist tree in heap order with at most
/// `usize::MAX` elements, and so of a rank of at most 64.
pub proof fn heap_is_leftist<T: Ord + Clone>(heap: LeftistHeap<T>)
    requires
        heap.wf(),
    ensures
        tree_wf(heap.root()),
        heap@ == tree_elems(heap.root()),
        heap.first() == tree_top(heap.root()),
        heap@.len() <= usize::MAX,
        0 <= tree_rank(heap.root()) <= 64,
{
    rank_fits(heap.root());
}

/// Every operation gives a leftist tree: the empty heap, and what `insert`,
/// `merge`, `delete_min`, the bulk construction and a step of the iteration
/// make of well-formed heaps.
pub proof fn operations_keep_leftist<T: Ord + Clone>(
    heap: LeftistHeap<T>,
    other: LeftistHeap<T>,
    item: T,
    items: Vec<T>,
    none: LeftistHeap<T>,
    inserted: LeftistHeap<T>,
    merged: LeftistHeap<T>,
    deleted: LeftistHeap<T>,
    built: LeftistHeap<T>,
)
    requires
        lawful::<T>(),
        heap.wf(),
        other.wf(),
        heap@.len() + other@.len() < usize::MAX,
        call_ensures(LeftistHeap::<T>::empty, (), none),
        call_ensures(LeftistHeap::<T>::insert, (&heap, item), inserted),
        call_ensures(LeftistHeap::<T>::merge, (&heap, &other), merged),
        call_ensures(LeftistHeap::<T>::delete_min, (&heap,), deleted),
        call_ensures(LeftistHeap::<T>::from_iter, (items,), built),
    ensures
        tree_wf(none.root()),
        tree_wf(inserted.root()),
        tree_wf(merged.root()),
        tree_wf(deleted.root()),
        tree_wf(built.root()),
{
}

/// The bulk construction gives a heap of the elements that inserting them
/// one by one gives.
pub proof fn bulk_build_is_insertion<T: Ord + Clone>(
    items: Vec<T>,
    built: LeftistHeap<T>,
    inserted: LeftistHeap<T>,
)
    requires
        lawful::<T>(),
        call_ensures(LeftistHeap::<T>::from_iter, (items,), built),
        call_ensures(crate::heap::collect::<T, LeftistHeap<T>>, (&items,), inserted),
    ensures
        built@ == inserted@,
        built.wf(),
{
}

} // verus!
