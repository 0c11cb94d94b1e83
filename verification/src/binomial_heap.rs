//! A binomial heap: a forest with at most one binomial tree of each rank.

use vstd::prelude::*;
use vstd::multiset::Multiset;
use std::sync::Arc;
use crate::heap::Heap;
use crate::order::le;
use crate::order::lawful;
use crate::order::lower_bound;
use crate::order::le_reflexive;
use crate::order::le_total;
use crate::order::le_transitive;
use crate::order::less;
use crate::order::duplicate;
use crate::sharing::another;
use vstd::arithmetic::power2::pow2;
use vstd::arithmetic::power2::lemma_pow2_unfold;
use vstd::arithmetic::power2::lemma_pow2_strictly_increases;
use vstd::arithmetic::power2::lemma2_to64;
use vstd::arithmetic::power2::lemma2_to64_rest;

verus! {

/// One node of a binomial tree: an element and the sub-trees below it, the
/// one of rank 0 first.
pub struct Node<T> {
    elem: T,
    children: Vec<Arc<Node<T>>>,
}

/// A persistent binomial heap.
pub struct BinomialHeap<T> {
    trees: Vec<Option<Arc<Node<T>>>>,
}

/// The elements of the trees of `kids`, with their multiplicities.
pub closed spec fn kids_elems<T>(kids: Seq<Arc<Node<T>>>) -> Multiset<T>
    decreases kids,
{
    if kids.len() == 0 {
        Multiset::empty()
    } else {
        kids_elems(kids.drop_last()).add(node_elems(kids.last()))
    }
}

/// The elements of the tree below `node`, with their multiplicities.
pub closed spec fn node_elems<T>(node: Arc<Node<T>>) -> Multiset<T>
    decreases node,
{
    kids_elems(node.children@).insert(node.elem)
}

/// `node` is the root of a binomial tree of rank `r` in heap order: it has
/// `r` sub-trees, the one at place `i` is such a tree of rank `i`, and no
/// element below is ordered before the node's own.
pub closed spec fn binomial<T: Ord>(node: Arc<Node<T>>, r: nat) -> bool
    decreases node,
{
    &&& node.children@.len() == r
    &&& forall|i: int|
        0 <= i < r ==> {
            &&& binomial(#[trigger] node.children@[i], i as nat)
            &&& lower_bound(node.elem, node_elems(node.children@[i]))
        }
}

/// The element at the root of the tree below `node`.
pub closed spec fn node_top<T>(node: Arc<Node<T>>) -> T {
    node.elem
}

/// The number of sub-trees below the root `node`.
pub closed spec fn node_rank<T>(node: Arc<Node<T>>) -> nat {
    node.children@.len()
}

/// `node` is the root of a binomial tree in heap order, of the rank that its
/// number of sub-trees gives.
pub open spec fn node_wf<T: Ord>(node: Arc<Node<T>>) -> bool {
    binomial(node, node_rank(node))
}

proof fn kids_lower_bound<T: Ord>(m: T, kids: Seq<Arc<Node<T>>>)
    requires
        forall|i: int| 0 <= i < kids.len() ==> lower_bound(m, node_elems(#[trigger] kids[i])),
    ensures
        lower_bound(m, kids_elems(kids)),
    decreases kids.len(),
{
    if kids.len() > 0 {
        let front = kids.drop_last();
        assert forall|i: int| 0 <= i < front.len() implies lower_bound(
            m,
            node_elems(#[trigger] front[i]),
        ) by {
            assert(front[i] == kids[i]);
        }
        kids_lower_bound(m, front);
        assert(lower_bound(m, node_elems(kids[kids.len() - 1])));
    }
}

/// The root of a binomial tree in heap order holds a minimum of the tree.
pub proof fn root_is_min<T: Ord>(node: Arc<Node<T>>)
    requires
        crate::order::total_order::<T>(),
        node_wf(node),
    ensures
        crate::order::is_min(node_top(node), node_elems(node)),
{
    kids_lower_bound(node_top(node), node.children@);
    le_reflexive(node_top(node));
    assert(node_elems(node).count(node_top(node)) > 0);
}

proof fn kids_size<T: Ord>(kids: Seq<Arc<Node<T>>>)
    requires
        forall|i: int| 0 <= i < kids.len() ==> binomial(#[trigger] kids[i], i as nat),
    ensures
        kids_elems(kids).len() + 1 == pow2(kids.len()),
    decreases kids, 0int,
{
    if kids.len() > 0 {
        let front = kids.drop_last();
        assert forall|i: int| 0 <= i < front.len() implies binomial(
            #[trigger] front[i],
            i as nat,
        ) by {
            assert(front[i] == kids[i]);
        }
        kids_size(front);
        tree_size(kids[kids.len() - 1], (kids.len() - 1) as nat);
        lemma_pow2_unfold(kids.len());
    } else {
        lemma2_to64();
    }
}

/// A binomial tree of rank `r` has `r` sub-trees at its root and holds
/// `2^r` elements.
pub proof fn tree_size<T: Ord>(node: Arc<Node<T>>, r: nat)
    requires
        binomial(node, r),
    ensures
        node_rank(node) == r,
        node_elems(node).len() == pow2(r),
    decreases node, 1int,
{
    kids_size(node.children@);
}

/// Links two trees of one rank into a tree of the next: the root that is
/// ordered strictly before the other, or else the second, becomes the new
/// root, and the other tree its last sub-tree.
pub fn link<T: Ord + Clone>(a: &Arc<Node<T>>, b: &Arc<Node<T>>) -> (r: Arc<Node<T>>)
    requires
        lawful::<T>(),
        node_wf(*a),
        node_wf(*b),
        node_rank(*a) == node_rank(*b),
        node_rank(*a) < usize::MAX,
    ensures
        node_wf(r),
        node_rank(r) == node_rank(*a) + 1,
        node_elems(r) == node_elems(*a).add(node_elems(*b)),
        node_top(r) == if le(node_top(*b), node_top(*a)) {
            node_top(*b)
        } else {
            node_top(*a)
        },
{
    let (smaller, bigger) = if less(&a.elem, &b.elem) {
        (a, b)
    } else {
        (b, a)
    };
    let n = smaller.children.len();
    let mut new_children: Vec<Arc<Node<T>>> = Vec::with_capacity(n + 1);
    let mut i: usize = 0;
    while i < n
        invariant
            n == smaller.children@.len(),
            0 <= i <= n,
            new_children@ == smaller.children@.subrange(0, i as int),
        decreases n - i,
    {
        new_children.push(another(&smaller.children[i]));
        proof {
            assert(new_children@ =~= smaller.children@.subrange(0, i + 1));
        }
        i = i + 1;
    }
    new_children.push(another(bigger));
    let r = Arc::new(Node { elem: duplicate(&smaller.elem), children: new_children });
    proof {
        assert(smaller.children@.subrange(0, n as int) =~= smaller.children@);
        assert(r.children@ =~= smaller.children@.push(*bigger));
        assert(r.children@.drop_last() =~= smaller.children@);
        assert(node_elems(r) =~= node_elems(*smaller).add(node_elems(*bigger)));
        assert(node_elems(*a).add(node_elems(*b)) =~= node_elems(*b).add(node_elems(*a)));
        le_total(node_top(*a), node_top(*b));
        root_is_min(*bigger);
        assert forall|i: int| 0 <= i < n + 1 implies {
            &&& binomial(#[trigger] r.children@[i], i as nat)
            &&& lower_bound(r.elem, node_elems(r.children@[i]))
        } by {
            if i < n {
                assert(r.children@[i] == smaller.children@[i]);
            } else {
                assert forall|x: T| node_elems(*bigger).contains(x) implies le(r.elem, x) by {
                    le_transitive(r.elem, bigger.elem, x);
                }
            }
        }
    }
    r
}

/// The elements of the tree in a slot; none where the slot is empty.
pub closed spec fn slot_elems<T>(slot: Option<Arc<Node<T>>>) -> Multiset<T> {
    match slot {
        None => Multiset::empty(),
        Some(node) => node_elems(node),
    }
}

/// The element at the root of the tree in a slot.
pub closed spec fn slot_top<T>(slot: Option<Arc<Node<T>>>) -> Option<T> {
    match slot {
        None => None,
        Some(node) => Some(node.elem),
    }
}

/// The slot is empty or holds a binomial tree of rank `r` in heap order.
pub closed spec fn slot_wf<T: Ord>(slot: Option<Arc<Node<T>>>, r: nat) -> bool {
    match slot {
        None => true,
        Some(node) => binomial(node, r),
    }
}

/// The elements of all the trees of a forest, with their multiplicities.
pub closed spec fn forest_elems<T>(forest: Seq<Option<Arc<Node<T>>>>) -> Multiset<T>
    decreases forest.len(),
{
    if forest.len() == 0 {
        Multiset::empty()
    } else {
        forest_elems(forest.drop_last()).add(slot_elems(forest.last()))
    }
}

/// The slot at each place `r` of the forest is empty or holds a binomial
/// tree of rank `r` in heap order: so the forest has at most one tree of
/// each rank.
pub open spec fn forest_wf<T: Ord>(forest: Seq<Option<Arc<Node<T>>>>) -> bool {
    forall|r: int| 0 <= r < forest.len() ==> slot_wf(#[trigger] forest[r], r as nat)
}

/// `i` is the place of the last of the least roots of the forest.
pub open spec fn least_root<T: Ord>(forest: Seq<Option<Arc<Node<T>>>>, i: int) -> bool {
    &&& 0 <= i < forest.len()
    &&& slot_top(forest[i]) matches Some(m) && {
        &&& forall|j: int|
            0 <= j < forest.len() ==> (#[trigger] slot_top(forest[j]) matches Some(x) ==> le(m, x))
        &&& forall|j: int|
            i < j < forest.len() ==> (#[trigger] slot_top(forest[j]) matches Some(x) ==> !le(
                x,
                m,
            ))
    }
}

/// The place of the last of the least roots of the forest, if it has a tree.
pub closed spec fn min_slot<T: Ord>(forest: Seq<Option<Arc<Node<T>>>>) -> Option<int>
    decreases forest.len(),
{
    if forest.len() == 0 {
        None
    } else {
        let before = min_slot(forest.drop_last());
        match (slot_top(forest.last()), before) {
            (None, _) => before,
            (Some(x), None) => Some(forest.len() - 1),
            (Some(x), Some(p)) => match slot_top(forest[p]) {
                Some(m) if !le(x, m) => Some(p),
                _ => Some(forest.len() - 1),
            },
        }
    }
}

/// `min_slot` is absent where every slot is empty, and else is the place of
/// the last of the least roots.
pub proof fn min_slot_is_least<T: Ord>(forest: Seq<Option<Arc<Node<T>>>>)
    requires
        crate::order::total_order::<T>(),
    ensures
        match min_slot(forest) {
            None => forall|j: int| 0 <= j < forest.len() ==> #[trigger] slot_top(forest[j]) is None,
            Some(i) => least_root(forest, i),
        },
    decreases forest.len(),
{
    if forest.len() > 0 {
        let front = forest.drop_last();
        let last = forest.len() - 1;
        min_slot_is_least(front);
        assert forall|j: int| 0 <= j < last implies front[j] == forest[j] by {}
        match (slot_top(forest.last()), min_slot(front)) {
            (None, None) => {
                assert forall|j: int| 0 <= j < forest.len() implies #[trigger] slot_top(
                    forest[j],
                ) is None by {
                    if j < last {
                        assert(slot_top(front[j]) is None);
                    }
                }
            },
            (None, Some(p)) => {
                let m = slot_top(forest[p]).unwrap();
                assert(slot_top(front[p]) == Some(m));
                assert forall|j: int| 0 <= j < forest.len() implies (#[trigger] slot_top(
                    forest[j],
                ) matches Some(x) ==> le(m, x)) by {
                    if j < last {
                        assert(slot_top(front[j]) == slot_top(forest[j]));
                    }
                }
                assert forall|j: int| p < j < forest.len() implies (#[trigger] slot_top(
                    forest[j],
                ) matches Some(x) ==> !le(x, m)) by {
                    if j < last {
                        assert(slot_top(front[j]) == slot_top(forest[j]));
                    }
                }
            },
            (Some(x), None) => {
                le_reflexive(x);
                assert forall|j: int| 0 <= j < forest.len() implies (#[trigger] slot_top(
                    forest[j],
                ) matches Some(y) ==> le(x, y)) by {
                    if j < last {
                        assert(slot_top(front[j]) is None);
                    }
                }
            },
            (Some(x), Some(p)) => {
                let m = slot_top(forest[p]).unwrap();
                assert(slot_top(front[p]) == Some(m));
                le_total(x, m);
                le_reflexive(x);
                if !le(x, m) {
                    assert forall|j: int| 0 <= j < forest.len() implies (#[trigger] slot_top(
                        forest[j],
                    ) matches Some(y) ==> le(m, y)) by {
                        if j < last {
                            assert(slot_top(front[j]) == slot_top(forest[j]));
                        }
                    }
                    assert forall|j: int| p < j < forest.len() implies (#[trigger] slot_top(
                        forest[j],
                    ) matches Some(y) ==> !le(y, m)) by {
                        if j < last {
                            assert(slot_top(front[j]) == slot_top(forest[j]));
                        }
                    }
                } else {
                    assert forall|j: int| 0 <= j < forest.len() implies (#[trigger] slot_top(
                        forest[j],
                    ) matches Some(y) ==> le(x, y)) by {
                        if j < last {
                            assert(slot_top(front[j]) == slot_top(forest[j]));
                            if slot_top(forest[j]) is Some {
                                le_transitive(x, m, slot_top(forest[j]).unwrap());
                            }
                        }
                    }
                }
            },
        }
    }
}

/// The place of the least root of the forest; of several, the last.
pub fn min_index<T: Ord>(vec: &Vec<Option<Arc<Node<T>>>>) -> (r: Option<usize>)
    requires
        crate::order::total_order::<T>(),
    ensures
        r is None <==> min_slot(vec@) is None,
        r matches Some(i) ==> min_slot(vec@) == Some(i as int),
        r is None <==> forall|j: int| 0 <= j < vec@.len() ==> #[trigger] slot_top(vec@[j]) is None,
        r matches Some(i) ==> least_root(vec@, i as int),
{
    let mut best: Option<usize> = None;
    let mut i: usize = 0;
    proof {
        assert(vec@.subrange(0, 0).len() == 0);
    }
    while i < vec.len()
        invariant
            crate::order::total_order::<T>(),
            0 <= i <= vec.len(),
            best is None <==> min_slot(vec@.subrange(0, i as int)) is None,
            best matches Some(p) ==> p < i && vec@[p as int] is Some && min_slot(
                vec@.subrange(0, i as int),
            ) == Some(p as int),
        decreases vec.len() - i,
    {
        proof {
            let upto = vec@.subrange(0, i + 1);
            assert(upto.drop_last() =~= vec@.subrange(0, i as int));
            assert(upto.last() == vec@[i as int]);
            if best is Some {
                assert(upto[best.unwrap() as int] == vec@[best.unwrap() as int]);
            }
        }
        match &vec[i] {
            None => {},
            Some(node) => {
                best = match best {
                    None => Some(i),
                    Some(p) => {
                        let least = vec[p].as_ref().unwrap();
                        if less(&least.elem, &node.elem) {
                            Some(p)
                        } else {
                            Some(i)
                        }
                    },
                };
            },
        }
        i = i + 1;
    }
    proof {
        assert(vec@.subrange(0, i as int) =~= vec@);
        min_slot_is_least(vec@);
        if best is Some {
            assert(slot_top(vec@[best.unwrap() as int]) is Some);
        }
    }
    best
}

/// The slot at place `i` of a forest; an empty one past its end.
pub open spec fn slot_of<T>(forest: Seq<Option<Arc<Node<T>>>>, i: int) -> Option<Arc<Node<T>>> {
    if 0 <= i < forest.len() {
        forest[i]
    } else {
        None
    }
}

/// The elements of the trees in the first `i` slots of a forest.
spec fn prefix_elems<T>(forest: Seq<Option<Arc<Node<T>>>>, i: int) -> Multiset<T> {
    if i < forest.len() {
        forest_elems(forest.subrange(0, i))
    } else {
        forest_elems(forest)
    }
}

proof fn prefix_elems_step<T>(forest: Seq<Option<Arc<Node<T>>>>, i: int)
    requires
        0 <= i,
    ensures
        prefix_elems(forest, i + 1) == prefix_elems(forest, i).add(slot_elems(slot_of(forest, i))),
{
    if i < forest.len() {
        let upto = if i + 1 < forest.len() {
            forest.subrange(0, i + 1)
        } else {
            forest
        };
        assert(upto =~= forest.subrange(0, i + 1));
        assert(upto.drop_last() =~= forest.subrange(0, i));
        assert(upto.last() == forest[i]);
    } else {
        assert(prefix_elems(forest, i).add(Multiset::empty()) =~= prefix_elems(forest, i));
    }
}

/// The forest has no empty slot at its end.
pub open spec fn trimmed<T>(forest: Seq<Option<Arc<Node<T>>>>) -> bool {
    forest.len() > 0 ==> forest.last() is Some
}

fn slot_at<T>(forest: &Vec<Option<Arc<Node<T>>>>, i: usize) -> (r: Option<&Arc<Node<T>>>)
    ensures
        match r {
            None => slot_of(forest@, i as int) is None,
            Some(node) => slot_of(forest@, i as int) == Some(*node),
        },
{
    if i < forest.len() {
        match &forest[i] {
            None => None,
            Some(node) => Some(node),
        }
    } else {
        None
    }
}

/// Adds two forests as binary numbers are added: slot by slot from rank 0,
/// two trees of one rank linked into the carry for the next.
fn merge_forests<T: Ord + Clone>(a: &Vec<Option<Arc<Node<T>>>>, b: &Vec<Option<Arc<Node<T>>>>) -> (r:
    Vec<Option<Arc<Node<T>>>>)
    requires
        lawful::<T>(),
        forest_wf(a@),
        forest_wf(b@),
        a@.len() < usize::MAX,
        b@.len() < usize::MAX,
    ensures
        forest_wf(r@),
        trimmed(r@),
        forest_elems(r@) == forest_elems(a@).add(forest_elems(b@)),
{
    let cap = if a.len() >= b.len() {
        a.len() + 1
    } else {
        b.len() + 1
    };
    let mut result: Vec<Option<Arc<Node<T>>>> = Vec::with_capacity(cap);
    let mut c: Option<Arc<Node<T>>> = None;
    let mut i: usize = 0;
    proof {
        assert(prefix_elems(a@, 0) =~= Multiset::empty()) by {
            assert(a@.subrange(0, 0).len() == 0);
        }
        assert(prefix_elems(b@, 0) =~= Multiset::empty()) by {
            assert(b@.subrange(0, 0).len() == 0);
        }
        assert(forest_elems(result@).add(slot_elems(c)) =~= prefix_elems(a@, 0).add(
            prefix_elems(b@, 0),
        ));
    }
    while i < cap
        invariant
            lawful::<T>(),
            forest_wf(a@),
            forest_wf(b@),
            a@.len() < cap,
            b@.len() < cap,
            0 <= i <= cap,
            result@.len() == i,
            forest_wf(result@),
            slot_wf(c, i as nat),
            i == cap ==> c is None,
            forest_elems(result@).add(slot_elems(c)) == prefix_elems(a@, i as int).add(
                prefix_elems(b@, i as int),
            ),
        decreases cap - i,
    {
        let x = slot_at(a, i);
        let y = slot_at(b, i);
        let ghost before = result@;
        let ghost carried = c;
        let (slot, next) = match (x, y, c) {
            (None, None, None) => (None, None),
            (Some(x), None, None) => (Some(another(x)), None),
            (None, Some(y), None) => (Some(another(y)), None),
            (None, None, Some(z)) => (Some(z), None),
            (Some(x), Some(y), None) => (None, Some(link(x, y))),
            (Some(x), None, Some(z)) => (None, Some(link(x, &z))),
            (None, Some(y), Some(z)) => (None, Some(link(y, &z))),
            (Some(x), Some(y), Some(z)) => {
                let linked = link(x, y);
                (Some(z), Some(linked))
            },
        };
        result.push(slot);
        c = next;
        proof {
            prefix_elems_step(a@, i as int);
            prefix_elems_step(b@, i as int);
            assert(result@.drop_last() =~= before);
            assert(result@.last() == slot);
            assert(forest_elems(result@) == forest_elems(before).add(slot_elems(slot)));
            assert(slot_elems(slot).add(slot_elems(next)) =~= slot_elems(carried).add(
                slot_elems(slot_of(a@, i as int)),
            ).add(slot_elems(slot_of(b@, i as int))));
            assert forall|v: T|
                forest_elems(result@).add(slot_elems(c)).count(v) == prefix_elems(a@, i + 1).add(
                    prefix_elems(b@, i + 1),
                ).count(v) by {
                assert(forest_elems(before).add(slot_elems(carried)).count(v) == prefix_elems(
                    a@,
                    i as int,
                ).add(prefix_elems(b@, i as int)).count(v));
                assert(slot_elems(slot).add(slot_elems(next)).count(v) == slot_elems(carried).add(
                    slot_elems(slot_of(a@, i as int)),
                ).add(slot_elems(slot_of(b@, i as int))).count(v));
            }
            assert(forest_elems(result@).add(slot_elems(c)) =~= prefix_elems(a@, i + 1).add(
                prefix_elems(b@, i + 1),
            ));
            assert forall|r: int| 0 <= r < result@.len() implies slot_wf(
                #[trigger] result@[r],
                r as nat,
            ) by {
                if r < i {
                    assert(result@[r] == before[r]);
                }
            }
        }
        i = i + 1;
    }
    while result.len() > 0 && result[result.len() - 1].is_none()
        invariant
            forest_wf(result@),
            forest_elems(result@) == forest_elems(a@).add(forest_elems(b@)),
        decreases result@.len(),
    {
        let ghost before = result@;
        result.pop();
        proof {
            assert(result@ =~= before.drop_last());
            assert(forest_elems(before) =~= forest_elems(result@));
            assert forall|r: int| 0 <= r < result@.len() implies slot_wf(
                #[trigger] result@[r],
                r as nat,
            ) by {
                assert(result@[r] == before[r]);
            }
        }
    }
    result
}

proof fn forest_without<T>(forest: Seq<Option<Arc<Node<T>>>>, i: int)
    requires
        0 <= i < forest.len(),
    ensures
        forest_elems(forest.update(i, None)).add(slot_elems(forest[i])) == forest_elems(forest),
    decreases forest.len(),
{
    let hole = forest.update(i, None);
    if i == forest.len() - 1 {
        assert(hole.drop_last() =~= forest.drop_last());
        assert(forest_elems(hole) =~= forest_elems(forest.drop_last()));
    } else {
        forest_without(forest.drop_last(), i);
        assert(hole.drop_last() =~= forest.drop_last().update(i, None));
        assert(forest.drop_last()[i] == forest[i]);
        assert(forest_elems(hole).add(slot_elems(forest[i])) =~= forest_elems(
            forest.drop_last().update(i, None),
        ).add(slot_elems(forest[i])).add(slot_elems(forest.last())));
    }
}

proof fn forest_holds_slot<T>(forest: Seq<Option<Arc<Node<T>>>>, i: int)
    requires
        0 <= i < forest.len(),
    ensures
        slot_elems(forest[i]).subset_of(forest_elems(forest)),
{
    forest_without(forest, i);
    assert forall|v: T| slot_elems(forest[i]).count(v) <= forest_elems(forest).count(v) by {
        assert(forest_elems(forest.update(i, None)).add(slot_elems(forest[i])).count(v)
            == forest_elems(forest).count(v));
    }
}

proof fn forest_lower_bound<T: Ord>(m: T, forest: Seq<Option<Arc<Node<T>>>>)
    requires
        forall|j: int| 0 <= j < forest.len() ==> lower_bound(m, slot_elems(#[trigger] forest[j])),
    ensures
        lower_bound(m, forest_elems(forest)),
    decreases forest.len(),
{
    if forest.len() > 0 {
        let front = forest.drop_last();
        assert forall|j: int| 0 <= j < front.len() implies lower_bound(
            m,
            slot_elems(#[trigger] front[j]),
        ) by {
            assert(front[j] == forest[j]);
        }
        forest_lower_bound(m, front);
        assert(lower_bound(m, slot_elems(forest[forest.len() - 1])));
    }
}

/// The forest that holds the trees of `kids`, each at the place of its rank.
spec fn kids_forest<T>(kids: Seq<Arc<Node<T>>>) -> Seq<Option<Arc<Node<T>>>> {
    Seq::new(kids.len(), |i: int| Some(kids[i]))
}

proof fn kids_forest_elems<T>(kids: Seq<Arc<Node<T>>>)
    ensures
        forest_elems(kids_forest(kids)) == kids_elems(kids),
    decreases kids.len(),
{
    if kids.len() > 0 {
        kids_forest_elems(kids.drop_last());
        assert(kids_forest(kids).drop_last() =~= kids_forest(kids.drop_last()));
    }
}

/// A forest of `n` slots in heap order of which the last holds a tree, with
/// at most `usize::MAX` elements, has at most 64 slots.
proof fn slots_fit<T: Ord>(forest: Seq<Option<Arc<Node<T>>>>)
    requires
        forest_wf(forest),
        trimmed(forest),
        forest_elems(forest).len() <= usize::MAX,
    ensures
        forest.len() <= 64,
{
    if forest.len() > 0 {
        let top = (forest.len() - 1) as nat;
        assert(slot_wf(forest[top as int], top));
        tree_size(forest.last().unwrap(), top);
        lemma2_to64_rest();
        if top > 64 {
            lemma_pow2_strictly_increases(64, top);
        }
    }
}

fn share_forest<T>(forest: &Vec<Option<Arc<Node<T>>>>) -> (r: Vec<Option<Arc<Node<T>>>>)
    ensures
        r@ == forest@,
{
    let mut r: Vec<Option<Arc<Node<T>>>> = Vec::with_capacity(forest.len());
    let mut i: usize = 0;
    while i < forest.len()
        invariant
            0 <= i <= forest.len(),
            r@ == forest@.subrange(0, i as int),
        decreases forest.len() - i,
    {
        let slot = match &forest[i] {
            None => None,
            Some(node) => Some(another(node)),
        };
        r.push(slot);
        proof {
            assert(r@ =~= forest@.subrange(0, i + 1));
        }
        i = i + 1;
    }
    proof {
        assert(forest@.subrange(0, i as int) =~= forest@);
    }
    r
}

fn forest_of<T>(kids: &Vec<Arc<Node<T>>>) -> (r: Vec<Option<Arc<Node<T>>>>)
    ensures
        r@ == kids_forest(kids@),
{
    let mut r: Vec<Option<Arc<Node<T>>>> = Vec::with_capacity(kids.len());
    let mut i: usize = 0;
    while i < kids.len()
        invariant
            0 <= i <= kids.len(),
            r@ == kids_forest(kids@.subrange(0, i as int)),
        decreases kids.len() - i,
    {
        r.push(Some(another(&kids[i])));
        proof {
            assert(r@ =~= kids_forest(kids@.subrange(0, i + 1)));
        }
        i = i + 1;
    }
    proof {
        assert(kids@.subrange(0, i as int) =~= kids@);
    }
    r
}

impl<T> View for BinomialHeap<T> {
    type V = Multiset<T>;

    /// The elements of the heap, with their multiplicities.
    closed spec fn view(&self) -> Multiset<T> {
        forest_elems(self.trees@)
    }
}

impl<T> BinomialHeap<T> {
    /// The forest that holds the heap's elements: the slot at place `r` is
    /// empty or holds the tree of rank `r`.
    pub closed spec fn forest(&self) -> Seq<Option<Arc<Node<T>>>> {
        self.trees@
    }
}

impl<T: Ord + Clone> Heap<T> for BinomialHeap<T> {
    closed spec fn wf(&self) -> bool {
        &&& forest_wf(self.trees@)
        &&& trimmed(self.trees@)
        &&& forest_elems(self.trees@).len() <= usize::MAX
    }

    closed spec fn first(&self) -> Option<T> {
        match min_slot(self.trees@) {
            None => None,
            Some(i) => slot_top(self.trees@[i]),
        }
    }

    proof fn first_is_min(&self) {
        let forest = self.trees@;
        min_slot_is_least(forest);
        match min_slot(forest) {
            None => {
                if forest.len() > 0 {
                    assert(slot_top(forest[forest.len() - 1]) is None);
                }
                assert(forest_elems(forest) =~= Multiset::empty());
            },
            Some(i) => {
                let m = slot_top(forest[i]).unwrap();
                assert(slot_wf(forest[i], i as nat));
                root_is_min(forest[i].unwrap());
                forest_holds_slot(forest, i);
                assert(forest_elems(forest).count(m) > 0);
                assert forall|j: int| 0 <= j < forest.len() implies lower_bound(
                    m,
                    slot_elems(#[trigger] forest[j]),
                ) by {
                    if forest[j] is Some {
                        let x = slot_top(forest[j]).unwrap();
                        assert(slot_wf(forest[j], j as nat));
                        root_is_min(forest[j].unwrap());
                        assert forall|v: T| slot_elems(forest[j]).contains(v) implies le(m, v) by {
                            le_transitive(m, x, v);
                        }
                    }
                }
                forest_lower_bound(m, forest);
            },
        }
    }

    fn empty() -> (h: Self) {
        BinomialHeap { trees: Vec::new() }
    }

    fn is_empty(&self) -> (r: bool) {
        proof {
            let forest = self.trees@;
            if forest.len() > 0 {
                let top = forest.len() - 1;
                forest_holds_slot(forest, top);
                assert(slot_elems(forest[top]).count(slot_top(forest[top]).unwrap()) > 0);
                assert(forest_elems(forest).count(slot_top(forest[top]).unwrap()) > 0);
            }
        }
        self.trees.is_empty()
    }

    fn insert(&self, item: T) -> (h: Self) {
        let mut single: Vec<Option<Arc<Node<T>>>> = Vec::new();
        single.push(Some(Arc::new(Node { elem: item, children: Vec::new() })));
        proof {
            assert(single@.drop_last() =~= Seq::empty());
            assert(forest_elems(single@.drop_last()) =~= Multiset::empty());
            assert(kids_elems(single@[0].unwrap().children@) =~= Multiset::empty());
            assert(forest_elems(single@) =~= Multiset::empty().insert(item));
            assert(forest_elems(single@).add(self@) =~= self@.insert(item));
            slots_fit(self.trees@);
        }
        BinomialHeap { trees: merge_forests(&single, &self.trees) }
    }

    fn merge(&self, other: &Self) -> (h: Self) {
        proof {
            slots_fit(self.trees@);
            slots_fit(other.trees@);
        }
        BinomialHeap { trees: merge_forests(&self.trees, &other.trees) }
    }

    fn find_min(&self) -> (r: Option<T>) {
        proof {
            self.first_is_min();
        }
        match min_index(&self.trees) {
            None => None,
            Some(index) => Some(duplicate(&self.trees[index].as_ref().unwrap().elem)),
        }
    }

    fn delete_min(&self) -> (h: Self) {
        proof {
            self.first_is_min();
            slots_fit(self.trees@);
        }
        match min_index(&self.trees) {
            None => BinomialHeap { trees: Vec::new() },
            Some(index) => {
                let taken = self.trees[index].as_ref().unwrap();
                let mut old_trees = share_forest(&self.trees);
                old_trees.set(index, None);
                let kids = forest_of(&taken.children);
                proof {
                    let forest = self.trees@;
                    assert(old_trees@ =~= forest.update(index as int, None));
                    forest_without(forest, index as int);
                    kids_forest_elems(taken.children@);
                    assert(slot_wf(forest[index as int], index as nat));
                    assert forall|r: int| 0 <= r < old_trees@.len() implies slot_wf(
                        #[trigger] old_trees@[r],
                        r as nat,
                    ) by {
                        if r != index {
                            assert(slot_wf(forest[r], r as nat));
                        }
                    }
                    assert(forest_elems(old_trees@).add(forest_elems(kids@)) =~= self@.remove(
                        taken.elem,
                    ));
                }
                BinomialHeap { trees: merge_forests(&old_trees, &kids) }
            },
        }
    }
}

/// The sub-tree at place `i` below the root `node`.
pub closed spec fn node_kid<T>(node: Arc<Node<T>>, i: int) -> Arc<Node<T>> {
    node.children@[i]
}

/// Below the root of a binomial tree of rank `r` in heap order stand `r`
/// sub-trees; the one at place `i` is such a tree of rank `i`, and none of
/// its elements is ordered before the root's.
pub proof fn kids_are_binomial<T: Ord>(node: Arc<Node<T>>, r: nat, i: int)
    requires
        binomial(node, r),
        0 <= i < r,
    ensures
        node_rank(node) == r,
        binomial(node_kid(node, i), i as nat),
        lower_bound(node_top(node), node_elems(node_kid(node, i))),
{
}

/// A slot that is well-formed at place `r` and holds a tree holds a
/// binomial tree of rank `r`: one with `r` sub-trees at its root and `2^r`
/// elements.
pub proof fn slot_is_binomial<T: Ord>(slot: Option<Arc<Node<T>>>, r: nat)
    requires
        slot_wf(slot, r),
        slot is Some,
    ensures
        binomial(slot.unwrap(), r),
        node_rank(slot.unwrap()) == r,
        slot_elems(slot).len() == pow2(r),
        slot_top(slot) == Some(node_top(slot.unwrap())),
{
    tree_size(slot.unwrap(), r);
}

/// A well-formed heap is a forest with at most one binomial tree of each
/// rank, without an empty slot at its end, of at most `usize::MAX` elements
/// and so of at most 64 slots.
pub proof fn heap_is_binomial<T: Ord + Clone>(heap: BinomialHeap<T>)
    requires
        heap.wf(),
    ensures
        forest_wf(heap.forest()),
        trimmed(heap.forest()),
        heap@ == forest_elems(heap.forest()),
        heap@.len() <= usize::MAX,
        heap.forest().len() <= 64,
        heap.first() == match min_slot(heap.forest()) {
            None => None,
            Some(i) => slot_top(heap.forest()[i]),
        },
{
    slots_fit(heap.forest());
}

/// Every operation gives such a forest: the empty heap, and what `insert`,
/// `merge` and `delete_min` make of well-formed heaps.
pub proof fn operations_keep_binomial<T: Ord + Clone>(
    heap: BinomialHeap<T>,
    other: BinomialHeap<T>,
    item: T,
    none: BinomialHeap<T>,
    inserted: BinomialHeap<T>,
    merged: BinomialHeap<T>,
    deleted: BinomialHeap<T>,
)
    requires
        lawful::<T>(),
        heap.wf(),
        other.wf(),
        heap@.len() + other@.len() < usize::MAX,
        call_ensures(BinomialHeap::<T>::empty, (), none),
        call_ensures(BinomialHeap::<T>::insert, (&heap, item), inserted),
        call_ensures(BinomialHeap::<T>::merge, (&heap, &other), merged),
        call_ensures(BinomialHeap::<T>::delete_min, (&heap,), deleted),
    ensures
        forest_wf(none.forest()) && trimmed(none.forest()),
        forest_wf(inserted.forest()) && trimmed(inserted.forest()),
        forest_wf(merged.forest()) && trimmed(merged.forest()),
        forest_wf(deleted.forest()) && trimmed(deleted.forest()),
{
}

} // verus!
