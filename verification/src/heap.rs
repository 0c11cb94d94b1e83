//! What every priority queue of this library offers.

use vstd::prelude::*;
use vstd::multiset::Multiset;
use crate::order::lawful;
use crate::order::is_min;
use crate::order::le;
use crate::order::duplicate;

verus! {

/// A persistent priority queue: each operation returns a new heap and leaves
/// the heaps that it was given as they were.
pub trait Heap<T: Ord + Clone>: Sized + View<V = Multiset<T>> {
    /// The invariant of the representation, together with the limit on the
    /// number of elements: at most `usize::MAX`.
    spec fn wf(&self) -> bool;

    /// The element that `find_min` reports and `delete_min` removes.
    spec fn first(&self) -> Option<T>;

    /// `first` is absent exactly on the empty heap, and is a minimum otherwise.
    proof fn first_is_min(&self)
        requires
            lawful::<T>(),
            self.wf(),
        ensures
            self.first() is None <==> self@.len() == 0,
            self.first() matches Some(m) ==> is_min(m, self@),
    ;

    /// The heap without elements.
    fn empty() -> (h: Self)
        ensures
            h.wf(),
            h@ == Multiset::<T>::empty(),
    ;

    /// Whether the heap holds no element.
    fn is_empty(&self) -> (r: bool)
        requires
            self.wf(),
        ensures
            r == (self@.len() == 0),
    ;

    /// The heap with one more occurrence of `item`.
    fn insert(&self, item: T) -> (h: Self)
        requires
            lawful::<T>(),
            self.wf(),
            self@.len() < usize::MAX,
        ensures
            h.wf(),
            h@ == self@.insert(item),
    ;

    /// The heap that holds the elements of both.
    fn merge(&self, other: &Self) -> (h: Self)
        requires
            lawful::<T>(),
            self.wf(),
            other.wf(),
            self@.len() + other@.len() <= usize::MAX,
        ensures
            h.wf(),
            h@ == self@.add(other@),
    ;

    /// A minimum of the heap, or `None` if the heap is empty.
    fn find_min(&self) -> (r: Option<T>)
        requires
            lawful::<T>(),
            self.wf(),
        ensures
            r == self.first(),
            r is None <==> self@.len() == 0,
            r matches Some(m) ==> is_min(m, self@),
    ;

    /// The heap without one occurrence of the minimum that `find_min`
    /// reports; the empty heap if the heap is empty.
    fn delete_min(&self) -> (h: Self)
        requires
            lawful::<T>(),
            self.wf(),
        ensures
            h.wf(),
            h@ == match self.first() {
                None => self@,
                Some(m) => self@.remove(m),
            },
    ;
}

/// The sequence ascends: no element is ordered before an earlier one.
pub open spec fn ascending<T: Ord>(s: Seq<T>) -> bool {
    forall|i: int, j: int| 0 <= i <= j < s.len() ==> le(s[i], s[j])
}

/// The heap that holds the elements of `items`, inserted one by one.
pub fn collect<T: Ord + Clone, H: Heap<T>>(items: &Vec<T>) -> (heap: H)
    requires
        lawful::<T>(),
    ensures
        heap.wf(),
        heap@ == items@.to_multiset(),
{
    let mut heap = H::empty();
    let mut i: usize = 0;
    proof {
        assert(items@.subrange(0, 0) =~= Seq::<T>::empty());
        assert(Seq::<T>::empty().to_multiset() =~= Multiset::<T>::empty()) by {
            Seq::<T>::empty().to_multiset_ensures();
            assert(Seq::<T>::empty().to_multiset().len() == 0);
        }
    }
    while i < items.len()
        invariant
            lawful::<T>(),
            0 <= i <= items.len(),
            heap.wf(),
            heap@ == items@.subrange(0, i as int).to_multiset(),
        decreases items.len() - i,
    {
        let item = duplicate(&items[i]);
        proof {
            let seen = items@.subrange(0, i as int);
            seen.to_multiset_ensures();
            assert(items@.subrange(0, i + 1) =~= seen.push(item));
        }
        heap = heap.insert(item);
        i = i + 1;
    }
    proof {
        assert(items@.subrange(0, i as int) =~= items@);
    }
    heap
}

/// The elements of `heap` in ascending order, taken out minimum by minimum.
pub fn drain<T: Ord + Clone, H: Heap<T>>(heap: H) -> (out: Vec<T>)
    requires
        lawful::<T>(),
        heap.wf(),
    ensures
        out@.to_multiset() == heap@,
        ascending(out@),
{
    let mut out: Vec<T> = Vec::new();
    let mut left = heap;
    proof {
        out@.to_multiset_ensures();
        assert(out@.to_multiset() =~= Multiset::<T>::empty());
        assert(out@.to_multiset().add(left@) =~= heap@);
    }
    loop
        invariant
            lawful::<T>(),
            left.wf(),
            out@.to_multiset().add(left@) == heap@,
            ascending(out@),
            forall|i: int, x: T| 0 <= i < out@.len() && left@.contains(x) ==> le(out@[i], x),
        ensures
            out@.to_multiset() == heap@,
            ascending(out@),
        decreases left@.len(),
    {
        match left.find_min() {
            None => {
                proof {
                    assert(left@ =~= Multiset::<T>::empty());
                    assert(out@.to_multiset().add(left@) =~= out@.to_multiset());
                }
                break ;
            },
            Some(m) => {
                let ghost before = out@;
                let ghost had = left@;
                left = left.delete_min();
                out.push(m);
                proof {
                    before.to_multiset_ensures();
                    assert(out@ =~= before.push(m));
                    assert(out@.to_multiset().add(left@) =~= before.to_multiset().add(had));
                    assert forall|i: int, x: T| 0 <= i < out@.len() && left@.contains(
                        x,
                    ) implies le(out@[i], x) by {
                        assert(had.contains(x));
                    }
                }
            },
        }
    }
    out
}

/// The elements of `items` in ascending order, by way of the heap `H`.
pub fn heap_sort<T: Ord + Clone, H: Heap<T>>(items: &Vec<T>) -> (out: Vec<T>)
    requires
        lawful::<T>(),
    ensures
        out@.to_multiset() == items@.to_multiset(),
        ascending(out@),
{
    let heap: H = collect(items);
    drain(heap)
}

/// Where elements that rank equal are the same, a multiset has one ascending
/// order only.
pub proof fn ascending_is_unique<T: Ord>(s: Seq<T>, t: Seq<T>)
    requires
        crate::order::total_order::<T>(),
        crate::order::antisymmetric::<T>(),
        ascending(s),
        ascending(t),
        s.to_multiset() == t.to_multiset(),
    ensures
        s == t,
    decreases s.len(),
{
    s.to_multiset_ensures();
    t.to_multiset_ensures();
    if s.len() == 0 {
        assert(s =~= t);
    } else {
        assert(s.contains(s[0]));
        assert(t.contains(t[0]));
        assert(t.to_multiset().count(s[0]) > 0);
        assert(s.to_multiset().count(t[0]) > 0);
        let j = choose|j: int| 0 <= j < t.len() && t[j] == s[0];
        let k = choose|k: int| 0 <= k < s.len() && s[k] == t[0];
        assert(le(t[0], t[j]));
        assert(le(s[0], s[k]));
        assert(s[0] == t[0]);
        let s1 = s.remove(0);
        let t1 = t.remove(0);
        vstd::seq_lib::to_multiset_remove(s, 0);
        vstd::seq_lib::to_multiset_remove(t, 0);
        assert forall|i: int, j: int| 0 <= i <= j < s1.len() implies le(s1[i], s1[j]) by {
            assert(s1[i] == s[i + 1] && s1[j] == s[j + 1]);
        }
        assert forall|i: int, j: int| 0 <= i <= j < t1.len() implies le(t1[i], t1[j]) by {
            assert(t1[i] == t[i + 1] && t1[j] == t[j + 1]);
        }
        ascending_is_unique(s1, t1);
        assert forall|i: int| 0 <= i < s.len() implies s[i] == t[i] by {
            if i > 0 {
                assert(s1[i - 1] == s[i]);
                assert(t1[i - 1] == t[i]);
            }
        }
        assert(s =~= t);
    }
}

} // verus!
