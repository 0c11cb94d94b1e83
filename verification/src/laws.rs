//! Laws that relate the operations of a heap to one another.
//!
//! Each law speaks of the values that calls return: `call_ensures(f, args, r)`
//! says that `r` is a value that the call of `f` on `args` may return.

use vstd::prelude::*;
use vstd::multiset::Multiset;
use crate::heap::Heap;
use crate::order::lawful;
use crate::order::is_min;
use crate::order::antisymmetric;
use crate::heap::ascending;
use crate::heap::ascending_is_unique;
use crate::heap::collect;
use crate::heap::drain;
use crate::heap::heap_sort;

verus! {

/// A merge holds the elements of both heaps, each as often as the two hold
/// it together, whichever heap comes first.
pub proof fn merge_is_additive<T: Ord + Clone, H: Heap<T>>(a: H, b: H, ab: H, ba: H)
    requires
        lawful::<T>(),
        a.wf(),
        b.wf(),
        a@.len() + b@.len() <= usize::MAX,
        call_ensures(H::merge, (&a, &b), ab),
        call_ensures(H::merge, (&b, &a), ba),
    ensures
        ab@ == a@.add(b@),
        ab@ == ba@,
        forall|x: T| ab@.count(x) == a@.count(x) + b@.count(x),
        ab@.len() == a@.len() + b@.len(),
{
    assert(a@.add(b@) =~= b@.add(a@));
}

/// Inserting an element is merging with the heap of that one element.
pub proof fn insert_is_merge<T: Ord + Clone, H: Heap<T>>(
    heap: H,
    item: T,
    none: H,
    single: H,
    inserted: H,
    merged: H,
)
    requires
        lawful::<T>(),
        heap.wf(),
        heap@.len() < usize::MAX,
        call_ensures(H::empty, (), none),
        call_ensures(H::insert, (&none, item), single),
        call_ensures(H::insert, (&heap, item), inserted),
        call_ensures(H::merge, (&single, &heap), merged),
    ensures
        inserted@ == merged@,
{
    assert(single@ =~= Multiset::empty().insert(item));
    assert(single@.add(heap@) =~= heap@.insert(item));
}

/// A heap is not touched by what is derived from it: whatever `find_min`,
/// `is_empty` and `delete_min` gave of `heap` before an element was inserted
/// into it, another heap merged with it and its minimum deleted, they give
/// after.
pub proof fn persistence<T: Ord + Clone, H: Heap<T>>(
    heap: H,
    item: T,
    other: H,
    min_before: Option<T>,
    empty_before: bool,
    rest_before: H,
    inserted: H,
    merged: H,
    deleted: H,
    min_after: Option<T>,
    empty_after: bool,
    rest_after: H,
)
    requires
        lawful::<T>(),
        heap.wf(),
        other.wf(),
        heap@.len() + other@.len() < usize::MAX,
        call_ensures(H::find_min, (&heap,), min_before),
        call_ensures(H::is_empty, (&heap,), empty_before),
        call_ensures(H::delete_min, (&heap,), rest_before),
        call_ensures(H::insert, (&heap, item), inserted),
        call_ensures(H::merge, (&heap, &other), merged),
        call_ensures(H::delete_min, (&heap,), deleted),
        call_ensures(H::find_min, (&heap,), min_after),
        call_ensures(H::is_empty, (&heap,), empty_after),
        call_ensures(H::delete_min, (&heap,), rest_after),
    ensures
        min_after == min_before,
        empty_after == empty_before,
        rest_after@ == rest_before@,
{
}

/// The empty heap has no minimum, and deleting its minimum leaves it empty.
pub proof fn empty_stays_empty<T: Ord + Clone, H: Heap<T>>(
    none: H,
    min: Option<T>,
    deleted: H,
    empty: bool,
)
    requires
        lawful::<T>(),
        call_ensures(H::empty, (), none),
        call_ensures(H::find_min, (&none,), min),
        call_ensures(H::delete_min, (&none,), deleted),
        call_ensures(H::is_empty, (&deleted,), empty),
    ensures
        min is None,
        deleted.wf(),
        deleted@ == none@,
        deleted@ == Multiset::<T>::empty(),
        empty,
{
    none.first_is_min();
}

/// What `find_min` reports is an element of the heap that none of the heap
/// is ordered before, and `delete_min` removes one occurrence of it and
/// nothing else.
pub proof fn delete_min_removes_find_min<T: Ord + Clone, H: Heap<T>>(
    heap: H,
    min: Option<T>,
    rest: H,
)
    requires
        lawful::<T>(),
        heap.wf(),
        call_ensures(H::find_min, (&heap,), min),
        call_ensures(H::delete_min, (&heap,), rest),
    ensures
        rest.wf(),
        match min {
            None => heap@.len() == 0 && rest@ == heap@,
            Some(m) => {
                &&& is_min(m, heap@)
                &&& rest@ == heap@.remove(m)
                &&& rest@.insert(m) == heap@
                &&& rest@.len() + 1 == heap@.len()
            },
        },
{
    if min is Some {
        let m = min.unwrap();
        assert(heap@.remove(m).insert(m) =~= heap@);
    }
}

/// Inserting elements one by one, in whatever order, and then taking the
/// minimum out until none is left gives the elements in ascending order.
pub proof fn insert_then_drain_sorts<T: Ord + Clone, H: Heap<T>>(
    items: Vec<T>,
    heap: H,
    out: Vec<T>,
)
    requires
        lawful::<T>(),
        call_ensures(collect::<T, H>, (&items,), heap),
        call_ensures(drain::<T, H>, (heap,), out),
    ensures
        ascending(out@),
        out@.to_multiset() == items@.to_multiset(),
        out@.len() == items@.len(),
{
    out@.to_multiset_ensures();
    items@.to_multiset_ensures();
}

/// Where elements that rank equal are the same, sorting by a heap gives the
/// one ascending order of the input: what any other sorting gives.
pub proof fn heap_sort_is_sorting<T: Ord + Clone, H: Heap<T>>(
    items: Vec<T>,
    out: Vec<T>,
    sorted: Seq<T>,
)
    requires
        lawful::<T>(),
        antisymmetric::<T>(),
        call_ensures(heap_sort::<T, H>, (&items,), out),
        ascending(sorted),
        sorted.to_multiset() == items@.to_multiset(),
    ensures
        out@ == sorted,
{
    ascending_is_unique(out@, sorted);
}

} // verus!
