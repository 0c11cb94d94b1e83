use persistent_heaps::heap::{collect, drain, heap_sort, Heap};
use persistent_heaps::leftist_heap::{link, rank, IntoIter, LeftistHeap};
use std::iter::FromIterator;

fn send<T: Send>() {}

fn sync<T: Sync>() {}

fn ordered(heap: LeftistHeap<i32>) -> Vec<i32> {
    let mut iter: IntoIter<i32> = heap.into_iter();
    let mut out = Vec::new();
    while let Some(item) = iter.next() {
        out.push(item);
    }
    out
}

#[test]
fn leftist_heap_basics() {
    let heap: LeftistHeap<i32> = Heap::empty();
    assert_eq!(heap.find_min(), None);

    let heap = heap.insert(2).insert(1).insert(3);
    assert_eq!(heap.find_min(), Some(1));

    let heap = heap.delete_min();
    assert_eq!(heap.find_min(), Some(2));

    let heap = heap.delete_min();
    assert_eq!(heap.find_min(), Some(3));

    let heap = heap.delete_min();
    assert_eq!(heap.find_min(), None);

    let heap = heap.delete_min();
    assert_eq!(heap.find_min(), None);
}

#[test]
fn merge_and_iter() {
    let empty = LeftistHeap::<i32>::empty();
    let h1 = empty.insert(5).insert(1).insert(7).insert(3);
    let h2 = empty.insert(2).insert(6).insert(4);

    let merged = h1.merge(&h2);
    let ordered = ordered(merged);
    let sequence = Vec::<i32>::from_iter(1..8);
    assert_eq!(ordered, sequence);
}

#[test]
fn from_iter() {
    let items = vec![5, 1, 7, 3, 2, 6, 4];
    let heap = LeftistHeap::<i32>::from_iter(items);

    let ordered = ordered(heap);
    let sequence = Vec::<i32>::from_iter(1..8);
    assert_eq!(ordered, sequence);
}

#[test]
fn from_iter_empty() {
    let items = vec![];
    let heap = LeftistHeap::<i32>::from_iter(items);

    let ordered = ordered(heap);
    assert_eq!(ordered.len(), 0);
}

#[test]
fn leftist_heap_thread_safety() {
    send::<LeftistHeap<i32>>();

    sync::<LeftistHeap<i32>>();

    assert!(true);
}

#[test]
fn heap_quickchecks() {
    let mut seed: u64 = 0x9e37_79b9_7f4a_7c15;
    for round in 0..300usize {
        let len = round % 71;
        let mut input: Vec<i32> = Vec::new();
        for _ in 0..len {
            seed = seed.wrapping_mul(6364136223846793005).wrapping_add(1442695040888963407);
            input.push(((seed >> 33) % 1000) as i32 - 500);
        }
        let mut heap: LeftistHeap<i32> = Heap::empty();
        for item in input.iter() {
            heap = heap.insert(item.clone());
        }
        let mut output: Vec<i32> = vec![];
        loop {
            if heap.is_empty() {
                break;
            }
            output.push(heap.find_min().unwrap());
            heap = heap.delete_min();
        }
        input.sort();
        assert_eq!(input, output);
    }
}

#[test]
fn leftist_empty_heap_is_empty() {
    let heap: LeftistHeap<i32> = Heap::empty();
    assert!(heap.is_empty());
    assert!(heap.delete_min().is_empty());
    assert_eq!(heap.delete_min().find_min(), None);
    assert!(!heap.insert(1).is_empty());
    assert!(heap.insert(1).delete_min().is_empty());
}

#[test]
fn leftist_merge_holds_both() {
    let empty: LeftistHeap<i32> = Heap::empty();
    let h1 = empty.insert(5).insert(1).insert(7).insert(3);
    let h2 = empty.insert(2).insert(6).insert(4);
    assert_eq!(ordered(h2.merge(&h1)), vec![1, 2, 3, 4, 5, 6, 7]);
    assert_eq!(ordered(h1.merge(&empty)), vec![1, 3, 5, 7]);
    assert_eq!(ordered(empty.merge(&h2)), vec![2, 4, 6]);
    assert_eq!(ordered(h1.merge(&h1)), vec![1, 1, 3, 3, 5, 5, 7, 7]);
    assert!(empty.merge(&empty).is_empty());
}

#[test]
fn leftist_older_versions_stay() {
    let empty: LeftistHeap<i32> = Heap::empty();
    let h1 = empty.insert(5).insert(3).insert(8);
    let h2 = h1.insert(1);
    let h3 = h1.delete_min();
    let h4 = h1.merge(&h2);
    assert_eq!(h1.find_min(), Some(3));
    assert_eq!(h2.find_min(), Some(1));
    assert_eq!(h3.find_min(), Some(5));
    assert_eq!(h4.find_min(), Some(1));
    assert_eq!(ordered(h1), vec![3, 5, 8]);
    assert_eq!(ordered(h2), vec![1, 3, 5, 8]);
    assert_eq!(ordered(h3), vec![5, 8]);
    assert_eq!(ordered(h4), vec![1, 3, 3, 5, 5, 8, 8]);
}

#[test]
fn leftist_iteration_ends() {
    let heap = LeftistHeap::<i32>::from_iter(vec![2, 1]);
    let mut iter = heap.into_iter();
    assert_eq!(iter.next(), Some(1));
    assert_eq!(iter.next(), Some(2));
    assert_eq!(iter.next(), None);
    assert_eq!(iter.next(), None);
}

#[test]
fn leftist_from_iter_keeps_duplicates() {
    let heap = LeftistHeap::<i32>::from_iter(vec![3, 3, 1, 2, 1, 3]);
    assert_eq!(heap.find_min(), Some(1));
    assert_eq!(ordered(heap), vec![1, 1, 2, 3, 3, 3]);
    let one = LeftistHeap::<i32>::from_iter(vec![42]);
    assert_eq!(ordered(one), vec![42]);
}

#[test]
fn leftist_from_iter_sorts_many_inputs() {
    let mut seed: u64 = 0x0123_4567_89ab_cdef;
    for round in 0..200usize {
        let len = round % 97;
        let mut input: Vec<i32> = Vec::new();
        for _ in 0..len {
            seed = seed.wrapping_mul(6364136223846793005).wrapping_add(1442695040888963407);
            input.push(((seed >> 33) % 61) as i32 - 30);
        }
        let mut expected = input.clone();
        expected.sort();
        assert_eq!(ordered(LeftistHeap::<i32>::from_iter(input.clone())), expected);
        assert_eq!(heap_sort::<i32, LeftistHeap<i32>>(&input), expected);
    }
}

#[test]
fn leftist_heap_sort_sorts() {
    let input = vec![5, 1, 7, 3, 2, 6, 4];
    assert_eq!(heap_sort::<i32, LeftistHeap<i32>>(&input), vec![1, 2, 3, 4, 5, 6, 7]);
    assert_eq!(heap_sort::<i32, LeftistHeap<i32>>(&Vec::new()), Vec::<i32>::new());
    assert_eq!(
        heap_sort::<i32, LeftistHeap<i32>>(&vec![3, -1, 3, i32::MIN, i32::MAX, 0, -1]),
        vec![i32::MIN, -1, -1, 0, 3, 3, i32::MAX]
    );
}

#[test]
fn leftist_collect_and_drain() {
    let heap: LeftistHeap<i32> = collect(&vec![10, 30, 20, 10]);
    assert_eq!(heap.find_min(), Some(10));
    assert_eq!(drain(heap), vec![10, 10, 20, 30]);
}

#[test]
fn leftist_link_and_rank() {
    assert_eq!(rank::<i32>(&None), 0);
    let leaf = link(1, 4, None, None);
    assert_eq!(rank(&leaf), 1);
    let above = link(2, 3, leaf.clone(), leaf);
    assert_eq!(rank(&above), 2);
}
