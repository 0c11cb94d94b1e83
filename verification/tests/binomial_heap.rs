use persistent_heaps::binomial_heap::BinomialHeap;
use persistent_heaps::heap::{collect, drain, heap_sort, Heap};

fn is_send<T: Send>() {}

fn is_sync<T: Sync>() {}

fn emptied(mut heap: BinomialHeap<i32>) -> Vec<i32> {
    let mut out = Vec::new();
    while !heap.is_empty() {
        out.push(heap.find_min().unwrap());
        heap = heap.delete_min();
    }
    out
}

#[test]
fn binomial_heap_basics() {
    let heap: BinomialHeap<i32> = Heap::empty();
    assert_eq!(heap.find_min(), None);

    let heap = heap.insert(2).insert(1).insert(3);
    assert_eq!(heap.find_min(), Some(1));

    let heap = heap.delete_min();
    assert_eq!(heap.find_min(), Some(2));

    let heap = heap.delete_min();
    assert_eq!(heap.find_min(), Some(3));

    let heap = heap.delete_min();
    assert_eq!(heap.find_min(), None);

    let heap = heap.delete_min();
    assert_eq!(heap.find_min(), None);
}

#[test]
fn binomial_heap_thread_safety() {
    is_send::<BinomialHeap<i32>>();

    is_sync::<BinomialHeap<i32>>();

    assert!(true);
}

#[test]
fn binomial_empty_heap_is_empty() {
    let heap: BinomialHeap<i32> = Heap::empty();
    assert!(heap.is_empty());
    assert!(heap.delete_min().is_empty());
    assert_eq!(heap.delete_min().find_min(), None);
}

#[test]
fn binomial_is_empty_after_last_delete() {
    let heap: BinomialHeap<i32> = Heap::empty();
    let one = heap.insert(7);
    assert!(!one.is_empty());
    let none = one.delete_min();
    assert!(none.is_empty());
    assert_eq!(none.find_min(), None);

    let three = heap.insert(4).insert(9).insert(1);
    let none = three.delete_min().delete_min().delete_min();
    assert!(none.is_empty());
    let again = none.insert(5);
    assert!(!again.is_empty());
    assert_eq!(again.find_min(), Some(5));
}

#[test]
fn binomial_merge_holds_both() {
    let empty: BinomialHeap<i32> = Heap::empty();
    let h1 = empty.insert(5).insert(1).insert(7).insert(3);
    let h2 = empty.insert(2).insert(6).insert(4);
    assert_eq!(emptied(h1.merge(&h2)), vec![1, 2, 3, 4, 5, 6, 7]);
    assert_eq!(emptied(h2.merge(&h1)), vec![1, 2, 3, 4, 5, 6, 7]);
    assert_eq!(emptied(h1.merge(&empty)), vec![1, 3, 5, 7]);
    assert_eq!(emptied(empty.merge(&h2)), vec![2, 4, 6]);
    assert!(empty.merge(&empty).is_empty());
}

#[test]
fn binomial_merge_with_itself_doubles() {
    let empty: BinomialHeap<i32> = Heap::empty();
    let h = empty.insert(2).insert(1).insert(3);
    assert_eq!(emptied(h.merge(&h)), vec![1, 1, 2, 2, 3, 3]);
}

#[test]
fn binomial_keeps_duplicates() {
    let empty: BinomialHeap<i32> = Heap::empty();
    let h = empty.insert(4).insert(4).insert(1).insert(4).insert(1);
    assert_eq!(emptied(h), vec![1, 1, 4, 4, 4]);
}

#[test]
fn binomial_older_versions_stay() {
    let empty: BinomialHeap<i32> = Heap::empty();
    let h1 = empty.insert(5).insert(3).insert(8);
    let h2 = h1.insert(1);
    let h3 = h1.delete_min();
    let h4 = h1.merge(&h2);
    assert_eq!(h1.find_min(), Some(3));
    assert_eq!(h2.find_min(), Some(1));
    assert_eq!(h3.find_min(), Some(5));
    assert_eq!(h4.find_min(), Some(1));
    assert_eq!(emptied(h1), vec![3, 5, 8]);
    assert_eq!(emptied(h2), vec![1, 3, 5, 8]);
    assert_eq!(emptied(h3), vec![5, 8]);
    assert_eq!(emptied(h4), vec![1, 3, 3, 5, 5, 8, 8]);
    assert!(empty.is_empty());
}

#[test]
fn binomial_heap_sort_sorts() {
    let input = vec![5, 1, 7, 3, 2, 6, 4];
    assert_eq!(heap_sort::<i32, BinomialHeap<i32>>(&input), vec![1, 2, 3, 4, 5, 6, 7]);
    assert_eq!(heap_sort::<i32, BinomialHeap<i32>>(&Vec::new()), Vec::<i32>::new());
    assert_eq!(heap_sort::<i32, BinomialHeap<i32>>(&vec![9]), vec![9]);
    assert_eq!(
        heap_sort::<i32, BinomialHeap<i32>>(&vec![3, -1, 3, i32::MIN, i32::MAX, 0, -1]),
        vec![i32::MIN, -1, -1, 0, 3, 3, i32::MAX]
    );
}

#[test]
fn binomial_collect_and_drain() {
    let heap: BinomialHeap<i32> = collect(&vec![10, 30, 20, 10]);
    assert_eq!(heap.find_min(), Some(10));
    assert_eq!(drain(heap), vec![10, 10, 20, 30]);
}

#[test]
fn binomial_sorts_many_inputs() {
    let mut seed: u64 = 0x2545_f491_4f6c_dd1d;
    for round in 0..200usize {
        let len = round % 67;
        let mut input: Vec<i32> = Vec::new();
        for _ in 0..len {
            seed = seed.wrapping_mul(6364136223846793005).wrapping_add(1442695040888963407);
            input.push(((seed >> 33) % 41) as i32 - 20);
        }
        let mut heap: BinomialHeap<i32> = Heap::empty();
        for item in input.iter() {
            heap = heap.insert(*item);
        }
        let output = emptied(heap);
        let mut expected = input.clone();
        expected.sort();
        assert_eq!(output, expected);
        assert_eq!(heap_sort::<i32, BinomialHeap<i32>>(&input), expected);
    }
}

#[test]
fn binomial_heap_of_strings() {
    let empty: BinomialHeap<String> = Heap::empty();
    let h = empty
        .insert(String::from("pear"))
        .insert(String::from("apple"))
        .insert(String::from("fig"));
    assert_eq!(h.find_min(), Some(String::from("apple")));
    assert_eq!(h.delete_min().find_min(), Some(String::from("fig")));
}
