use algors::heap::Heap;

#[test]
fn test_basic_min_heap_operations() {
    let mut heap = Heap::new(|a: &i32, b: &i32| a.cmp(b));
    assert!(heap.is_empty());
    assert_eq!(heap.len(), 0);
    assert_eq!(heap.peek(), None);
    assert_eq!(heap.pop(), None);

    // Push elements
    heap.push(10);
    heap.push(5);
    heap.push(15);
    heap.push(2);
    heap.push(8);

    assert!(!heap.is_empty());
    assert_eq!(heap.len(), 5);
    assert_eq!(heap.peek(), Some(&2));

    // verify ascending order
    assert_eq!(heap.pop(), Some(2));
    assert_eq!(heap.peek(), Some(&5));
    assert_eq!(heap.len(), 4);

    assert_eq!(heap.pop(), Some(5));
    assert_eq!(heap.pop(), Some(8));
    assert_eq!(heap.pop(), Some(10));
    assert_eq!(heap.pop(), Some(15));

    // should be empty
    assert!(heap.is_empty());
    assert_eq!(heap.len(), 0);
    assert_eq!(heap.peek(), None);
    assert_eq!(heap.pop(), None);
}

#[test]
fn test_basic_max_heap_operations() {
    let mut heap = Heap::new(|a: &i32, b: &i32| b.cmp(a));

    heap.push(10);
    heap.push(5);
    heap.push(15);
    heap.push(2);
    heap.push(8);

    assert_eq!(heap.peek(), Some(&15));

    // verify descending order
    assert_eq!(heap.pop(), Some(15));
    assert_eq!(heap.pop(), Some(10));
    assert_eq!(heap.pop(), Some(8));
    assert_eq!(heap.pop(), Some(5));
    assert_eq!(heap.pop(), Some(2));
    assert_eq!(heap.pop(), None);
}

#[test]
fn test_single_element() {
    let mut heap = Heap::new(|a: &i32, b: &i32| a.cmp(b));
    heap.push(42);
    assert_eq!(heap.len(), 1);
    assert_eq!(heap.peek(), Some(&42));
    assert_eq!(heap.pop(), Some(42));
    assert_eq!(heap.pop(), None);
    assert!(heap.is_empty());
}

#[test]
fn test_duplicate_elements() {
    let mut heap = Heap::new(|a: &i32, b: &i32| a.cmp(b));
    let elements = vec![5, 2, 5, 8, 2, 8, 5];
    for &val in &elements {
        heap.push(val);
    }
    assert_eq!(heap.len(), elements.len());

    let mut popped = Vec::new();
    while let Some(val) = heap.pop() {
        popped.push(val);
    }

    let mut expected = elements;
    expected.sort();
    assert_eq!(popped, expected);
}

/// Draining gives the elements sorted, for many inputs.
#[test]
fn test_heap_sorts_random_inputs() {
    let mut seed: u64 = 0x2545_f491_4f6c_dd1d;
    for round in 0..50usize {
        let mut heap = Heap::new(|a: &i32, b: &i32| a.cmp(b));
        let mut input = Vec::new();
        for _ in 0..(round * 4) {
            seed ^= seed << 13;
            seed ^= seed >> 7;
            seed ^= seed << 17;
            let v = (seed % 1000) as i32 - 500;
            input.push(v);
            heap.push(v);
        }
        let mut popped = Vec::new();
        while let Some(v) = heap.pop() {
            popped.push(v);
        }
        input.sort();
        assert_eq!(popped, input);
    }
}

/// A comparison on a key keeps elements with equal keys.
#[test]
fn test_heap_by_key_keeps_ties() {
    let mut heap = Heap::new(|a: &(u8, char), b: &(u8, char)| a.0.cmp(&b.0));
    heap.push((3, 'a'));
    heap.push((1, 'b'));
    heap.push((3, 'c'));
    heap.push((1, 'd'));
    let mut keys = Vec::new();
    let mut tags = Vec::new();
    while let Some((k, t)) = heap.pop() {
        keys.push(k);
        tags.push(t);
    }
    assert_eq!(keys, vec![1, 1, 3, 3]);
    tags.sort();
    assert_eq!(tags, vec!['a', 'b', 'c', 'd']);
}
