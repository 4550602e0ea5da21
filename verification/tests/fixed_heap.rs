use hamming_heap::FixedHammingHeap;

fn distances_of(heap: &FixedHammingHeap<u32>) -> Vec<u32> {
    let mut out: Vec<u32> = Vec::new();
    for (distance, _) in heap.iter() {
        out.push(distance);
    }
    out
}

fn items_of(heap: &FixedHammingHeap<u32>) -> Vec<u32> {
    let mut out: Vec<u32> = Vec::new();
    for (_, item) in heap.iter() {
        out.push(*item);
    }
    out
}

#[test]
fn test_fixed_heap() {
    let mut candidates: FixedHammingHeap<u32> = FixedHammingHeap::new();
    candidates.set_distances(11);
    candidates.set_capacity(3);
    assert!(candidates.push(5, 0));
    assert!(candidates.push(4, 1));
    assert!(candidates.push(3, 2));
    assert!(!candidates.push(6, 3));
    assert!(!candidates.push(7, 4));
    assert!(candidates.push(2, 5));
    assert!(candidates.push(3, 6));
    assert!(!candidates.push(10, 7));
    assert!(!candidates.push(6, 8));
    assert!(!candidates.push(4, 9));
    assert!(candidates.push(1, 10));
    assert!(candidates.push(2, 11));
    let mut arr = [0; 3];
    candidates.fill_slice(&mut arr);
    arr[1..3].sort_unstable();
    assert_eq!(arr, [10, 5, 11]);
}

#[test]
fn retained_distances_are_the_smallest() {
    let mut heap: FixedHammingHeap<u32> = FixedHammingHeap::new_distances(11);
    heap.set_capacity(3);
    let pushes: [u32; 12] = [5, 4, 3, 6, 7, 2, 3, 10, 6, 4, 1, 2];
    let mut id: u32 = 0;
    for distance in pushes {
        heap.push(distance, id);
        assert!(heap.len() <= 3);
        id += 1;
    }
    assert_eq!(distances_of(&heap), vec![1, 2, 2]);
    assert_eq!(heap.len(), 3);
    assert_eq!(heap.worst(), 2);
}

#[test]
fn ties_keep_the_items_pushed_first() {
    let mut heap: FixedHammingHeap<u32> = FixedHammingHeap::new_distances(4);
    heap.set_capacity(2);
    assert!(heap.push(3, 100));
    assert!(heap.push(3, 101));
    assert!(!heap.push(3, 102));
    assert!(heap.push(1, 103));
    assert_eq!(items_of(&heap), vec![103, 100]);
    assert_eq!(distances_of(&heap), vec![1, 3]);
}

#[test]
fn fewer_pushes_than_capacity_are_all_kept() {
    let mut heap: FixedHammingHeap<u32> = FixedHammingHeap::new_distances(9);
    heap.set_capacity(5);
    assert!(heap.push(8, 1));
    assert!(heap.push(0, 2));
    assert!(heap.push(8, 3));
    assert_eq!(heap.len(), 3);
    assert!(!heap.at_cap());
    assert_eq!(heap.worst(), 8);
    assert_eq!(items_of(&heap), vec![2, 1, 3]);
}

#[test]
fn worst_is_the_last_distance_until_full() {
    let mut heap: FixedHammingHeap<u32> = FixedHammingHeap::new_distances(11);
    heap.set_capacity(2);
    assert_eq!(heap.worst(), 10);
    heap.push(4, 0);
    assert_eq!(heap.worst(), 10);
    assert!(!heap.at_cap());
    heap.push(6, 1);
    assert!(heap.at_cap());
    assert_eq!(heap.worst(), 6);
    heap.push(1, 2);
    assert_eq!(heap.worst(), 4);
    heap.push(0, 3);
    assert_eq!(heap.worst(), 1);
}

#[test]
fn largest_distance_is_accepted() {
    let mut heap: FixedHammingHeap<u32> = FixedHammingHeap::new_distances(129);
    heap.set_capacity(3);
    assert!(heap.push(128, 7));
    assert_eq!(heap.len(), 1);
    assert_eq!(distances_of(&heap), vec![128]);
}

#[test]
fn full_heap_rejects_the_worst_distance() {
    let mut heap: FixedHammingHeap<u32> = FixedHammingHeap::new_distances(5);
    heap.set_capacity(1);
    assert!(heap.push(4, 0));
    assert!(!heap.push(4, 1));
    assert!(heap.push(3, 2));
    assert_eq!(items_of(&heap), vec![2]);
}

#[test]
fn push_at_cap_does_what_push_does() {
    let mut a: FixedHammingHeap<u32> = FixedHammingHeap::new_distances(11);
    let mut b: FixedHammingHeap<u32> = FixedHammingHeap::new_distances(11);
    a.set_capacity(2);
    b.set_capacity(2);
    for (distance, item) in [(7u32, 0u32), (5, 1)] {
        a.push(distance, item);
        b.push(distance, item);
    }
    assert!(a.at_cap());
    for (distance, item) in [(9u32, 2u32), (5, 3), (4, 4), (0, 5), (0, 6), (0, 7)] {
        assert_eq!(a.push(distance, item), b.push_at_cap(distance, item));
        assert_eq!(items_of(&a), items_of(&b));
        assert_eq!(a.worst(), b.worst());
    }
    assert_eq!(items_of(&a), vec![5, 6]);
}

#[test]
fn smaller_capacity_evicts_the_worst() {
    let mut heap: FixedHammingHeap<u32> = FixedHammingHeap::new_distances(11);
    heap.set_capacity(5);
    heap.push(1, 10);
    heap.push(9, 11);
    heap.push(3, 12);
    heap.push(7, 13);
    heap.push(5, 14);
    heap.set_capacity(2);
    assert_eq!(heap.len(), 2);
    assert!(heap.at_cap());
    assert_eq!(items_of(&heap), vec![10, 12]);
    assert_eq!(distances_of(&heap), vec![1, 3]);
    assert_eq!(heap.worst(), 3);
    assert!(!heap.push(3, 15));
    assert!(heap.push(2, 16));
    assert_eq!(items_of(&heap), vec![10, 16]);
}

#[test]
fn larger_capacity_keeps_everything() {
    let mut heap: FixedHammingHeap<u32> = FixedHammingHeap::new_distances(11);
    heap.set_capacity(2);
    heap.push(6, 0);
    heap.push(2, 1);
    assert_eq!(heap.worst(), 6);
    heap.set_capacity(4);
    assert_eq!(heap.len(), 2);
    assert_eq!(heap.worst(), 10);
    assert!(heap.push(9, 2));
    assert_eq!(items_of(&heap), vec![1, 0, 2]);
}

#[test]
fn set_len_cuts_from_the_worst_end() {
    let mut heap: FixedHammingHeap<u32> = FixedHammingHeap::new_distances(8);
    heap.set_capacity(6);
    heap.push(2, 0);
    heap.push(5, 1);
    heap.push(5, 2);
    heap.push(5, 3);
    heap.push(7, 4);
    heap.push(0, 5);
    assert_eq!(heap.worst(), 7);
    heap.set_len(4);
    assert_eq!(heap.len(), 4);
    assert_eq!(items_of(&heap), vec![5, 0, 1, 2]);
    assert_eq!(heap.worst(), 7);
    assert!(heap.push(7, 6));
    assert_eq!(heap.len(), 5);
    heap.set_len(9);
    assert_eq!(heap.len(), 5);
    heap.set_len(1);
    assert_eq!(items_of(&heap), vec![5]);
}

#[test]
fn set_len_zero_empties_the_heap() {
    let mut heap: FixedHammingHeap<u32> = FixedHammingHeap::new_distances(8);
    heap.set_capacity(2);
    heap.push(2, 0);
    heap.push(3, 1);
    assert_eq!(heap.worst(), 3);
    heap.set_len(0);
    assert!(heap.is_empty());
    assert_eq!(heap.len(), 0);
    assert_eq!(heap.worst(), 7);
    assert!(heap.push(7, 2));
}

#[test]
fn set_len_keeps_a_full_heap_that_is_short_enough() {
    let mut heap: FixedHammingHeap<u32> = FixedHammingHeap::new_distances(8);
    heap.set_capacity(2);
    heap.push(2, 0);
    heap.push(3, 1);
    heap.set_len(2);
    assert_eq!(heap.worst(), 3);
    assert!(heap.at_cap());
    assert_eq!(items_of(&heap), vec![0, 1]);
}

#[test]
fn cleared_heap_is_like_a_new_one() {
    let mut used: FixedHammingHeap<u32> = FixedHammingHeap::new_distances(11);
    used.set_capacity(2);
    used.push(3, 0);
    used.push(4, 1);
    used.push(1, 2);
    used.clear();
    let mut fresh: FixedHammingHeap<u32> = FixedHammingHeap::new_distances(11);
    fresh.set_capacity(2);
    assert_eq!(used.len(), fresh.len());
    assert_eq!(used.is_empty(), fresh.is_empty());
    assert_eq!(used.worst(), fresh.worst());
    assert_eq!(used.at_cap(), fresh.at_cap());
    let mut a: [u32; 4] = [9, 9, 9, 9];
    let mut b: [u32; 4] = [9, 9, 9, 9];
    assert_eq!(used.fill_slice(&mut a).len(), 0);
    assert_eq!(fresh.fill_slice(&mut b).len(), 0);
    assert_eq!(a, [9, 9, 9, 9]);
    assert_eq!(a, b);
    assert!(used.iter().is_empty());
    for (distance, item) in [(10u32, 0u32), (5, 1), (7, 2)] {
        assert_eq!(used.push(distance, item), fresh.push(distance, item));
    }
    assert_eq!(items_of(&used), items_of(&fresh));
    assert_eq!(items_of(&used), vec![1, 2]);
}

#[test]
fn set_distances_drops_the_items_and_keeps_the_capacity() {
    let mut heap: FixedHammingHeap<u32> = FixedHammingHeap::new_distances(4);
    heap.set_capacity(2);
    heap.push(1, 0);
    heap.push(2, 1);
    heap.set_distances(6);
    assert!(heap.is_empty());
    assert_eq!(heap.worst(), 5);
    assert!(heap.push(5, 2));
    assert!(heap.push(5, 3));
    assert!(heap.at_cap());
    assert!(!heap.push(5, 4));
}

#[test]
fn fill_slice_writes_what_fits() {
    let mut heap: FixedHammingHeap<u32> = FixedHammingHeap::new_distances(11);
    heap.set_capacity(4);
    heap.push(6, 60);
    heap.push(2, 20);
    heap.push(9, 90);
    heap.push(2, 21);
    let mut small: [u32; 3] = [0, 0, 0];
    {
        let written = heap.fill_slice(&mut small);
        assert_eq!(written.len(), 3);
        assert_eq!(written[0], 20);
        assert_eq!(written[1], 21);
        assert_eq!(written[2], 60);
    }
    assert_eq!(small, [20, 21, 60]);
    let mut large: [u32; 6] = [7, 7, 7, 7, 7, 7];
    {
        let written = heap.fill_slice(&mut large);
        assert_eq!(written.len(), 4);
    }
    assert_eq!(large, [20, 21, 60, 90, 7, 7]);
    let mut none: [u32; 0] = [];
    assert_eq!(heap.fill_slice(&mut none).len(), 0);
    assert_eq!(heap.len(), 4);
}

#[test]
fn fill_slice_result_can_be_written_to() {
    let mut heap: FixedHammingHeap<u32> = FixedHammingHeap::new_distances(3);
    heap.set_capacity(2);
    heap.push(1, 5);
    let mut buffer: [u32; 2] = [0, 0];
    let written = heap.fill_slice(&mut buffer);
    written[0] += 1;
    assert_eq!(buffer, [6, 0]);
}

#[test]
fn iter_gives_distances_and_items_in_ascending_order() {
    let mut heap: FixedHammingHeap<u32> = FixedHammingHeap::new_distances(11);
    heap.set_capacity(3);
    heap.push(8, 0);
    heap.push(3, 1);
    heap.push(8, 2);
    heap.push(5, 3);
    let seen: Vec<(u32, u32)> = heap.iter().into_iter().map(|(d, item)| (d, *item)).collect();
    assert_eq!(seen, vec![(3, 1), (5, 3), (8, 0)]);
    assert_eq!(heap.len(), 3);
}

#[test]
fn iter_mut_changes_items_in_place() {
    let mut heap: FixedHammingHeap<u32> = FixedHammingHeap::new_distances(11);
    heap.set_capacity(3);
    heap.push(8, 0);
    heap.push(3, 1);
    heap.push(5, 3);
    for (distance, item) in heap.iter_mut() {
        *item += distance * 10;
    }
    let seen: Vec<(u32, u32)> = heap.iter().into_iter().map(|(d, item)| (d, *item)).collect();
    assert_eq!(seen, vec![(3, 31), (5, 53), (8, 80)]);
    assert_eq!(heap.len(), 3);
    assert_eq!(heap.worst(), 8);
}

#[test]
fn default_heap_is_new() {
    let heap: FixedHammingHeap<u32> = Default::default();
    assert_eq!(heap.len(), 0);
    assert!(heap.is_empty());
    assert_eq!(heap.worst(), 0);
    let other: FixedHammingHeap<u32> = FixedHammingHeap::new();
    assert_eq!(other.len(), 0);
    assert_eq!(other.worst(), 0);
}

#[test]
fn clone_holds_the_same_items() {
    let mut heap: FixedHammingHeap<u32> = FixedHammingHeap::new_distances(6);
    heap.set_capacity(2);
    heap.push(4, 1);
    heap.push(2, 2);
    let mut copy = heap.clone();
    assert_eq!(items_of(&copy), vec![2, 1]);
    assert_eq!(copy.worst(), 4);
    assert!(copy.push(0, 3));
    assert_eq!(items_of(&copy), vec![3, 2]);
    assert_eq!(items_of(&heap), vec![2, 1]);
    assert!(format!("{:?}", heap).contains("FixedHammingHeap"));
}

fn next(state: &mut u32) -> u32 {
    *state = state.wrapping_mul(1664525).wrapping_add(1013904223);
    *state >> 16
}

#[test]
fn retained_distances_match_a_sorted_prefix() {
    let mut state: u32 = 12345;
    for cap in [1usize, 2, 5, 17, 64] {
        let mut heap: FixedHammingHeap<u32> = FixedHammingHeap::new_distances(33);
        heap.set_capacity(cap);
        let mut pushed: Vec<u32> = Vec::new();
        for id in 0u32..50 {
            let distance = next(&mut state) % 33;
            let full = heap.at_cap();
            let worst = heap.worst();
            let accepted = heap.push(distance, id);
            assert_eq!(accepted, !full || distance < worst);
            pushed.push(distance);
            let mut expected = pushed.clone();
            expected.sort_unstable();
            expected.truncate(cap);
            assert_eq!(distances_of(&heap), expected);
            assert_eq!(heap.len(), expected.len());
            for (d, item) in heap.iter() {
                assert_eq!(pushed[*item as usize], d);
            }
        }
    }
}

#[test]
fn set_len_keeps_the_first_items_in_order() {
    let mut state: u32 = 99;
    for len in [0usize, 1, 3, 10, 19, 20, 25] {
        let mut heap: FixedHammingHeap<u32> = FixedHammingHeap::new_distances(9);
        heap.set_capacity(20);
        for id in 0u32..20 {
            heap.push(next(&mut state) % 9, id);
        }
        let before = items_of(&heap);
        heap.set_len(len);
        let mut expected = before.clone();
        expected.truncate(len);
        assert_eq!(items_of(&heap), expected);
        assert_eq!(heap.len(), expected.len());
        if len < 20 {
            assert_eq!(heap.worst(), 8);
        }
    }
}
