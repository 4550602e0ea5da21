use hamming_heap::HammingHeap;

#[test]
fn pops_come_in_ascending_order() {
    let mut heap: HammingHeap<char> = HammingHeap::new_distances(11);
    heap.push(5, 'a');
    heap.push(4, 'b');
    heap.push(3, 'c');
    heap.push(2, 'd');
    assert_eq!(heap.pop(), Some((2, 'd')));
    assert_eq!(heap.pop(), Some((3, 'c')));
    assert_eq!(heap.pop(), Some((4, 'b')));
    assert_eq!(heap.pop(), Some((5, 'a')));
    assert_eq!(heap.pop(), None);
    assert_eq!(heap.pop(), None);
}

#[test]
fn as_many_pops_as_pushes() {
    let mut heap: HammingHeap<u32> = HammingHeap::new_distances(8);
    let pushes: [u32; 10] = [7, 0, 3, 3, 6, 1, 7, 0, 2, 5];
    let mut id: u32 = 0;
    for distance in pushes {
        heap.push(distance, id);
        id += 1;
    }
    let mut popped: Vec<u32> = Vec::new();
    while let Some((distance, item)) = heap.pop() {
        assert_eq!(pushes[item as usize], distance);
        popped.push(distance);
    }
    assert_eq!(popped, vec![0, 0, 1, 2, 3, 3, 5, 6, 7, 7]);
    assert_eq!(heap.pop(), None);
}

#[test]
fn newest_item_of_a_distance_leaves_first() {
    let mut heap: HammingHeap<u32> = HammingHeap::new_distances(3);
    heap.push(1, 10);
    heap.push(1, 11);
    heap.push(1, 12);
    assert_eq!(heap.pop(), Some((1, 12)));
    assert_eq!(heap.pop(), Some((1, 11)));
    assert_eq!(heap.pop(), Some((1, 10)));
    assert_eq!(heap.pop(), None);
}

#[test]
fn largest_distance_can_be_pushed_and_popped() {
    let mut heap: HammingHeap<u32> = HammingHeap::new_distances(129);
    heap.push((0u128 ^ !0u128).count_ones(), 1);
    assert_eq!(heap.best(), Some(128));
    assert_eq!(heap.pop(), Some((128, 1)));
    assert_eq!(heap.pop(), None);
}

#[test]
fn single_distance_heap() {
    let mut heap: HammingHeap<u32> = HammingHeap::new_distances(1);
    assert_eq!(heap.pop(), None);
    heap.push(0, 4);
    assert_eq!(heap.best(), Some(0));
    assert_eq!(heap.pop(), Some((0, 4)));
    assert_eq!(heap.pop(), None);
}

#[test]
fn push_below_the_cursor_is_popped_next() {
    let mut heap: HammingHeap<u32> = HammingHeap::new_distances(11);
    heap.push(6, 0);
    heap.push(8, 1);
    assert_eq!(heap.pop(), Some((6, 0)));
    heap.push(2, 2);
    assert_eq!(heap.best(), Some(2));
    assert_eq!(heap.pop(), Some((2, 2)));
    assert_eq!(heap.pop(), Some((8, 1)));
    assert_eq!(heap.pop(), None);
    heap.push(0, 3);
    assert_eq!(heap.pop(), Some((0, 3)));
}

#[test]
fn best_does_not_change_the_heap() {
    let mut heap: HammingHeap<u32> = HammingHeap::new_distances(11);
    assert_eq!(heap.best(), None);
    heap.push(9, 0);
    heap.push(4, 1);
    assert_eq!(heap.best(), Some(4));
    assert_eq!(heap.best(), Some(4));
    assert_eq!(heap.pop(), Some((4, 1)));
    assert_eq!(heap.best(), Some(9));
    assert_eq!(heap.pop(), Some((9, 0)));
    assert_eq!(heap.best(), None);
}

#[test]
fn cleared_queue_is_like_a_new_one() {
    let mut used: HammingHeap<u32> = HammingHeap::new_distances(11);
    used.push(3, 0);
    used.push(7, 1);
    assert_eq!(used.pop(), Some((3, 0)));
    used.clear();
    let mut fresh: HammingHeap<u32> = HammingHeap::new_distances(11);
    assert_eq!(used.best(), fresh.best());
    assert!(used.iter().is_empty());
    assert!(fresh.iter().is_empty());
    assert_eq!(used.pop(), None);
    assert_eq!(fresh.pop(), None);
    used.clear();
    used.push(1, 5);
    fresh.push(1, 5);
    assert_eq!(used.pop(), fresh.pop());
    assert_eq!(used.pop(), None);
}

#[test]
fn clear_after_the_cursor_moved_empties_every_bucket() {
    let mut heap: HammingHeap<u32> = HammingHeap::new_distances(5);
    heap.push(0, 0);
    heap.push(2, 1);
    heap.push(4, 2);
    assert_eq!(heap.pop(), Some((0, 0)));
    assert_eq!(heap.pop(), Some((2, 1)));
    heap.clear();
    assert_eq!(heap.best(), None);
    heap.push(1, 3);
    assert_eq!(heap.pop(), Some((1, 3)));
    assert_eq!(heap.pop(), None);
}

#[test]
fn set_distances_drops_the_items() {
    let mut heap: HammingHeap<u32> = HammingHeap::new();
    heap.set_distances(4);
    heap.push(3, 0);
    heap.set_distances(9);
    assert_eq!(heap.best(), None);
    heap.push(8, 1);
    assert_eq!(heap.pop(), Some((8, 1)));
}

#[test]
fn heap_without_buckets_holds_nothing() {
    let mut heap: HammingHeap<u32> = HammingHeap::new();
    assert_eq!(heap.best(), None);
    assert!(heap.iter().is_empty());
    assert!(heap.iter_mut().is_empty());
    heap.clear();
    assert_eq!(heap.best(), None);
    let other: HammingHeap<u32> = Default::default();
    assert_eq!(other.best(), None);
}

#[test]
fn iter_counts_distances_from_the_cursor() {
    let mut heap: HammingHeap<u32> = HammingHeap::new_distances(11);
    heap.push(2, 20);
    heap.push(5, 50);
    heap.push(5, 51);
    heap.push(9, 90);
    let seen: Vec<(u32, u32)> = heap.iter().into_iter().map(|(d, item)| (d, *item)).collect();
    assert_eq!(seen, vec![(2, 20), (5, 50), (5, 51), (9, 90)]);
    assert_eq!(heap.pop(), Some((2, 20)));
    assert_eq!(heap.pop(), Some((5, 51)));
    let seen: Vec<(u32, u32)> = heap.iter().into_iter().map(|(d, item)| (d, *item)).collect();
    assert_eq!(seen, vec![(0, 50), (4, 90)]);
    assert_eq!(heap.best(), Some(5));
}

#[test]
fn iter_mut_changes_queued_items_in_place() {
    let mut heap: HammingHeap<u32> = HammingHeap::new_distances(6);
    heap.push(1, 1);
    heap.push(3, 2);
    heap.push(3, 3);
    for (_, item) in heap.iter_mut() {
        *item *= 100;
    }
    assert_eq!(heap.pop(), Some((1, 100)));
    assert_eq!(heap.pop(), Some((3, 300)));
    assert_eq!(heap.pop(), Some((3, 200)));
    assert_eq!(heap.pop(), None);
}

#[test]
fn clone_of_a_queue_holds_the_same_items() {
    let mut heap: HammingHeap<u32> = HammingHeap::new_distances(6);
    heap.push(4, 1);
    let mut copy = heap.clone();
    assert_eq!(copy.pop(), Some((4, 1)));
    assert_eq!(copy.pop(), None);
    assert_eq!(heap.pop(), Some((4, 1)));
    assert!(format!("{:?}", heap).contains("HammingHeap"));
}

fn next(state: &mut u32) -> u32 {
    *state = state.wrapping_mul(1664525).wrapping_add(1013904223);
    *state >> 16
}

#[test]
fn pops_match_the_sorted_pushes() {
    let mut state: u32 = 2024;
    for count in [0usize, 1, 7, 100] {
        let mut heap: HammingHeap<usize> = HammingHeap::new_distances(65);
        let mut pushed: Vec<u32> = Vec::new();
        for id in 0..count {
            let distance = next(&mut state) % 65;
            heap.push(distance, id);
            pushed.push(distance);
        }
        let mut seen: Vec<bool> = vec![false; count];
        let mut popped: Vec<u32> = Vec::new();
        while let Some((distance, id)) = heap.pop() {
            assert_eq!(pushed[id], distance);
            assert!(!seen[id]);
            seen[id] = true;
            popped.push(distance);
        }
        let mut expected = pushed.clone();
        expected.sort_unstable();
        assert_eq!(popped, expected);
    }
}

#[test]
fn interleaved_pops_return_the_smallest_held() {
    let mut state: u32 = 7;
    let mut heap: HammingHeap<u32> = HammingHeap::new_distances(17);
    let mut held: Vec<u32> = Vec::new();
    for step in 0u32..300 {
        if next(&mut state) % 3 == 0 {
            let smallest = held.iter().copied().min();
            assert_eq!(heap.best(), smallest);
            match heap.pop() {
                Some((distance, _)) => {
                    assert_eq!(Some(distance), smallest);
                    let at = held.iter().position(|d| *d == distance).unwrap();
                    held.swap_remove(at);
                }
                None => assert!(held.is_empty()),
            }
        } else {
            let distance = next(&mut state) % 17;
            heap.push(distance, step);
            held.push(distance);
        }
    }
}
