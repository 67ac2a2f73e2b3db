use l2_order_book::generational_deque::generational_deque::GenerationalDeque;
use l2_order_book::generational_deque::generational_deque::is_expired;
use l2_order_book::generational_deque::generational_deque::Item;

#[derive(Debug, Clone, PartialEq)]
struct TestItem {
    id: usize,
    generation: usize,
}

impl Item for TestItem {
    fn generation_of(&self) -> usize {
        self.generation
    }

    fn generation(&self) -> usize {
        self.generation
    }
}

// A deque whose base stands at `start_index`, reached by expiring that many
// items of generation 0.
fn deque_starting_at(capacity: usize, start_index: usize) -> GenerationalDeque<TestItem> {
    let mut deque = GenerationalDeque::<TestItem>::new(capacity);
    for _ in 0..start_index {
        deque.push_back(TestItem {
            id: 0,
            generation: 0,
        });
    }
    deque.remove_expired_generations(0);
    deque
}

#[test]
fn test_new() {
    let deque = GenerationalDeque::<TestItem>::new(5);
    assert_eq!(deque.capacity(), 5);
    assert_eq!(deque.start_index(), 0);
    assert_eq!(deque.len(), 0);
}

#[test]
fn test_push_back() {
    let mut deque = GenerationalDeque::<TestItem>::new(5);
    let item = TestItem {
        id: 1,
        generation: 1,
    };
    deque.push_back(item.clone());

    assert_eq!(deque.len(), 1);
    assert_eq!(deque.get(0), Some(&item));
}

#[test]
fn test_end_index() {
    let mut deque = GenerationalDeque::<TestItem>::new(5);
    assert_eq!(deque.end_index(), 0);

    deque.push_back(TestItem {
        id: 1,
        generation: 1,
    });
    assert_eq!(deque.end_index(), 1);

    deque.push_back(TestItem {
        id: 2,
        generation: 2,
    });
    assert_eq!(deque.end_index(), 2);

    // The same two items in a deque whose base has moved up by one
    let mut deque = deque_starting_at(5, 1);
    deque.push_back(TestItem {
        id: 1,
        generation: 1,
    });
    deque.push_back(TestItem {
        id: 2,
        generation: 2,
    });
    assert_eq!(deque.start_index(), 1);
    assert_eq!(deque.end_index(), 3);
}

#[test]
fn test_get() {
    let mut deque = GenerationalDeque::<TestItem>::new(5);
    let item1 = TestItem {
        id: 1,
        generation: 1,
    };
    let item2 = TestItem {
        id: 2,
        generation: 2,
    };

    deque.push_back(item1.clone());
    deque.push_back(item2.clone());

    // Test valid indices
    assert_eq!(deque.get(0).unwrap().id, 1);
    assert_eq!(deque.get(1).unwrap().id, 2);

    // Test out of bounds
    assert_eq!(deque.get(2), None);
    assert_eq!(deque.get(usize::MAX), None);

    // Test with a base that has moved up
    let mut deque = deque_starting_at(5, 10);
    deque.push_back(item1.clone());
    deque.push_back(item2.clone());
    assert_eq!(deque.start_index(), 10);
    assert_eq!(deque.get(9), None);
    assert_eq!(deque.get(10).unwrap().id, 1);
    assert_eq!(deque.get(11).unwrap().id, 2);
    assert_eq!(deque.get(12), None);
}

#[test]
fn test_remove_expired_generations() {
    let mut deque = GenerationalDeque::<TestItem>::new(5);

    deque.push_back(TestItem {
        id: 1,
        generation: 1,
    });
    deque.push_back(TestItem {
        id: 2,
        generation: 2,
    });
    deque.push_back(TestItem {
        id: 3,
        generation: 3,
    });
    deque.push_back(TestItem {
        id: 4,
        generation: 4,
    });

    // Initial state
    assert_eq!(deque.start_index(), 0);
    assert_eq!(deque.len(), 4);

    // Remove generations <= 1
    deque.remove_expired_generations(1);
    assert_eq!(deque.start_index(), 1);
    assert_eq!(deque.len(), 3);
    assert_eq!(deque.get(1).unwrap().id, 2);

    // Remove generations <= 2
    deque.remove_expired_generations(2);
    assert_eq!(deque.start_index(), 2);
    assert_eq!(deque.len(), 2);
    assert_eq!(deque.get(2).unwrap().id, 3);

    // Test case where no items should be removed
    deque.remove_expired_generations(2);
    assert_eq!(deque.start_index(), 2);
    assert_eq!(deque.len(), 2);

    // Remove all remaining items
    deque.remove_expired_generations(5);
    assert_eq!(deque.start_index(), 4);
    assert_eq!(deque.len(), 0);
}

#[test]
fn test_empty_deque() {
    let mut deque = GenerationalDeque::<TestItem>::new(5);

    // Test operations on empty deque
    assert_eq!(deque.get(0), None);
    assert_eq!(deque.end_index(), 0);

    // Should not panic on empty deque
    deque.remove_expired_generations(5);
    assert_eq!(deque.start_index(), 0);
}

#[test]
fn expiry_goes_by_generation() {
    assert!(is_expired(1, 1));
    assert!(is_expired(0, 1));
    assert!(!is_expired(2, 1));
}

#[test]
fn items_keep_their_index_while_the_front_leaves() {
    let mut deque = GenerationalDeque::<TestItem>::new(2);
    for id in 0..6 {
        deque.push_back(TestItem {
            id,
            generation: id / 2,
        });
    }
    deque.remove_expired_generations(1);
    assert_eq!(deque.start_index(), 4);
    assert_eq!(deque.end_index(), 6);
    assert_eq!(deque.get(3), None);
    assert_eq!(deque.get(4).unwrap().id, 4);
    assert_eq!(deque.get(5).unwrap().id, 5);
}

#[test]
fn capacity_covers_the_items_held() {
    let mut deque = GenerationalDeque::<TestItem>::new(2);
    assert!(deque.capacity() >= 2);
    for id in 0..9 {
        deque.push_back(TestItem { id, generation: 1 });
        assert!(deque.capacity() >= deque.len());
    }
    assert_eq!(deque.len(), 9);
    assert!(deque.capacity() >= 9);
}

#[test]
fn expiry_stops_at_the_first_later_generation() {
    let mut deque = GenerationalDeque::<TestItem>::new(4);
    for (id, generation) in [(1, 1), (2, 3), (3, 1), (4, 2)] {
        deque.push_back(TestItem { id, generation });
    }
    // The item of generation 3 shields the earlier generations behind it
    deque.remove_expired_generations(2);
    assert_eq!(deque.start_index(), 1);
    assert_eq!(deque.len(), 3);
    assert_eq!(deque.get(1).unwrap().id, 2);
    deque.remove_expired_generations(3);
    assert_eq!(deque.start_index(), 4);
    assert_eq!(deque.len(), 0);
}
