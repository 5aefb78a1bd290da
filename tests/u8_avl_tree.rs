use zerocopy_avl::error::TranslationError;
use zerocopy_avl::u8_avl_tree::{U8AVLTree, U8AVLTreeMut, U8Allocator, U8Node};

fn zeroed_tree(slots: usize) -> U8AVLTreeMut<u32, u32> {
    U8AVLTreeMut::from_parts(U8Allocator::zeroed(), vec![U8Node::zeroed(); slots]).unwrap()
}

fn grown(tree: U8AVLTreeMut<u32, u32>, extra: usize) -> U8AVLTreeMut<u32, u32> {
    let (allocator, mut nodes) = tree.into_parts();
    for _ in 0..extra {
        nodes.push(U8Node::zeroed());
    }
    U8AVLTreeMut::from_parts(allocator, nodes).unwrap()
}

#[test]
fn u8_avl_tree_test_insert() {
    const CAPACITY: usize = 254;
    let mut tree = zeroed_tree(CAPACITY);
    tree.initialize(CAPACITY as u8);

    for i in 0..CAPACITY {
        let key = i as u32;
        let value = i as u32;
        let _ = tree.insert(key, value);
    }

    assert_eq!(tree.len(), CAPACITY);

    for i in 0..CAPACITY {
        let key = i as u32;
        tree.get(&key).unwrap();
    }
}

#[test]
fn u8_avl_tree_test_remove() {
    const CAPACITY: usize = 254;
    let mut tree = zeroed_tree(CAPACITY);
    tree.initialize(CAPACITY as u8);

    for i in 0..CAPACITY {
        let key = (i + 1) as u32;
        let value = (i + 1) as u32;
        let _ = tree.insert(key, value);
    }

    assert_eq!(tree.len(), CAPACITY);

    for i in 0..CAPACITY {
        let key = (i + 1) as u32;
        tree.remove(&key).unwrap();
    }

    assert_eq!(tree.len(), 0);
}

#[test]
fn test_remove_add() {
    const CAPACITY: usize = 254;
    let mut tree = zeroed_tree(CAPACITY);
    tree.initialize(CAPACITY as u8);

    for i in 0..CAPACITY {
        let key = (i + 1) as u32;
        let value = (i + 1) as u32;
        let _ = tree.insert(key, value);
    }

    assert_eq!(tree.len(), CAPACITY);

    for i in 0..CAPACITY {
        let key = (i + 1) as u32;
        tree.remove(&key).unwrap();
    }

    assert_eq!(tree.len(), 0);

    for i in 0..CAPACITY {
        let key = (i + 1) as u32;
        let value = (i + 1) as u32;
        let _ = tree.insert(key, value);
    }

    assert_eq!(tree.len(), CAPACITY);

    for i in 0..CAPACITY {
        let key = (i + 1) as u32;
        tree.get(&key).unwrap();
    }
}

#[test]
fn test_insert_when_full() {
    const CAPACITY: usize = 10;
    let mut tree = zeroed_tree(CAPACITY);
    tree.initialize(CAPACITY as u8);

    for i in 0..CAPACITY {
        let key = i as u32;
        let value = i as u32;
        let _ = tree.insert(key, value);
    }

    assert_eq!(tree.len(), CAPACITY);
    assert!(tree.is_full());

    // we should not be able to insert when full
    assert!(tree.insert(10, 0).is_none());

    // when we remove an item
    tree.remove(&0).unwrap();
    // then we can insert
    tree.insert(10, 0).unwrap();

    // but then the tree is full again
    assert!(tree.is_full());
    assert!(tree.insert(20, 0).is_none());
}

#[test]
fn test_resize() {
    const CAPACITY: usize = 10;
    let mut tree = zeroed_tree(CAPACITY);
    tree.initialize(CAPACITY as u8);

    for i in 0..CAPACITY {
        let key = i as u32;
        let value = i as u32;
        let _ = tree.insert(key, value);
    }

    assert_eq!(tree.len(), CAPACITY);

    for i in 0..CAPACITY {
        let key = i as u32;
        tree.get(&key).unwrap();
    }

    // extends the capacity by 1
    tree = grown(tree, 1);
    assert_eq!(tree.len(), CAPACITY);
    assert_eq!(tree.capacity(), CAPACITY + 1);

    tree.insert(11, 11);

    assert_eq!(tree.len(), CAPACITY + 1);
    assert!(tree.is_full());
}

#[test]
fn test_remove_resize() {
    const CAPACITY: usize = 10;
    let mut tree = zeroed_tree(CAPACITY);
    tree.initialize(CAPACITY as u8);

    for i in 0..CAPACITY {
        let key = i as u32;
        let value = i as u32;
        let _ = tree.insert(key, value);
    }

    assert_eq!(tree.len(), CAPACITY);
    assert!(tree.is_full());

    // we should not be able to insert when full
    assert!(tree.insert(10, 0).is_none());

    // when we remove an item
    tree.remove(&0).unwrap();
    // then we can insert
    tree.insert(10, 0).unwrap();

    // but then the tree is full again
    assert!(tree.is_full());
    assert!(tree.insert(20, 0).is_none());

    // when resize the tree
    tree = grown(tree, 1);

    // then we can insert again
    assert!(!tree.is_full());
    tree.insert(11, 0).unwrap();

    assert_eq!(tree.len(), CAPACITY + 1);
    assert!(tree.is_full());
}

#[test]
fn test_insert_resize_insert() {
    const CAPACITY: usize = 10;
    let mut tree = zeroed_tree(CAPACITY);
    tree.initialize(CAPACITY as u8);

    for i in 0..CAPACITY {
        tree.insert(i as u32, i as u32);
    }

    assert_eq!(tree.len(), CAPACITY);
    assert!(tree.is_full());

    for i in 0..CAPACITY {
        let key = i as u32;
        tree.remove(&key);
    }

    for i in 0..CAPACITY {
        tree.insert(i as u32, i as u32);
    }

    assert_eq!(tree.len(), CAPACITY);
    assert!(tree.is_full());

    // resize the tree
    tree = grown(tree, CAPACITY);

    assert_eq!(tree.len(), CAPACITY);
    assert_eq!(tree.capacity(), CAPACITY * 2);

    for i in CAPACITY..CAPACITY * 2 {
        tree.insert(i as u32, i as u32);
    }

    assert!(tree.is_full());
    assert_eq!(tree.lowest(), Some(0));

    let last = CAPACITY as u32 * 2 - 1;
    assert_eq!(tree.get(&last), Some(last));
}

#[test]
fn test_readonly_resize() {
    const CAPACITY: usize = 10;
    let mut tree = zeroed_tree(CAPACITY);
    tree.initialize(CAPACITY as u8);

    for i in 0..CAPACITY {
        let key = i as u32;
        let value = i as u32;
        let _ = tree.insert(key, value);
    }

    assert_eq!(tree.len(), CAPACITY);

    for i in 0..CAPACITY {
        let key = i as u32;
        tree.get(&key).unwrap();
    }

    // extends the buffer by one node
    let (allocator, mut nodes) = tree.into_parts();
    nodes.push(U8Node::zeroed());

    let readonly_tree: U8AVLTree<u32, u32> = U8AVLTree::from_parts(&allocator, &nodes).unwrap();
    assert_eq!(readonly_tree.len(), CAPACITY);
    assert_eq!(readonly_tree.capacity(), CAPACITY);
}

#[test]
fn scenario_capacity_ten() {
    let mut tree = zeroed_tree(10);
    tree.initialize(10);
    for i in 0..10u32 {
        assert!(tree.insert(i, i).is_some());
    }
    assert_eq!(tree.len(), 10);
    assert!(tree.is_full());
    assert_eq!(tree.insert(10, 0), None);
    assert_eq!(tree.remove(&0), Some(0));
    assert!(tree.insert(10, 0).is_some());
    assert!(tree.is_full());
    assert_eq!(tree.lowest(), Some(1));
}

#[test]
fn empty_tree_reports_nothing() {
    let mut tree = zeroed_tree(4);
    tree.initialize(4);
    assert!(tree.is_empty());
    assert_eq!(tree.len(), 0);
    assert_eq!(tree.capacity(), 4);
    assert_eq!(tree.lowest(), None);
    assert_eq!(tree.get(&7), None);
    assert!(!tree.contains(&7));
    assert_eq!(tree.remove(&7), None);
    assert_eq!(tree.len(), 0);
}

#[test]
fn duplicate_key_is_refused_and_value_kept() {
    let mut tree = zeroed_tree(4);
    tree.initialize(4);
    assert_eq!(tree.insert(5, 50), Some(1));
    assert_eq!(tree.insert(5, 99), None);
    assert_eq!(tree.len(), 1);
    assert_eq!(tree.get(&5), Some(50));
}

#[test]
fn removing_absent_key_changes_nothing() {
    let mut tree = zeroed_tree(8);
    tree.initialize(8);
    for k in [4u32, 2, 6] {
        tree.insert(k, k * 10).unwrap();
    }
    assert_eq!(tree.remove(&5), None);
    assert_eq!(tree.len(), 3);
    assert_eq!(tree.get(&4), Some(40));
    assert_eq!(tree.get(&2), Some(20));
    assert_eq!(tree.get(&6), Some(60));
}

#[test]
fn round_trip_with_removal_of_inner_nodes() {
    let mut tree = zeroed_tree(64);
    tree.initialize(64);
    let keys: Vec<u32> = (0..64u32).map(|i| (i * 37) % 64).collect();
    for &k in &keys {
        tree.insert(k, k + 1000).unwrap();
    }
    for &k in &keys {
        assert_eq!(tree.get(&k), Some(k + 1000));
    }
    for k in (0..64u32).step_by(3) {
        assert_eq!(tree.remove(&k), Some(k + 1000));
        assert!(!tree.contains(&k));
    }
    for k in 0..64u32 {
        if k % 3 == 0 {
            assert_eq!(tree.get(&k), None);
        } else {
            assert_eq!(tree.get(&k), Some(k + 1000));
        }
    }
    assert_eq!(tree.lowest(), Some(1));
}

#[test]
fn free_and_reuse_allows_exactly_the_removed_count() {
    let mut tree = zeroed_tree(12);
    tree.initialize(12);
    for k in 0..12u32 {
        tree.insert(k, k).unwrap();
    }
    for k in [3u32, 7, 11, 0] {
        tree.remove(&k).unwrap();
    }
    for k in 100..104u32 {
        assert!(tree.insert(k, k).is_some());
    }
    assert!(tree.is_full());
    assert_eq!(tree.insert(200, 0), None);
}

#[test]
fn growth_with_free_slots_and_unused_slots() {
    // three slots used out of ten, one of them freed again: the tree has free
    // slots and slots never handed out when it grows
    let mut tree = zeroed_tree(10);
    tree.initialize(10);
    for k in 0..3u32 {
        tree.insert(k, k).unwrap();
    }
    tree.remove(&1).unwrap();
    let mut tree = grown(tree, 2);
    assert_eq!(tree.capacity(), 12);
    assert_eq!(tree.len(), 2);
    for k in 10..20u32 {
        assert!(tree.insert(k, k * 2).is_some());
    }
    assert!(tree.is_full());
    assert_eq!(tree.insert(99, 0), None);
    assert_eq!(tree.get(&0), Some(0));
    assert_eq!(tree.get(&2), Some(2));
    for k in 10..20u32 {
        assert_eq!(tree.get(&k), Some(k * 2));
    }
}

#[test]
fn growth_is_capped_at_the_largest_capacity() {
    let mut tree = zeroed_tree(250);
    tree.initialize(250);
    let tree = grown(tree, 10);
    assert_eq!(tree.capacity(), 254);
}

#[test]
fn fewer_slots_than_capacity_is_refused() {
    let mut tree = zeroed_tree(6);
    tree.initialize(6);
    tree.insert(1, 1).unwrap();
    let (allocator, mut nodes) = tree.into_parts();
    nodes.truncate(5);
    assert!(matches!(U8AVLTree::from_parts(&allocator, &nodes), Err(TranslationError::InvalidLength)));
    assert!(matches!(U8AVLTreeMut::from_parts(allocator, nodes), Err(TranslationError::InvalidLength)));
}

#[test]
fn get_mut_changes_only_that_value() {
    let mut tree = zeroed_tree(8);
    tree.initialize(8);
    for k in [5u32, 3, 8, 1] {
        tree.insert(k, k * 10).unwrap();
    }
    *tree.get_mut(&3).unwrap() = 333;
    assert_eq!(tree.get(&3), Some(333));
    assert_eq!(tree.get(&5), Some(50));
    assert_eq!(tree.get(&1), Some(10));
    assert!(tree.get_mut(&4).is_none());
    assert_eq!(tree.len(), 4);
}

#[test]
fn removed_slot_is_handed_out_next() {
    let mut tree = zeroed_tree(8);
    tree.initialize(8);
    let mut slots = Vec::new();
    for k in [40u32, 20, 60, 10, 30, 50, 70] {
        slots.push(tree.insert(k, k).unwrap());
    }
    // 40 has two children: its successor moves into its place, but its own
    // slot is the one released
    assert_eq!(tree.remove(&40), Some(40));
    assert_eq!(tree.insert(45, 45), Some(slots[0]));
    assert_eq!(tree.get(&50), Some(50));
    assert_eq!(tree.lowest(), Some(10));
}
