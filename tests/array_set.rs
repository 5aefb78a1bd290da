use zerocopy_avl::array_set::{ArraySet, ArraySetMut};

#[test]
fn array_set_test_insert() {
    let mut length = 0u64;
    let mut values = [0u8; 10];
    let mut set = ArraySetMut::<u64, u8>::from_parts(&mut length, &mut values);

    set.insert(10);
    set.insert(1);
    set.insert(2);
    set.insert(7);
    set.insert(4);

    let set = ArraySet::<u64, u8>::from_parts(&length, &values);
    assert_eq!(set.len(), 5);
    assert_eq!(set.as_slice(), &[1, 2, 4, 7, 10]);

    assert!(set.get(&1).is_some());
}

#[test]
fn array_set_test_remove() {
    let mut length = 0u8;
    let mut values = [0u8; 10];
    let mut set = ArraySetMut::<u8, u8>::from_parts(&mut length, &mut values);

    set.insert(1);
    set.insert(10);
    set.insert(2);
    set.insert(7);
    set.insert(4);

    assert_eq!(set.as_slice(), &[1, 2, 4, 7, 10]);

    set.remove(&2);
    assert_eq!(set.len(), 4);
    assert_eq!(set.as_slice(), &[1, 4, 7, 10]);

    set.remove(&10);
    assert_eq!(set.len(), 3);
    assert_eq!(set.as_slice(), &[1, 4, 7]);

    set.remove(&4);
    assert_eq!(set.len(), 2);
    assert_eq!(set.as_slice(), &[1, 7]);

    set.remove(&1);
    assert_eq!(set.len(), 1);
    assert_eq!(set.as_slice(), &[7]);
}

#[test]
fn array_set_test_get() {
    let mut length = 0u8;
    let mut values = [0u8; 10];
    let mut set = ArraySetMut::<u8, u8>::from_parts(&mut length, &mut values);

    set.insert(1);
    set.insert(10);
    set.insert(7);
    set.insert(2);
    set.insert(4);

    assert_eq!(set.as_slice(), &[1, 2, 4, 7, 10]);

    assert!(set.get(&10).is_some());
    assert!(set.get_mut(&10).is_some());
}

#[test]
fn array_set_refuses_duplicates_and_overflow() {
    let mut length = 0u16;
    let mut values = [0u32; 3];
    let mut set = ArraySetMut::<u16, u32>::from_parts(&mut length, &mut values);
    assert!(set.is_empty());
    assert!(set.insert(5));
    assert!(!set.insert(5));
    assert!(set.insert(3));
    assert!(set.insert(9));
    assert!(set.is_full());
    assert!(!set.insert(1));
    assert_eq!(set.as_slice(), &[3, 5, 9]);
    assert_eq!(set.take(&5), Some(5));
    assert_eq!(set.take(&5), None);
    assert!(!set.remove(&42));
    assert!(!set.contains(&5));
    assert!(set.contains(&9));
    assert_eq!(set.as_slice(), &[3, 9]);
    drop(set);
    assert_eq!(length, 2);
}

#[test]
fn array_set_get_mut_writes_through() {
    let mut length = 0usize;
    let mut values = [0u64; 4];
    let mut set = ArraySetMut::<usize, u64>::from_parts(&mut length, &mut values);
    set.insert(20);
    set.insert(40);
    if let Some(v) = set.get_mut(&40) {
        *v = 30;
    }
    assert_eq!(set.as_slice(), &[20, 30]);
    assert!(set.get_mut(&99).is_none());
}
