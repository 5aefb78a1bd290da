use zerocopy_avl::pod_str::PodStr;

#[test]
fn test_from() {
    let str = PodStr::<10>::from("str");
    assert_eq!(str.as_str().unwrap(), "str");
}

#[test]
fn test_invalid_bytes() {
    // Invalid utf-8 bytes. The fourth byte has to be 10xxxxxx.
    let invalid_bits: [u8; 4] = [0b1111_0000, 0b1100_0000, 0b1100_0000, 1];
    let mut str = PodStr::<10>::default();
    str.copy_from_slice(&invalid_bits);
    assert!(str.as_str().is_err());
}

#[test]
fn test_copy_from_slice() {
    let mut str = PodStr::<10>::from("empty");
    assert_eq!(str.as_str().unwrap(), "empty");

    // Copy a slice that is equal to the max size.
    str.copy_from_str("emptyempty");
    assert_eq!(str.as_str().unwrap(), "emptyempty");

    // Copy a slice that is smaller than the max size.
    str.copy_from_str("empty");
    assert_eq!(str.as_str().unwrap(), "empty");

    // Copy a slice that is bigger than the max size.
    str.copy_from_str("emptyemptyempty");
    assert_eq!(str.as_str().unwrap(), "emptyempty");
}

#[test]
fn pod_str_pads_with_zeros() {
    let mut str = PodStr::<6>::from("abcdef");
    str.copy_from_str("ab");
    assert_eq!(str.value, [b'a', b'b', 0, 0, 0, 0]);
    assert_eq!(str.as_str().unwrap(), "ab");
}

#[test]
fn test_load() {
    let str = PodStr::<10>::from("str");
    assert_eq!(str.as_str().unwrap(), "str");

    let bytes = bytemuck::bytes_of(&str.value);
    let loaded = PodStr::<10>::load(bytes).unwrap();

    assert_eq!(str, loaded);
}

#[test]
fn pod_str_load_needs_exact_length() {
    assert!(PodStr::<4>::load(&[1, 2, 3]).is_err());
    assert!(PodStr::<4>::load(&[1, 2, 3, 4, 5]).is_err());
}
