use zerocopy_avl::error::TranslationError;
use zerocopy_avl::prefix_str::{U16PrefixStr, U16PrefixStrMut, U8PrefixStr, U8PrefixStrMut};

#[test]
fn test_new() {
    // u8
    let mut data = [0u8; 4];
    let mut prefix_str = U8PrefixStrMut::new(&mut data).unwrap();
    prefix_str.copy_from_str("str");

    assert_eq!(prefix_str.as_str().unwrap(), "str");
    assert_eq!(prefix_str.size(), data.len());

    // u16
    let mut data = [0u8; 5];
    let mut prefix_str = U16PrefixStrMut::new(&mut data).unwrap();
    prefix_str.copy_from_str("str");

    assert_eq!(prefix_str.as_str().unwrap(), "str");
    assert_eq!(prefix_str.size(), data.len());
}

#[test]
fn test_new_with_empty_str() {
    // u8
    let mut data = [0u8; 1];
    let prefix_str = U8PrefixStrMut::new(&mut data).unwrap();

    assert_eq!(prefix_str.len(), 0);

    // u16
    let mut data = [0u8; 2];
    let prefix_str = U16PrefixStrMut::new(&mut data).unwrap();

    assert_eq!(prefix_str.len(), 0);
}

#[test]
fn test_new_with_shorter_str() {
    // u8
    let mut data = [0u8; 10];
    let mut prefix_str = U8PrefixStrMut::new(&mut data).unwrap();
    prefix_str.copy_from_str("string");

    assert_eq!(prefix_str.as_str().unwrap(), "string\0\0\0");

    // u16
    let mut data = [0u8; 11];
    let mut prefix_str = U16PrefixStrMut::new(&mut data).unwrap();
    prefix_str.copy_from_str("string");

    assert_eq!(prefix_str.as_str().unwrap(), "string\0\0\0");
}

#[test]
fn test_new_with_larger_str() {
    // u8
    let mut data = [0u8; 4];
    let mut prefix_str = U8PrefixStrMut::new(&mut data).unwrap();
    prefix_str.copy_from_str("string");

    assert_eq!(prefix_str.as_str().unwrap(), "str");

    // u16
    let mut data = [0u8; 5];
    let mut prefix_str = U16PrefixStrMut::new(&mut data).unwrap();
    prefix_str.copy_from_str("string");

    assert_eq!(prefix_str.as_str().unwrap(), "str");
}

#[test]
fn test_from_bytes() {
    // u8
    let mut data = [0u8; 4];
    data[0] = 3;
    data[1..].copy_from_slice("str".as_bytes());

    let prefix_str = U8PrefixStr::from_bytes(&data).unwrap();
    assert_eq!(prefix_str.as_str().unwrap(), "str");

    // u16
    let mut data = [0u8; 5];
    data[..2].copy_from_slice(&3u16.to_ne_bytes());
    data[2..].copy_from_slice("str".as_bytes());

    let prefix_str = U16PrefixStr::from_bytes(&data).unwrap();
    assert_eq!(prefix_str.as_str().unwrap(), "str");
}

#[test]
fn prefix_written_by_new_is_read_back() {
    let mut data = [0u8; 6];
    {
        let mut prefix_str = U8PrefixStrMut::new(&mut data).unwrap();
        prefix_str.copy_from_str("hey");
    }
    assert_eq!(data, [5, b'h', b'e', b'y', 0, 0]);
    let prefix_str = U8PrefixStr::from_bytes(&data).unwrap();
    assert_eq!(prefix_str.len(), 5);
    assert_eq!(prefix_str.size(), 6);
    assert_eq!(prefix_str.as_str().unwrap(), "hey\0\0");
}

#[test]
fn prefix_longer_than_region_is_refused() {
    let data = [9u8, b'a', b'b'];
    assert!(matches!(U8PrefixStr::from_bytes(&data), Err(TranslationError::InvalidLength)));
    assert!(matches!(U8PrefixStr::from_bytes(&[]), Err(TranslationError::InvalidLength)));
    assert!(matches!(U16PrefixStr::from_bytes(&[1]), Err(TranslationError::InvalidLength)));
}

#[test]
fn prefix_str_with_invalid_utf8_is_refused() {
    let data = [2u8, 0xff, 0xfe];
    assert!(matches!(U8PrefixStr::from_bytes(&data), Err(TranslationError::InvalidValue)));
    let mut region = [0u8, 0xc0];
    assert!(matches!(U8PrefixStrMut::new(&mut region), Err(TranslationError::InvalidValue)));
}
