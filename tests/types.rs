use zerocopy_avl::error::TranslationError;
use zerocopy_avl::types::{Bool, Str};

#[test]
fn test_str_copy_from_slice() {
    let mut str = Str::<16>::zeroed();
    str.copy_from_slice(b"Hello, World!");

    assert_eq!(str.as_str().unwrap(), "Hello, World!");
    assert_eq!(str.as_bytes(), b"Hello, World!\0\0\0");
}

#[test]
fn test_transmute() {
    // str: "Hello, World!\0\0\0"
    let bytes: [u8; 16] = [
        72, 101, 108, 108, 111, 44, 32, 87, 111, 114, 108, 100, 33, 0, 0, 0,
    ];
    let str = Str::<16>::from_array(bytes);

    assert_eq!(str.as_str().unwrap(), "Hello, World!");
    assert_eq!(str.as_bytes(), bytes);
}

#[test]
fn str_with_invalid_utf8_is_an_invalid_value() {
    let mut str = Str::<8>::zeroed();
    str.copy_from_slice(&[0xff, 0xfe]);
    assert_eq!(str.as_str(), Err(TranslationError::InvalidValue));
}

#[test]
fn str_copy_from_str_cuts_long_input() {
    let mut str = Str::<4>::zeroed();
    str.copy_from_str("abcdef");
    assert_eq!(str.as_bytes(), b"abcd");
    assert_eq!(str.as_str().unwrap(), "abcd");
}

#[test]
fn test_value() {
    let b = Bool::from_bool(true);
    assert!(b.value());

    let bytes = &[0];
    let b = Bool::from_bytes(bytes).unwrap();
    assert!(!b.value());

    let bytes = &[5];
    let b = Bool::from_bytes(bytes).unwrap();
    assert!(b.value());
}

#[test]
fn bool_from_wrong_length_is_refused() {
    assert!(matches!(Bool::from_bytes(&[1, 2]), Err(TranslationError::InvalidLength)));
}

#[test]
fn translation_error_messages() {
    assert_eq!(TranslationError::InvalidLength.message(), "invalid length for translation");
    assert_eq!(TranslationError::InvalidValue.message(), "invalid value found for type");
    assert_eq!(TranslationError::Misaligned.message(), "misaligned memory for translation");
}
