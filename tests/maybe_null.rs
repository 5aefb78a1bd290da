use zerocopy_avl::error::TranslationError;
use zerocopy_avl::maybe_null::MaybeNull;
use zerocopy_avl::nullable::Nullable;

#[test]
fn maybe_null_test_get() {
    let maybe_null = MaybeNull::<[u8; 32]>::default();
    assert_eq!(maybe_null.get(), None);

    let bytes = [1u8; 32];
    let maybe_null = MaybeNull::from(bytes);
    assert!(maybe_null.get().is_some());
    assert!(maybe_null.get().unwrap() == bytes);

    let bytes = [2u8; 32];
    let maybe_null = MaybeNull::<[u8; 32]>::new(bytes);
    assert!(maybe_null.get().is_some());
    assert!(maybe_null.get().unwrap() == bytes);
}

#[test]
fn maybe_null_zero_value_reads_as_absent() {
    let maybe_null = MaybeNull::new([0u32; 4]);
    assert_eq!(maybe_null.get(), None);
    assert!(maybe_null.as_ref().is_none());
    assert!([0u16; 3].is_none());
    assert!([0u16, 1, 0].is_some());
}

#[test]
fn maybe_null_as_mut_writes_through() {
    let mut maybe_null = MaybeNull::new([1u64, 2]);
    if let Some(v) = maybe_null.as_mut() {
        v[1] = 7;
    }
    assert_eq!(maybe_null.get(), Some([1u64, 7]));
    let mut absent = MaybeNull::<[u64; 2]>::null();
    assert!(absent.as_mut().is_none());
}

#[test]
fn maybe_null_from_option() {
    assert!(matches!(MaybeNull::from_option(Some([0u8; 2])), Err(TranslationError::InvalidValue)));
    assert_eq!(MaybeNull::from_option(Some([3u8, 0])).unwrap().get(), Some([3u8, 0]));
    assert_eq!(MaybeNull::<[u8; 2]>::from_option(None).unwrap().get(), None);
}
