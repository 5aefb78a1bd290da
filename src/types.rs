//! Fixed-size value types: a boolean byte and a zero-terminated string.
use vstd::prelude::*;
use vstd::utf8::valid_utf8;
use vstd::string::StringSliceAdditionalSpecFns;
use crate::error::TranslationError;

verus! {

/// The error of `core::str::from_utf8`, carried through as it is.
#[verifier::external_type_specification]
#[verifier::external_body]
pub struct ExUtf8Error(core::str::Utf8Error);

/// Relies on `core::str::from_utf8`: it succeeds exactly on valid UTF-8, and
/// the string it returns is made of those bytes.
#[verifier::external_body]
pub(crate) fn utf8_str(bytes: &[u8]) -> (r: Result<&str, core::str::Utf8Error>)
    ensures
        r is Ok == valid_utf8(bytes@),
        r matches Ok(s) ==> s.spec_bytes() == bytes@,
{
    core::str::from_utf8(bytes)
}

/// The bytes before the first zero byte, or all of them.
pub open spec fn terminated(bytes: Seq<u8>) -> Seq<u8> {
    bytes.take(terminated_len(bytes))
}

/// The index of the first zero byte, or the length if there is none.
pub open spec fn terminated_len(bytes: Seq<u8>) -> int
    decreases bytes.len(),
{
    if bytes.len() == 0 {
        0
    } else if bytes[0] == 0 {
        0
    } else {
        1 + terminated_len(bytes.drop_first())
    }
}

/// `src` cut to `n` bytes, then padded with zeros to `n` bytes.
pub open spec fn padded(src: Seq<u8>, n: nat) -> Seq<u8> {
    Seq::new(n, |i: int| if i < src.len() { src[i] } else { 0u8 })
}

proof fn lemma_terminated_len(bytes: Seq<u8>, i: int)
    requires
        0 <= i <= bytes.len(),
        forall|j: int| 0 <= j < i ==> bytes[j] != 0,
    ensures
        i < bytes.len() && bytes[i] == 0 ==> terminated_len(bytes) == i,
        i == bytes.len() ==> terminated_len(bytes) == i,
    decreases i,
{
    if i > 0 {
        lemma_terminated_len(bytes.drop_first(), i - 1);
    }
}

/// The position of the first zero byte of `bytes`, or its length.
pub(crate) fn terminator(bytes: &[u8]) -> (r: usize)
    ensures
        r == terminated_len(bytes@),
        r <= bytes@.len(),
{
    let mut i: usize = 0;
    while i < bytes.len()
        invariant
            0 <= i <= bytes@.len(),
            forall|j: int| 0 <= j < i ==> bytes@[j] != 0,
        decreases bytes@.len() - i,
    {
        if bytes[i] == 0 {
            proof {
                lemma_terminated_len(bytes@, i as int);
            }
            return i;
        }
        i = i + 1;
    }
    proof {
        lemma_terminated_len(bytes@, i as int);
    }
    i
}

/// Copies `src` into `dst`, cut to the length of `dst` and padded with zeros.
pub(crate) fn copy_padded<const N: usize>(dst: &mut [u8; N], src: &[u8])
    ensures
        final(dst)@ == padded(src@, N as nat),
{
    let mut i: usize = 0;
    while i < N
        invariant
            0 <= i <= N,
            dst@.len() == N,
            forall|j: int| 0 <= j < i ==> dst@[j] == padded(src@, N as nat)[j],
        decreases N - i,
    {
        if i < src.len() {
            dst[i] = src[i];
        } else {
            dst[i] = 0;
        }
        i = i + 1;
    }
    assert(dst@ =~= padded(src@, N as nat));
}

/// Conversion of an unsigned count to `usize`.
pub trait ToUsize {
    spec fn spec_value(&self) -> nat;

    fn to_usize(&self) -> (r: usize)
        requires
            self.spec_value() <= usize::MAX,
        ensures
            r == self.spec_value(),
    ;
}

impl ToUsize for u8 {
    open spec fn spec_value(&self) -> nat {
        *self as nat
    }

    fn to_usize(&self) -> (r: usize) {
        *self as usize
    }
}

impl ToUsize for u16 {
    open spec fn spec_value(&self) -> nat {
        *self as nat
    }

    fn to_usize(&self) -> (r: usize) {
        *self as usize
    }
}

impl ToUsize for u32 {
    open spec fn spec_value(&self) -> nat {
        *self as nat
    }

    fn to_usize(&self) -> (r: usize) {
        *self as usize
    }
}

impl ToUsize for u64 {
    open spec fn spec_value(&self) -> nat {
        *self as nat
    }

    fn to_usize(&self) -> (r: usize) {
        *self as usize
    }
}

/// A boolean held in one byte: zero is `false`, any other value `true`.
pub struct Bool(u8);

impl Bool {
    pub closed spec fn byte(&self) -> u8 {
        self.0
    }

    /// The boolean that the byte stands for.
    pub fn value(&self) -> (r: bool)
        ensures
            r == (self.byte() != 0),
    {
        self.0 != 0
    }

    /// The byte representation of `value`: one for `true`, zero for `false`.
    pub fn from_bool(value: bool) -> (r: Self)
        ensures
            r.byte() == if value {
                1u8
            } else {
                0u8
            },
    {
        Bool(if value {
            1
        } else {
            0
        })
    }

    /// Reads a boolean from a region of exactly one byte.
    pub fn from_bytes(bytes: &[u8]) -> (r: Result<Self, TranslationError>)
        ensures
            bytes@.len() == 1 ==> (r matches Ok(b) && b.byte() == bytes@[0]),
            bytes@.len() != 1 ==> r == Err::<Self, _>(TranslationError::InvalidLength),
    {
        if bytes.len() != 1 {
            return Err(TranslationError::InvalidLength);
        }
        Ok(Bool(bytes[0]))
    }
}

/// A string of up to `MAX_SIZE` bytes stored in a fixed array; a zero byte
/// ends it early.
pub struct Str<const MAX_SIZE: usize> {
    value: [u8; MAX_SIZE],
}

impl<const MAX_SIZE: usize> Str<MAX_SIZE> {
    pub closed spec fn bytes(&self) -> Seq<u8> {
        self.value@
    }

    /// A string of zero bytes.
    pub fn zeroed() -> (r: Self)
        ensures
            r.bytes() == Seq::new(MAX_SIZE as nat, |i: int| 0u8),
    {
        let r = Str { value: [0u8; MAX_SIZE] };
        assert(r.bytes() =~= Seq::new(MAX_SIZE as nat, |i: int| 0u8));
        r
    }

    /// Takes a fixed array as the bytes of the string.
    pub fn from_array(value: [u8; MAX_SIZE]) -> (r: Self)
        ensures
            r.bytes() == value@,
    {
        Str { value }
    }

    /// All `MAX_SIZE` bytes, terminator and padding included.
    pub fn as_bytes(&self) -> (r: &[u8])
        ensures
            r@ == self.bytes(),
    {
        self.value.as_slice()
    }

    /// The bytes up to the first zero byte, as a string, if they are valid
    /// UTF-8.
    pub fn as_str(&self) -> (r: Result<&str, TranslationError>)
        ensures
            r is Ok == valid_utf8(terminated(self.bytes())),
            r matches Ok(s) ==> s.spec_bytes() == terminated(self.bytes()),
            r matches Err(e) ==> e == TranslationError::InvalidValue,
    {
        let bytes = self.value.as_slice();
        let end = terminator(bytes);
        let head = vstd::slice::slice_subrange(bytes, 0, end);
        assert(head@ =~= terminated(self.bytes()));
        match utf8_str(head) {
            Ok(s) => Ok(s),
            Err(_) => Err(TranslationError::InvalidValue),
        }
    }

    /// Copies `slice`, cut to `MAX_SIZE` bytes and padded with zeros.
    pub fn copy_from_slice(&mut self, slice: &[u8])
        ensures
            final(self).bytes() == padded(slice@, MAX_SIZE as nat),
    {
        copy_padded(&mut self.value, slice);
    }

    /// Copies the bytes of `string`, cut to `MAX_SIZE` bytes and padded with
    /// zeros.
    pub fn copy_from_str(&mut self, string: &str)
        ensures
            final(self).bytes() == padded(string.spec_bytes(), MAX_SIZE as nat),
    {
        self.copy_from_slice(string.as_bytes())
    }
}

} // verus!
