//! Strings of variable size laid over a byte region whose first bytes record
//! the length.
use vstd::prelude::*;
use vstd::utf8::valid_utf8;
use vstd::string::StringSliceAdditionalSpecFns;
use crate::error::TranslationError;
use crate::types::{padded, utf8_str};

verus! {

/// A two-byte length in little-endian order.
pub open spec fn le_u16(b: Seq<u8>) -> nat {
    (b[0] + 256 * b[1]) as nat
}

/// A two-byte length in big-endian order.
pub open spec fn be_u16(b: Seq<u8>) -> nat {
    (b[1] + 256 * b[0]) as nat
}

/// Relies on `bytemuck::pod_read_unaligned::<u8>`: one byte read as a `u8`
/// is that byte.
#[verifier::external_body]
fn read_u8(bytes: &[u8]) -> (r: u8)
    requires
        bytes@.len() == 1,
    ensures
        r == bytes@[0],
{
    bytemuck::pod_read_unaligned::<u8>(bytes)
}

/// Relies on `bytemuck::pod_read_unaligned::<u16>`: two bytes read as a
/// `u16` in the byte order of the machine, which is one of the two.
#[verifier::external_body]
fn read_u16(bytes: &[u8]) -> (r: u16)
    requires
        bytes@.len() == 2,
    ensures
        r == le_u16(bytes@) || r == be_u16(bytes@),
{
    bytemuck::pod_read_unaligned::<u16>(bytes)
}

/// Copies `src` into `dst`, cut to the length of `dst` and padded with zeros.
fn fill_padded(dst: &mut [u8], src: &[u8])
    ensures
        final(dst)@ == padded(src@, old(dst)@.len()),
{
    let n = dst.len();
    let mut i: usize = 0;
    while i < n
        invariant
            0 <= i <= n,
            n == old(dst)@.len(),
            dst@.len() == n,
            forall|j: int| 0 <= j < i ==> dst@[j] == padded(src@, n as nat)[j],
        decreases n - i,
    {
        if i < src.len() {
            dst[i] = src[i];
        } else {
            dst[i] = 0;
        }
        i = i + 1;
    }
    assert(dst@ =~= padded(src@, n as nat));
}

/// A read-only string whose first byte records its length in bytes.
pub struct U8PrefixStr<'a> {
    value: &'a [u8],
}

impl<'a> U8PrefixStr<'a> {
    pub closed spec fn bytes(&self) -> Seq<u8> {
        self.value@
    }

    /// Reads the string from `bytes`: the first byte gives the length, the
    /// string follows. Fails if the region is too short for the prefix or the
    /// recorded length, or if the string is not valid UTF-8.
    pub fn from_bytes(bytes: &'a [u8]) -> (r: Result<Self, TranslationError>)
        ensures
            bytes@.len() < 1 || bytes@.len() < 1 + bytes@[0] ==> r == Err::<Self, _>(
                TranslationError::InvalidLength,
            ),
            bytes@.len() >= 1 && bytes@.len() >= 1 + bytes@[0] ==> {
                let s = bytes@.subrange(1, 1 + bytes@[0]);
                &&& valid_utf8(s) ==> (r matches Ok(p) && p.bytes() == s)
                &&& !valid_utf8(s) ==> r == Err::<Self, _>(TranslationError::InvalidValue)
            },
    {
        if bytes.len() < 1 {
            return Err(TranslationError::InvalidLength);
        }
        let (length, rest) = bytes.split_at(1);
        let length = read_u8(length) as usize;
        if length > rest.len() {
            return Err(TranslationError::InvalidLength);
        }
        let (value, _) = rest.split_at(length);
        assert(value@ =~= bytes@.subrange(1, 1 + bytes@[0]));
        match utf8_str(value) {
            Ok(_) => Ok(U8PrefixStr { value }),
            Err(_) => Err(TranslationError::InvalidValue),
        }
    }

    /// The string.
    pub fn as_str(&self) -> (r: Result<&str, core::str::Utf8Error>)
        ensures
            r is Ok == valid_utf8(self.bytes()),
            r matches Ok(s) ==> s.spec_bytes() == self.bytes(),
    {
        utf8_str(self.value)
    }

    /// The length of the string in bytes.
    pub fn len(&self) -> (r: usize)
        ensures
            r == self.bytes().len(),
    {
        self.value.len()
    }

    /// The size of the region in use: the prefix and the string.
    pub fn size(&self) -> (r: usize)
        requires
            self.bytes().len() <= usize::MAX - 1,
        ensures
            r == 1 + self.bytes().len(),
    {
        1 + self.value.len()
    }
}

/// A read-only string whose first two bytes record its length in bytes.
pub struct U16PrefixStr<'a> {
    value: &'a [u8],
}

impl<'a> U16PrefixStr<'a> {
    pub closed spec fn bytes(&self) -> Seq<u8> {
        self.value@
    }

    /// Reads the string from `bytes`: the first two bytes give the length in
    /// the machine's byte order, the string follows. Fails if the region is
    /// too short for the prefix or the recorded length, or if the string is
    /// not valid UTF-8.
    pub fn from_bytes(bytes: &'a [u8]) -> (r: Result<Self, TranslationError>)
        ensures
            bytes@.len() < 2 ==> r == Err::<Self, _>(TranslationError::InvalidLength),
            r matches Ok(p) ==> valid_utf8(p.bytes()) && (p.bytes().len() == le_u16(bytes@)
                || p.bytes().len() == be_u16(bytes@)) && p.bytes() == bytes@.subrange(
                2,
                2 + p.bytes().len() as int,
            ),
            r matches Err(e) ==> e == TranslationError::InvalidLength || e
                == TranslationError::InvalidValue,
            bytes@.len() >= 2 && 2 + le_u16(bytes@) <= bytes@.len() && 2 + be_u16(bytes@)
                <= bytes@.len() && valid_utf8(bytes@.subrange(2, 2 + le_u16(bytes@) as int))
                && valid_utf8(bytes@.subrange(2, 2 + be_u16(bytes@) as int)) ==> r is Ok,
    {
        if bytes.len() < 2 {
            return Err(TranslationError::InvalidLength);
        }
        let (length, rest) = bytes.split_at(2);
        let length = read_u16(length) as usize;
        if length > rest.len() {
            return Err(TranslationError::InvalidLength);
        }
        let (value, _) = rest.split_at(length);
        assert(value@ =~= bytes@.subrange(2, 2 + length));
        match utf8_str(value) {
            Ok(_) => Ok(U16PrefixStr { value }),
            Err(_) => Err(TranslationError::InvalidValue),
        }
    }

    /// The string.
    pub fn as_str(&self) -> (r: Result<&str, core::str::Utf8Error>)
        ensures
            r is Ok == valid_utf8(self.bytes()),
            r matches Ok(s) ==> s.spec_bytes() == self.bytes(),
    {
        utf8_str(self.value)
    }

    /// The length of the string in bytes.
    pub fn len(&self) -> (r: usize)
        ensures
            r == self.bytes().len(),
    {
        self.value.len()
    }

    /// The size of the region in use: the prefix and the string.
    pub fn size(&self) -> (r: usize)
        requires
            self.bytes().len() <= usize::MAX - 2,
        ensures
            r == 2 + self.bytes().len(),
    {
        2 + self.value.len()
    }
}

/// A string laid over a mutable region whose first byte records its length.
pub struct U8PrefixStrMut<'a> {
    value: &'a mut [u8],
}

impl<'a> U8PrefixStrMut<'a> {
    pub closed spec fn bytes(&self) -> Seq<u8> {
        self.value@
    }

    /// Takes `data` as the storage of a string that fills it: records the
    /// length of the rest (modulo 256) in the first byte and takes that many
    /// bytes after it. Fails if they are not valid UTF-8.
    pub fn new(data: &'a mut [u8]) -> (r: Result<Self, TranslationError>)
        requires
            old(data)@.len() >= 1,
        ensures
            ({
                let n = (old(data)@.len() - 1) % 256;
                let s = old(data)@.subrange(1, 1 + n);
                &&& valid_utf8(s) ==> (r matches Ok(p) && p.bytes() == s)
                &&& !valid_utf8(s) ==> r == Err::<Self, _>(TranslationError::InvalidValue)
            }),
    {
        let ghost d = data@;
        let (head, rest) = data.split_at_mut(1);
        let length: u8 = ((rest.len() % 256) as u8);
        head[0] = length;
        let (value, _) = rest.split_at_mut(length as usize);
        assert(value@ =~= d.subrange(1, 1 + (d.len() - 1) % 256));
        match utf8_str(value) {
            Ok(_) => Ok(U8PrefixStrMut { value }),
            Err(_) => Err(TranslationError::InvalidValue),
        }
    }

    /// Copies `slice`, cut to the length of the string and padded with zeros.
    /// The result is valid UTF-8 only if the cut falls between characters.
    pub fn copy_from_slice(&mut self, slice: &[u8])
        ensures
            final(self).bytes() == padded(slice@, old(self).bytes().len()),
    {
        fill_padded(self.value, slice);
    }

    /// Copies the bytes of `string`, cut to the length of the string and
    /// padded with zeros.
    pub fn copy_from_str(&mut self, string: &str)
        ensures
            final(self).bytes() == padded(string.spec_bytes(), old(self).bytes().len()),
    {
        fill_padded(self.value, string.as_bytes());
    }

    /// The string, padding included.
    pub fn as_str(&self) -> (r: Result<&str, core::str::Utf8Error>)
        ensures
            r is Ok == valid_utf8(self.bytes()),
            r matches Ok(s) ==> s.spec_bytes() == self.bytes(),
    {
        utf8_str(self.value)
    }

    /// The length of the string in bytes.
    pub fn len(&self) -> (r: usize)
        ensures
            r == self.bytes().len(),
    {
        self.value.len()
    }

    /// The size of the region in use: the prefix and the string.
    pub fn size(&self) -> (r: usize)
        requires
            self.bytes().len() <= usize::MAX - 1,
        ensures
            r == 1 + self.bytes().len(),
    {
        1 + self.value.len()
    }
}

/// A string laid over a mutable region whose first two bytes record its
/// length.
pub struct U16PrefixStrMut<'a> {
    value: &'a mut [u8],
}

impl<'a> U16PrefixStrMut<'a> {
    pub closed spec fn bytes(&self) -> Seq<u8> {
        self.value@
    }

    /// Takes `data` as the storage of a string that fills it: records the
    /// length of the rest (modulo 65536) in the first two bytes, least
    /// significant first, and takes that many bytes after them. Fails if they
    /// are not valid UTF-8.
    pub fn new(data: &'a mut [u8]) -> (r: Result<Self, TranslationError>)
        requires
            old(data)@.len() >= 2,
        ensures
            ({
                let n = (old(data)@.len() - 2) % 65536;
                let s = old(data)@.subrange(2, 2 + n);
                &&& valid_utf8(s) ==> (r matches Ok(p) && p.bytes() == s)
                &&& !valid_utf8(s) ==> r == Err::<Self, _>(TranslationError::InvalidValue)
            }),
    {
        let ghost d = data@;
        let (head, rest) = data.split_at_mut(2);
        let length: u16 = ((rest.len() % 65536) as u16);
        head[0] = (length % 256) as u8;
        head[1] = (length / 256) as u8;
        let (value, _) = rest.split_at_mut(length as usize);
        assert(value@ =~= d.subrange(2, 2 + (d.len() - 2) % 65536));
        match utf8_str(value) {
            Ok(_) => Ok(U16PrefixStrMut { value }),
            Err(_) => Err(TranslationError::InvalidValue),
        }
    }

    /// Copies `slice`, cut to the length of the string and padded with zeros.
    /// The result is valid UTF-8 only if the cut falls between characters.
    pub fn copy_from_slice(&mut self, slice: &[u8])
        ensures
            final(self).bytes() == padded(slice@, old(self).bytes().len()),
    {
        fill_padded(self.value, slice);
    }

    /// Copies the bytes of `string`, cut to the length of the string and
    /// padded with zeros.
    pub fn copy_from_str(&mut self, string: &str)
        ensures
            final(self).bytes() == padded(string.spec_bytes(), old(self).bytes().len()),
    {
        fill_padded(self.value, string.as_bytes());
    }

    /// The string, padding included.
    pub fn as_str(&self) -> (r: Result<&str, core::str::Utf8Error>)
        ensures
            r is Ok == valid_utf8(self.bytes()),
            r matches Ok(s) ==> s.spec_bytes() == self.bytes(),
    {
        utf8_str(self.value)
    }

    /// The length of the string in bytes.
    pub fn len(&self) -> (r: usize)
        ensures
            r == self.bytes().len(),
    {
        self.value.len()
    }

    /// The size of the region in use: the prefix and the string.
    pub fn size(&self) -> (r: usize)
        requires
            self.bytes().len() <= usize::MAX - 2,
        ensures
            r == 2 + self.bytes().len(),
    {
        2 + self.value.len()
    }
}

} // verus!
