//! A plain-data string of fixed capacity.
use vstd::prelude::*;
use vstd::utf8::valid_utf8;
use vstd::string::StringSliceAdditionalSpecFns;
use crate::error::TranslationError;
use crate::types::{copy_padded, padded, terminated, terminator, utf8_str};

verus! {

/// A string of up to `MAX_SIZE` bytes held in a fixed array; a zero byte
/// ends it early and the bytes after it are zero.
#[derive(Clone, Copy, Debug, PartialEq, Eq)]
pub struct PodStr<const MAX_SIZE: usize> {
    /// The bytes of the string.
    pub value: [u8; MAX_SIZE],
}

impl<const MAX_SIZE: usize> PodStr<MAX_SIZE> {
    /// A string holding the first `MAX_SIZE` bytes of `s`, padded with zeros.
    pub fn new(s: &str) -> (r: Self)
        ensures
            r.value@ == padded(s.spec_bytes(), MAX_SIZE as nat),
    {
        let mut value = [0u8; MAX_SIZE];
        copy_padded(&mut value, s.as_bytes());
        PodStr { value }
    }

    /// Reads a string from a region of exactly `MAX_SIZE` bytes.
    pub fn load(bytes: &[u8]) -> (r: Result<Self, TranslationError>)
        ensures
            bytes@.len() == MAX_SIZE ==> (r matches Ok(p) && p.value@ == bytes@),
            bytes@.len() != MAX_SIZE ==> r == Err::<Self, _>(TranslationError::InvalidLength),
    {
        if bytes.len() != MAX_SIZE {
            return Err(TranslationError::InvalidLength);
        }
        let mut value = [0u8; MAX_SIZE];
        copy_padded(&mut value, bytes);
        assert(value@ =~= bytes@);
        Ok(PodStr { value })
    }

    /// Copies `slice`, cut to `MAX_SIZE` bytes and padded with zeros.
    pub fn copy_from_slice(&mut self, slice: &[u8])
        ensures
            final(self).value@ == padded(slice@, MAX_SIZE as nat),
    {
        copy_padded(&mut self.value, slice);
    }

    /// Copies the bytes of `string`, cut to `MAX_SIZE` bytes and padded with
    /// zeros.
    pub fn copy_from_str(&mut self, string: &str)
        ensures
            final(self).value@ == padded(string.spec_bytes(), MAX_SIZE as nat),
    {
        self.copy_from_slice(string.as_bytes())
    }

    /// The bytes up to the first zero byte, as a string, if they are valid
    /// UTF-8.
    pub fn as_str(&self) -> (r: Result<&str, core::str::Utf8Error>)
        ensures
            r is Ok == valid_utf8(terminated(self.value@)),
            r matches Ok(s) ==> s.spec_bytes() == terminated(self.value@),
    {
        let bytes = self.value.as_slice();
        let end = terminator(bytes);
        let head = vstd::slice::slice_subrange(bytes, 0, end);
        assert(head@ =~= terminated(self.value@));
        utf8_str(head)
    }
}

impl<const MAX_SIZE: usize> Default for PodStr<MAX_SIZE> {
    fn default() -> (r: Self)
        ensures
            r.value@ == Seq::new(MAX_SIZE as nat, |i: int| 0u8),
    {
        let r = PodStr { value: [0u8; MAX_SIZE] };
        assert(r.value@ =~= Seq::new(MAX_SIZE as nat, |i: int| 0u8));
        r
    }
}

impl<'a, const MAX_SIZE: usize> From<&'a str> for PodStr<MAX_SIZE> {
    fn from(s: &'a str) -> Self {
        let r = PodStr::new(s);
        proof {
            broadcast use vstd::array::group_array_axioms;

            let a = padded_array::<MAX_SIZE>(s.spec_bytes(), MAX_SIZE as nat);
            lemma_padded_array::<MAX_SIZE>(s.spec_bytes(), MAX_SIZE as nat);
            assert(a@ =~= r.value@);
            assert(a =~= r.value);
        }
        r
    }
}

impl<'a, const MAX_SIZE: usize> vstd::std_specs::convert::FromSpecImpl<&'a str> for PodStr<MAX_SIZE> {
    open spec fn obeys_from_spec() -> bool {
        true
    }

    /// The string whose bytes are those of `v`, cut to `MAX_SIZE` and padded
    /// with zeros.
    open spec fn from_spec(v: &'a str) -> Self {
        PodStr { value: padded_array::<MAX_SIZE>(v.spec_bytes(), MAX_SIZE as nat) }
    }
}

/// An array of `N` bytes whose first `i` bytes are those of `src` (zero past
/// its end) and whose other bytes are zero.
pub open spec fn padded_array<const N: usize>(src: Seq<u8>, i: nat) -> [u8; N]
    decreases i,
{
    if i == 0 {
        vstd::array::spec_array_fill_for_copy_type::<u8, N>(0u8)
    } else {
        vstd::array::spec_array_update(
            padded_array::<N>(src, (i - 1) as nat),
            i - 1,
            if i - 1 < src.len() {
                src[i - 1]
            } else {
                0u8
            },
        )
    }
}

/// The bytes of `padded_array`: for all `N` of them, `src` padded with zeros.
pub proof fn lemma_padded_array<const N: usize>(src: Seq<u8>, i: nat)
    requires
        i <= N,
    ensures
        padded_array::<N>(src, i)@ == Seq::new(N as nat, |j: int| if j < i { padded(src, N as nat)[j] } else { 0u8 }),
    decreases i,
{
    broadcast use vstd::array::group_array_axioms;

    if i == 0 {
        let a = vstd::array::spec_array_fill_for_copy_type::<u8, N>(0u8);
        assert(a@ =~= Seq::new(N as nat, |j: int| if j < i { padded(src, N as nat)[j] } else { 0u8 }));
    } else {
        lemma_padded_array::<N>(src, (i - 1) as nat);
        assert(padded_array::<N>(src, i)@ =~= Seq::new(N as nat, |j: int| if j < i { padded(src, N as nat)[j] } else { 0u8 }));
    }
}

} // verus!
