//! Types with a value that stands for "none".
use vstd::prelude::*;

verus! {

/// A type in which one value stands for "none", so that an optional value
/// takes no more room than the value itself.
pub trait Nullable: Copy + Sized {
    /// Whether this is the value that stands for "none".
    spec fn spec_is_none(&self) -> bool;

    /// The value that stands for "none".
    fn none() -> (r: Self)
        ensures
            r.spec_is_none(),
    ;

    fn is_none(&self) -> (r: bool)
        ensures
            r == self.spec_is_none(),
    ;

    fn is_some(&self) -> (r: bool)
        ensures
            r == !self.spec_is_none(),
    ;
}

/// An unsigned array stands for "none" when all of its elements are zero.
impl<const N: usize> Nullable for [u8; N] {
    open spec fn spec_is_none(&self) -> bool {
        forall|i: int| 0 <= i < N ==> #[trigger] self@[i] == 0
    }

    fn none() -> (r: Self) {
        let r = [0u8; N];
        assert(forall|i: int| 0 <= i < N ==> #[trigger] r@[i] == 0);
        r
    }

    fn is_none(&self) -> (r: bool) {
        let mut i: usize = 0;
        while i < N
            invariant
                0 <= i <= N,
                forall|j: int| 0 <= j < i ==> #[trigger] self@[j] == 0,
            decreases N - i,
        {
            if self[i] != 0 {
                return false;
            }
            i = i + 1;
        }
        true
    }

    fn is_some(&self) -> (r: bool) {
        !self.is_none()
    }
}

impl<const N: usize> Nullable for [u16; N] {
    open spec fn spec_is_none(&self) -> bool {
        forall|i: int| 0 <= i < N ==> #[trigger] self@[i] == 0
    }

    fn none() -> (r: Self) {
        let r = [0u16; N];
        assert(forall|i: int| 0 <= i < N ==> #[trigger] r@[i] == 0);
        r
    }

    fn is_none(&self) -> (r: bool) {
        let mut i: usize = 0;
        while i < N
            invariant
                0 <= i <= N,
                forall|j: int| 0 <= j < i ==> #[trigger] self@[j] == 0,
            decreases N - i,
        {
            if self[i] != 0 {
                return false;
            }
            i = i + 1;
        }
        true
    }

    fn is_some(&self) -> (r: bool) {
        !self.is_none()
    }
}

impl<const N: usize> Nullable for [u32; N] {
    open spec fn spec_is_none(&self) -> bool {
        forall|i: int| 0 <= i < N ==> #[trigger] self@[i] == 0
    }

    fn none() -> (r: Self) {
        let r = [0u32; N];
        assert(forall|i: int| 0 <= i < N ==> #[trigger] r@[i] == 0);
        r
    }

    fn is_none(&self) -> (r: bool) {
        let mut i: usize = 0;
        while i < N
            invariant
                0 <= i <= N,
                forall|j: int| 0 <= j < i ==> #[trigger] self@[j] == 0,
            decreases N - i,
        {
            if self[i] != 0 {
                return false;
            }
            i = i + 1;
        }
        true
    }

    fn is_some(&self) -> (r: bool) {
        !self.is_none()
    }
}

impl<const N: usize> Nullable for [u64; N] {
    open spec fn spec_is_none(&self) -> bool {
        forall|i: int| 0 <= i < N ==> #[trigger] self@[i] == 0
    }

    fn none() -> (r: Self) {
        let r = [0u64; N];
        assert(forall|i: int| 0 <= i < N ==> #[trigger] r@[i] == 0);
        r
    }

    fn is_none(&self) -> (r: bool) {
        let mut i: usize = 0;
        while i < N
            invariant
                0 <= i <= N,
                forall|j: int| 0 <= j < i ==> #[trigger] self@[j] == 0,
            decreases N - i,
        {
            if self[i] != 0 {
                return false;
            }
            i = i + 1;
        }
        true
    }

    fn is_some(&self) -> (r: bool) {
        !self.is_none()
    }
}

} // verus!
