//! Fixed-size payload types that can be stored in a node slot.
use vstd::prelude::*;

verus! {

/// A fixed-size, self-contained payload with an all-zero value, used to
/// clear a slot when it is released.
pub trait Zeroed: Copy + Sized {
    /// The all-zero value.
    spec fn spec_zeroed() -> Self;

    fn zeroed() -> (r: Self)
        ensures
            r == Self::spec_zeroed(),
    ;
}

/// A payload that can order the nodes of a search tree.
///
/// The order is the order of `rank`, which distinguishes every two
/// different keys.
pub trait Key: Zeroed {
    spec fn rank(self) -> int;

    proof fn lemma_rank_injective(a: Self, b: Self)
        ensures
            a.rank() == b.rank() ==> a == b,
    ;

    fn less_than(&self, other: &Self) -> (r: bool)
        ensures
            r == (self.rank() < other.rank()),
    ;
}

impl Zeroed for u8 {
    open spec fn spec_zeroed() -> Self {
        0
    }

    fn zeroed() -> (r: Self) {
        0
    }
}

impl Zeroed for u16 {
    open spec fn spec_zeroed() -> Self {
        0
    }

    fn zeroed() -> (r: Self) {
        0
    }
}

impl Zeroed for u32 {
    open spec fn spec_zeroed() -> Self {
        0
    }

    fn zeroed() -> (r: Self) {
        0
    }
}

impl Zeroed for u64 {
    open spec fn spec_zeroed() -> Self {
        0
    }

    fn zeroed() -> (r: Self) {
        0
    }
}

impl Zeroed for i32 {
    open spec fn spec_zeroed() -> Self {
        0
    }

    fn zeroed() -> (r: Self) {
        0
    }
}

impl Zeroed for i64 {
    open spec fn spec_zeroed() -> Self {
        0
    }

    fn zeroed() -> (r: Self) {
        0
    }
}

impl Key for u8 {
    open spec fn rank(self) -> int {
        self as int
    }

    proof fn lemma_rank_injective(a: Self, b: Self) {
    }

    fn less_than(&self, other: &Self) -> (r: bool) {
        *self < *other
    }
}

impl Key for u16 {
    open spec fn rank(self) -> int {
        self as int
    }

    proof fn lemma_rank_injective(a: Self, b: Self) {
    }

    fn less_than(&self, other: &Self) -> (r: bool) {
        *self < *other
    }
}

impl Key for u32 {
    open spec fn rank(self) -> int {
        self as int
    }

    proof fn lemma_rank_injective(a: Self, b: Self) {
    }

    fn less_than(&self, other: &Self) -> (r: bool) {
        *self < *other
    }
}

impl Key for u64 {
    open spec fn rank(self) -> int {
        self as int
    }

    proof fn lemma_rank_injective(a: Self, b: Self) {
    }

    fn less_than(&self, other: &Self) -> (r: bool) {
        *self < *other
    }
}

impl Key for i32 {
    open spec fn rank(self) -> int {
        self as int
    }

    proof fn lemma_rank_injective(a: Self, b: Self) {
    }

    fn less_than(&self, other: &Self) -> (r: bool) {
        *self < *other
    }
}

impl Key for i64 {
    open spec fn rank(self) -> int {
        self as int
    }

    proof fn lemma_rank_injective(a: Self, b: Self) {
    }

    fn less_than(&self, other: &Self) -> (r: bool) {
        *self < *other
    }
}

} // verus!
