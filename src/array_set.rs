//! A set kept as a sorted array, with its length held apart.
use vstd::prelude::*;
use crate::record::Key;

verus! {

/// An unsigned count that records how many elements of an array are in use.
pub trait Prefix: Copy {
    spec fn spec_value(&self) -> nat;

    /// The largest count the type holds.
    spec fn spec_max() -> nat;

    fn as_usize(&self) -> (r: usize)
        requires
            self.spec_value() <= usize::MAX,
        ensures
            r == self.spec_value(),
    ;

    fn decrement(&mut self)
        requires
            old(self).spec_value() > 0,
        ensures
            final(self).spec_value() == old(self).spec_value() - 1,
    ;

    fn increment(&mut self)
        requires
            old(self).spec_value() < Self::spec_max(),
        ensures
            final(self).spec_value() == old(self).spec_value() + 1,
    ;
}

impl Prefix for u8 {
    open spec fn spec_value(&self) -> nat {
        *self as nat
    }

    open spec fn spec_max() -> nat {
        u8::MAX as nat
    }

    fn as_usize(&self) -> (r: usize) {
        *self as usize
    }

    fn decrement(&mut self) {
        *self = *self - 1;
    }

    fn increment(&mut self) {
        *self = *self + 1;
    }
}

impl Prefix for u16 {
    open spec fn spec_value(&self) -> nat {
        *self as nat
    }

    open spec fn spec_max() -> nat {
        u16::MAX as nat
    }

    fn as_usize(&self) -> (r: usize) {
        *self as usize
    }

    fn decrement(&mut self) {
        *self = *self - 1;
    }

    fn increment(&mut self) {
        *self = *self + 1;
    }
}

impl Prefix for u32 {
    open spec fn spec_value(&self) -> nat {
        *self as nat
    }

    open spec fn spec_max() -> nat {
        u32::MAX as nat
    }

    fn as_usize(&self) -> (r: usize) {
        *self as usize
    }

    fn decrement(&mut self) {
        *self = *self - 1;
    }

    fn increment(&mut self) {
        *self = *self + 1;
    }
}

impl Prefix for u64 {
    open spec fn spec_value(&self) -> nat {
        *self as nat
    }

    open spec fn spec_max() -> nat {
        u64::MAX as nat
    }

    fn as_usize(&self) -> (r: usize) {
        *self as usize
    }

    fn decrement(&mut self) {
        *self = *self - 1;
    }

    fn increment(&mut self) {
        *self = *self + 1;
    }
}

impl Prefix for usize {
    open spec fn spec_value(&self) -> nat {
        *self as nat
    }

    open spec fn spec_max() -> nat {
        usize::MAX as nat
    }

    fn as_usize(&self) -> (r: usize) {
        *self
    }

    fn decrement(&mut self) {
        *self = *self - 1;
    }

    fn increment(&mut self) {
        *self = *self + 1;
    }
}

/// The elements of `s` rank in strictly increasing order.
pub open spec fn sorted<V: Key>(s: Seq<V>) -> bool {
    forall|i: int, j: int| 0 <= i < j < s.len() ==> #[trigger] s[i].rank() < #[trigger] s[j].rank()
}

/// Searches the sorted `values` for an element that ranks as `value` does.
/// Returns whether one was found, and its position, or else the position
/// where `value` belongs.
fn search<V: Key>(values: &[V], len: usize, value: &V) -> (r: (bool, usize))
    requires
        len <= values@.len(),
        sorted(values@.take(len as int)),
    ensures
        r.1 <= len,
        r.0 ==> r.1 < len && values@[r.1 as int].rank() == value.rank(),
        !r.0 ==> (forall|i: int| 0 <= i < r.1 ==> #[trigger] values@[i].rank() < value.rank()) && (
        forall|i: int| r.1 <= i < len ==> value.rank() < #[trigger] values@[i].rank()),
{
    let ghost s = values@.take(len as int);
    let mut start: usize = 0;
    let mut end: usize = len;
    while start < end
        invariant
            0 <= start <= end <= len <= values@.len(),
            s == values@.take(len as int),
            sorted(s),
            forall|i: int| 0 <= i < start ==> #[trigger] values@[i].rank() < value.rank(),
            forall|i: int| end <= i < len ==> value.rank() < #[trigger] values@[i].rank(),
        decreases end - start,
    {
        let middle = start + (end - start) / 2;
        let current = &values[middle];
        if value.less_than(current) {
            proof {
                assert forall|i: int| middle <= i < len implies value.rank() < #[trigger] values@[i].rank() by {
                    if i > middle {
                        assert(s[middle as int].rank() < s[i].rank());
                    }
                }
            }
            end = middle;
        } else if current.less_than(value) {
            proof {
                assert forall|i: int| 0 <= i <= middle implies #[trigger] values@[i].rank() < value.rank() by {
                    if i < middle {
                        assert(s[i].rank() < s[middle as int].rank());
                    }
                }
            }
            start = middle + 1;
        } else {
            return (true, middle);
        }
    }
    (false, start)
}

/// A read-only set of elements kept sorted in the first `length` slots of
/// an array.
pub struct ArraySet<'a, P: Prefix, V: Key> {
    length: &'a P,
    values: &'a [V],
}

impl<'a, P: Prefix, V: Key> ArraySet<'a, P, V> {
    /// The elements in use, in order.
    pub closed spec fn view(&self) -> Seq<V> {
        self.values@.take(self.length.spec_value() as int)
    }

    pub closed spec fn wf(&self) -> bool {
        &&& self.length.spec_value() <= self.values@.len()
        &&& sorted(self.view())
    }

    pub closed spec fn spec_slots(&self) -> nat {
        self.values@.len()
    }

    /// Views `length` and `values` as a set.
    pub fn from_parts(length: &'a P, values: &'a [V]) -> (r: Self)
        ensures
            r.wf() == (length.spec_value() <= values@.len() && sorted(
                values@.take(length.spec_value() as int),
            )),
            r.view() == values@.take(length.spec_value() as int),
            r.spec_slots() == values@.len(),
    {
        ArraySet { length, values }
    }

    pub fn len(&self) -> (r: usize)
        requires
            self.wf(),
        ensures
            r == self.view().len(),
    {
        let slots = self.values.len();
        proof {
            assert(self.length.spec_value() <= slots);
        }
        self.length.as_usize()
    }

    pub fn is_empty(&self) -> (r: bool)
        requires
            self.wf(),
        ensures
            r == (self.view().len() == 0),
    {
        self.len() == 0
    }

    pub fn is_full(&self) -> (r: bool)
        requires
            self.wf(),
        ensures
            r == (self.view().len() == self.spec_slots()),
    {
        self.len() == self.values.len()
    }

    /// The element equal to `value`, if the set holds one.
    pub fn get(&self, value: &V) -> (r: Option<&V>)
        requires
            self.wf(),
        ensures
            r matches Some(x) ==> self.view().contains(*x) && x.rank() == value.rank(),
            r is None ==> forall|i: int| 0 <= i < self.view().len() ==> #[trigger] self.view()[i].rank() != value.rank(),
    {
        let len = self.len();
        let (found, index) = search(self.values, len, value);
        if found {
            assert(self.view()[index as int] == self.values@[index as int]);
            Some(&self.values[index])
        } else {
            proof {
                assert forall|i: int| 0 <= i < self.view().len() implies #[trigger] self.view()[i].rank() != value.rank() by {
                    assert(self.view()[i] == self.values@[i]);
                }
            }
            None
        }
    }

    /// Whether the set holds an element equal to `value`.
    pub fn contains(&self, value: &V) -> (r: bool)
        requires
            self.wf(),
        ensures
            r == exists|i: int| 0 <= i < self.view().len() && #[trigger] self.view()[i].rank() == value.rank(),
    {
        match self.get(value) {
            Some(x) => {
                let ghost i = choose|i: int| 0 <= i < self.view().len() && self.view()[i] == *x;
                assert(self.view()[i].rank() == value.rank());
                true
            },
            None => false,
        }
    }

    /// The elements in use, in order.
    pub fn as_slice(&self) -> (r: &[V])
        requires
            self.wf(),
        ensures
            r@ == self.view(),
    {
        let len = self.len();
        vstd::slice::slice_subrange(self.values, 0, len)
    }
}

/// A set of elements kept sorted in the first `length` slots of an array,
/// both borrowed for writing.
pub struct ArraySetMut<'a, P: Prefix, V: Key> {
    length: &'a mut P,
    values: &'a mut [V],
}

impl<'a, P: Prefix, V: Key> ArraySetMut<'a, P, V> {
    /// The elements in use, in order.
    pub closed spec fn view(&self) -> Seq<V> {
        self.values@.take(self.length.spec_value() as int)
    }

    pub closed spec fn wf(&self) -> bool {
        &&& self.length.spec_value() <= self.values@.len()
        &&& self.values@.len() <= P::spec_max()
        &&& sorted(self.view())
    }

    pub closed spec fn spec_slots(&self) -> nat {
        self.values@.len()
    }

    /// Lays a set over `length` and `values`. It is well formed when the
    /// elements in use are sorted and the count can record every slot.
    pub fn from_parts(length: &'a mut P, values: &'a mut [V]) -> (r: Self)
        ensures
            r.wf() == (old(length).spec_value() <= old(values)@.len() && old(values)@.len()
                <= P::spec_max() && sorted(old(values)@.take(old(length).spec_value() as int))),
            r.view() == old(values)@.take(old(length).spec_value() as int),
            r.spec_slots() == old(values)@.len(),
    {
        ArraySetMut { length, values }
    }

    pub fn len(&self) -> (r: usize)
        requires
            self.wf(),
        ensures
            r == self.view().len(),
    {
        let slots = self.values.len();
        proof {
            assert(self.length.spec_value() <= slots);
        }
        self.length.as_usize()
    }

    pub fn is_empty(&self) -> (r: bool)
        requires
            self.wf(),
        ensures
            r == (self.view().len() == 0),
    {
        self.len() == 0
    }

    pub fn is_full(&self) -> (r: bool)
        requires
            self.wf(),
        ensures
            r == (self.view().len() == self.spec_slots()),
    {
        self.len() == self.values.len()
    }

    /// The element equal to `value`, if the set holds one.
    pub fn get(&self, value: &V) -> (r: Option<&V>)
        requires
            self.wf(),
        ensures
            r matches Some(x) ==> self.view().contains(*x) && x.rank() == value.rank(),
            r is None ==> forall|i: int| 0 <= i < self.view().len() ==> #[trigger] self.view()[i].rank() != value.rank(),
    {
        let len = self.len();
        let (found, index) = search(self.values, len, value);
        if found {
            assert(self.view()[index as int] == self.values@[index as int]);
            Some(&self.values[index])
        } else {
            proof {
                assert forall|i: int| 0 <= i < self.view().len() implies #[trigger] self.view()[i].rank() != value.rank() by {
                    assert(self.view()[i] == self.values@[i]);
                }
            }
            None
        }
    }

    /// Whether the set holds an element equal to `value`.
    pub fn contains(&self, value: &V) -> (r: bool)
        requires
            self.wf(),
        ensures
            r == exists|i: int| 0 <= i < self.view().len() && #[trigger] self.view()[i].rank() == value.rank(),
    {
        match self.get(value) {
            Some(x) => {
                let ghost i = choose|i: int| 0 <= i < self.view().len() && self.view()[i] == *x;
                assert(self.view()[i].rank() == value.rank());
                true
            },
            None => false,
        }
    }

    /// The elements in use, in order.
    pub fn as_slice(&self) -> (r: &[V])
        requires
            self.wf(),
        ensures
            r@ == self.view(),
    {
        let len = self.len();
        vstd::slice::slice_subrange(self.values, 0, len)
    }

    /// A mutable reference to the element equal to `value`, if the set holds
    /// one. Changing how it ranks leaves the set out of order.
    pub fn get_mut(&mut self, value: &V) -> (r: Option<&mut V>)
        requires
            old(self).wf(),
        ensures
            (r is Some) == exists|i: int| 0 <= i < old(self).view().len() && #[trigger] old(self).view()[i].rank() == value.rank(),
            r matches Some(x) ==> exists|i: int|
                0 <= i < old(self).view().len() && old(self).view()[i] == *x && x.rank() == value.rank()
                    && #[trigger] final(self).view() == old(self).view().update(i, *final(x)),
            r is None ==> final(self).view() == old(self).view(),
    {
        let len = self.len();
        let (found, index) = search(self.values, len, value);
        if found {
            let ghost v0 = self.view();
            assert(v0[index as int] == self.values@[index as int]);
            let x = &mut self.values[index];
            Some(x)
        } else {
            proof {
                assert forall|i: int| 0 <= i < self.view().len() implies #[trigger] self.view()[i].rank() != value.rank() by {
                    assert(self.view()[i] == self.values@[i]);
                }
            }
            None
        }
    }

    /// Adds `value` in its place in the order. Returns whether it was added:
    /// not if the set already holds an equal element, nor if it is full.
    pub fn insert(&mut self, value: V) -> (r: bool)
        requires
            old(self).wf(),
        ensures
            final(self).wf(),
            final(self).spec_slots() == old(self).spec_slots(),
            r == (old(self).view().len() < old(self).spec_slots() && forall|i: int|
                0 <= i < old(self).view().len() ==> #[trigger] old(self).view()[i].rank() != value.rank()),
            r ==> exists|i: int| 0 <= i <= old(self).view().len() && #[trigger] old(self).view().insert(i, value) == final(self).view(),
            !r ==> final(self).view() == old(self).view(),
    {
        let slots = self.values.len();
        let len = self.length.as_usize();
        if len == slots {
            return false;
        }
        let (found, index) = search(self.values, len, &value);
        if found {
            proof {
                assert(self.view()[index as int] == self.values@[index as int]);
            }
            return false;
        }
        let ghost v0 = self.values@;
        let mut k: usize = len;
        while k > index
            invariant
                index <= k <= len < slots,
                self.values@.len() == slots,
                v0.len() == slots,
                *self.length == *old(self).length,
                forall|i: int| 0 <= i <= k ==> #[trigger] self.values@[i] == v0[i],
                forall|i: int| k < i <= len ==> #[trigger] self.values@[i] == v0[i - 1],
            decreases k,
        {
            let moved = self.values[k - 1];
            self.values[k] = moved;
            k = k - 1;
        }
        self.values[index] = value;
        self.length.increment();
        proof {
            let s0 = v0.take(len as int);
            let s1 = self.view();
            assert(s1 =~= s0.insert(index as int, value));
            assert(sorted(s1)) by {
                assert forall|i: int, j: int| 0 <= i < j < s1.len() implies #[trigger] s1[i].rank() < #[trigger] s1[j].rank() by {
                    if j < index {
                        assert(s0[i].rank() < s0[j].rank());
                    } else if i > index {
                        assert(s0[i - 1].rank() < s0[j - 1].rank());
                    } else if i < index && j > index {
                        assert(s0[i].rank() < s0[j - 1].rank());
                    }
                }
            }
            assert(s0 == old(self).view());
        }
        true
    }

    /// Removes and returns the element equal to `value`, if the set holds one.
    pub fn take(&mut self, value: &V) -> (r: Option<V>)
        requires
            old(self).wf(),
        ensures
            final(self).wf(),
            final(self).spec_slots() == old(self).spec_slots(),
            (r is Some) == exists|i: int| 0 <= i < old(self).view().len() && #[trigger] old(self).view()[i].rank() == value.rank(),
            r matches Some(x) ==> x.rank() == value.rank() && exists|i: int|
                0 <= i < old(self).view().len() && old(self).view()[i] == x
                    && #[trigger] old(self).view().remove(i) == final(self).view(),
            r is None ==> final(self).view() == old(self).view(),
    {
        let slots = self.values.len();
        let len = self.length.as_usize();
        if len == 0 {
            return None;
        }
        let (found, index) = search(self.values, len, value);
        if !found {
            proof {
                assert forall|i: int| 0 <= i < self.view().len() implies #[trigger] self.view()[i].rank() != value.rank() by {
                    assert(self.view()[i] == self.values@[i]);
                }
            }
            return None;
        }
        let ghost v0 = self.values@;
        let taken = self.values[index];
        let mut k: usize = index;
        while k + 1 < len
            invariant
                index <= k < len <= slots,
                self.values@.len() == slots,
                v0.len() == slots,
                *self.length == *old(self).length,
                forall|i: int| 0 <= i < index ==> #[trigger] self.values@[i] == v0[i],
                forall|i: int| index <= i < k ==> #[trigger] self.values@[i] == v0[i + 1],
                forall|i: int| k <= i < slots ==> #[trigger] self.values@[i] == v0[i],
            decreases len - k,
        {
            let moved = self.values[k + 1];
            self.values[k] = moved;
            k = k + 1;
        }
        self.length.decrement();
        proof {
            let s0 = v0.take(len as int);
            let s1 = self.view();
            assert(s1 =~= s0.remove(index as int));
            assert(sorted(s1)) by {
                assert forall|i: int, j: int| 0 <= i < j < s1.len() implies #[trigger] s1[i].rank() < #[trigger] s1[j].rank() by {
                    if j < index {
                        assert(s0[i].rank() < s0[j].rank());
                    } else if i >= index {
                        assert(s0[i + 1].rank() < s0[j + 1].rank());
                    } else {
                        assert(s0[i].rank() < s0[j + 1].rank());
                    }
                }
            }
            assert(s0 == old(self).view());
            assert(s0[index as int] == taken);
        }
        Some(taken)
    }

    /// Removes the element equal to `value`; returns whether there was one.
    pub fn remove(&mut self, value: &V) -> (r: bool)
        requires
            old(self).wf(),
        ensures
            final(self).wf(),
            final(self).spec_slots() == old(self).spec_slots(),
            r == exists|i: int| 0 <= i < old(self).view().len() && #[trigger] old(self).view()[i].rank() == value.rank(),
            r ==> exists|i: int|
                0 <= i < old(self).view().len() && old(self).view()[i].rank() == value.rank()
                    && #[trigger] old(self).view().remove(i) == final(self).view(),
            !r ==> final(self).view() == old(self).view(),
    {
        match self.take(value) {
            Some(x) => {
                let ghost i = choose|i: int|
                    0 <= i < old(self).view().len() && old(self).view()[i] == x
                        && #[trigger] old(self).view().remove(i) == self.view();
                assert(old(self).view()[i].rank() == value.rank());
                true
            },
            None => false,
        }
    }
}

} // verus!
