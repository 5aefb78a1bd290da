//! An optional value with no room spent on the option.
use vstd::prelude::*;
use crate::error::TranslationError;
use crate::nullable::Nullable;

verus! {

/// An optional `T` held as a plain `T`: the value that stands for "none" in
/// `T` means absent.
#[derive(Clone, Copy)]
pub struct MaybeNull<T: Nullable>(pub T);

impl<T: Nullable> MaybeNull<T> {
    /// The value held, "none" included.
    pub open spec fn inner(&self) -> T {
        self.0
    }

    /// The option that this value stands for.
    pub open spec fn spec_get(&self) -> Option<T> {
        if self.inner().spec_is_none() {
            None
        } else {
            Some(self.inner())
        }
    }

    /// Holds `value` as it is; the value that stands for "none" reads as absent.
    pub fn new(value: T) -> (r: Self)
        ensures
            r.inner() == value,
    {
        MaybeNull(value)
    }

    /// The absent value.
    pub fn null() -> (r: Self)
        ensures
            r.spec_get() is None,
    {
        MaybeNull(T::none())
    }

    /// Holds an option: `None` becomes the "none" value; a present value that
    /// is itself the "none" value cannot be held and is refused.
    pub fn from_option(value: Option<T>) -> (r: Result<Self, TranslationError>)
        ensures
            value matches Some(v) && v.spec_is_none() ==> r == Err::<Self, _>(TranslationError::InvalidValue),
            value matches Some(v) && !v.spec_is_none() ==> (r matches Ok(m) && m.spec_get() == value),
            value is None ==> (r matches Ok(m) && m.spec_get() is None),
    {
        match value {
            Some(v) => {
                if v.is_none() {
                    Err(TranslationError::InvalidValue)
                } else {
                    Ok(MaybeNull(v))
                }
            },
            None => Ok(MaybeNull(T::none())),
        }
    }

    /// The contained value as an `Option`.
    pub fn get(self) -> (r: Option<T>)
        ensures
            r == self.spec_get(),
    {
        if self.0.is_none() {
            None
        } else {
            Some(self.0)
        }
    }

    /// A reference to the contained value as an `Option`.
    pub fn as_ref(&self) -> (r: Option<&T>)
        ensures
            r matches Some(v) ==> self.spec_get() == Some(*v),
            r is None ==> self.spec_get() is None,
    {
        if self.0.is_none() {
            None
        } else {
            Some(&self.0)
        }
    }

    /// A mutable reference to the contained value as an `Option`.
    pub fn as_mut(&mut self) -> (r: Option<&mut T>)
        ensures
            r is None == old(self).inner().spec_is_none(),
            r matches Some(v) ==> *v == old(self).inner() && final(self).inner() == *final(v),
            r is None ==> final(self).inner() == old(self).inner(),
    {
        if self.0.is_none() {
            None
        } else {
            Some(&mut self.0)
        }
    }
}

impl<T: Nullable> Default for MaybeNull<T> {
    fn default() -> (r: Self)
        ensures
            r.spec_get() is None,
    {
        MaybeNull(T::none())
    }
}

impl<T: Nullable> From<T> for MaybeNull<T> {
    fn from(value: T) -> Self {
        MaybeNull::new(value)
    }
}

impl<T: Nullable> vstd::std_specs::convert::FromSpecImpl<T> for MaybeNull<T> {
    open spec fn obeys_from_spec() -> bool {
        true
    }

    /// The value held as it is.
    open spec fn from_spec(v: T) -> Self {
        MaybeNull(v)
    }
}

} // verus!
